//! Emphasising the tags of a text where they occur in it.

use crate::style::{bold_on, emphasis_off, emphasize, escape_char, is_emphasis_of, Tint};
use crate::tags::{tags_in, Tags};
use regex::Regex;
use vstd::prelude::*;
use vstd::string::{StringExecFns, StringSliceAdditionalSpecFns};
use vstd::utf8::{decode_utf8, encode_utf8, is_char_boundary};

verus! {

/// Whether `c` has a meaning in a regular expression.
pub open spec fn is_meta_character(c: char) -> bool {
    ||| c == '\\'
    ||| c == '.'
    ||| c == '+'
    ||| c == '*'
    ||| c == '?'
    ||| c == '('
    ||| c == ')'
    ||| c == '|'
    ||| c == '['
    ||| c == ']'
    ||| c == '{'
    ||| c == '}'
    ||| c == '^'
    ||| c == '$'
    ||| c == '#'
    ||| c == '&'
    ||| c == '-'
    ||| c == '~'
}

/// `text` with a backslash before every character that has a meaning in a
/// regular expression, and nothing else changed.
pub open spec fn regex_escaped(text: Seq<char>) -> Seq<char>
    decreases text.len(),
{
    if text.len() == 0 {
        Seq::empty()
    } else if is_meta_character(text.last()) {
        regex_escaped(text.drop_last()) + seq!['\\', text.last()]
    } else {
        regex_escaped(text.drop_last()).push(text.last())
    }
}

/// Whether the crate `regex` compiles `pattern`: whether it is a regular
/// expression, and one whose compiled form keeps within the size that
/// `regex` allows.
pub uninterp spec fn regex_compiles(pattern: Seq<char>) -> bool;

/// What the regular expression `pattern`, once compiled, finds in `text`:
/// its matches from left to right, each as the byte offsets at which it
/// begins and ends.
pub uninterp spec fn regex_matches(pattern: Seq<char>, text: Seq<char>) -> Seq<(usize, usize)>;

/// What the crate `regex` finds of `pattern` in `text`; `None` if it does
/// not compile `pattern`.
pub open spec fn regex_spans(pattern: Seq<char>, text: Seq<char>) -> Option<Seq<(usize, usize)>> {
    if regex_compiles(pattern) {
        Some(regex_matches(pattern, text))
    } else {
        None
    }
}

/// Calls `regex::escape`, which puts a backslash before each of the
/// eighteen characters that `regex` counts as meta characters and copies
/// every other character.
#[verifier::external_body]
fn escape(text: &str) -> (escaped: String)
    ensures
        escaped@ == regex_escaped(text@),
{
    regex::escape(text)
}

/// Compiles `pattern` with `Regex::new` and, where that succeeds, walks
/// `Regex::find_iter` over `text`, keeping `Match::start` and `Match::end`
/// of each match. Nothing is claimed of which patterns compile, nor of
/// which matches there are: the first is only given the name
/// `regex_compiles`, the second the name `regex_matches`.
#[verifier::external_body]
fn find_spans(pattern: &str, text: &str) -> (spans: Option<Vec<(usize, usize)>>)
    ensures
        spans is Some == regex_compiles(pattern@),
        spans matches Some(found) ==> found@ == regex_matches(pattern@, text@),
{
    match Regex::new(pattern) {
        Ok(compiled) => Some(compiled.find_iter(text).map(|m| (m.start(), m.end())).collect()),
        Err(_) => None,
    }
}

/// The texts of `parts` in a row, with `sep` between each two.
pub open spec fn joined(parts: Seq<Seq<char>>, sep: Seq<char>) -> Seq<char>
    decreases parts.len(),
{
    if parts.len() == 0 {
        Seq::empty()
    } else if parts.len() == 1 {
        parts[0]
    } else {
        joined(parts.drop_last(), sep) + sep + parts.last()
    }
}

/// Calls `itertools::join`, which writes the items one after the other with
/// `sep` between each two, and nothing for no items.
#[verifier::external_body]
fn join(parts: &Vec<String>, sep: &str) -> (out: String)
    ensures
        out@ == joined(parts.deep_view(), sep@),
{
    itertools::join(parts, sep)
}

/// `sorted` with `tag` put before the first text that is shorter than it.
pub open spec fn place_by_length(sorted: Seq<Seq<char>>, tag: Seq<char>) -> Seq<Seq<char>>
    decreases sorted.len(),
{
    if sorted.len() == 0 {
        seq![tag]
    } else if sorted[0].len() < tag.len() {
        seq![tag] + sorted
    } else {
        seq![sorted[0]] + place_by_length(sorted.skip(1), tag)
    }
}

/// `tags` from the longest to the shortest; tags of one length keep the
/// order that they had.
pub open spec fn longest_first(tags: Seq<Seq<char>>) -> Seq<Seq<char>>
    decreases tags.len(),
{
    if tags.len() == 0 {
        Seq::empty()
    } else {
        place_by_length(longest_first(tags.drop_last()), tags.last())
    }
}

/// Where a tag is placed: after the texts that are at least as long, and
/// before the first that is shorter.
pub proof fn lemma_place_by_length(sorted: Seq<Seq<char>>, tag: Seq<char>, pos: int)
    requires
        0 <= pos <= sorted.len(),
        forall|k: int| 0 <= k < pos ==> (#[trigger] sorted[k]).len() >= tag.len(),
        pos < sorted.len() ==> sorted[pos].len() < tag.len(),
    ensures
        place_by_length(sorted, tag) == sorted.insert(pos, tag),
    decreases sorted.len(),
{
    if sorted.len() == 0 {
        assert(sorted.insert(pos, tag) == seq![tag]);
    } else if pos == 0 {
        assert(sorted.insert(0, tag) == seq![tag] + sorted);
    } else {
        assert(sorted[0].len() >= tag.len());
        let rest = sorted.skip(1);
        assert forall|k: int| 0 <= k < pos - 1 implies (#[trigger] rest[k]).len() >= tag.len() by {
            assert(rest[k] == sorted[k + 1]);
        }
        lemma_place_by_length(rest, tag, pos - 1);
        assert(seq![sorted[0]] + rest.insert(pos - 1, tag) == sorted.insert(pos, tag));
    }
}

/// Placing a tag keeps the texts in order of length and adds the tag to
/// them, nothing else.
pub proof fn lemma_place_keeps_order(sorted: Seq<Seq<char>>, tag: Seq<char>)
    requires
        forall|i: int, j: int|
            0 <= i < j < sorted.len() ==> (#[trigger] sorted[i]).len() >= (#[trigger] sorted[j]).len(),
    ensures
        place_by_length(sorted, tag).len() == sorted.len() + 1,
        forall|i: int, j: int|
            0 <= i < j < place_by_length(sorted, tag).len() ==> (#[trigger] place_by_length(
                sorted,
                tag,
            )[i]).len() >= (#[trigger] place_by_length(sorted, tag)[j]).len(),
        forall|text: Seq<char>| #[trigger]
            place_by_length(sorted, tag).contains(text) <==> sorted.contains(text) || text == tag,
    decreases sorted.len(),
{
    let placed = place_by_length(sorted, tag);
    if sorted.len() == 0 {
        assert(placed[0] == tag);
    } else if sorted[0].len() < tag.len() {
        assert(placed[0] == tag);
        assert forall|text: Seq<char>| placed.contains(text) <==> sorted.contains(text) || text
            == tag by {
            if placed.contains(text) {
                let k = choose|k: int| 0 <= k < placed.len() && placed[k] == text;
                if k > 0 {
                    assert(sorted[k - 1] == text);
                }
            }
            if sorted.contains(text) {
                let k = choose|k: int| 0 <= k < sorted.len() && sorted[k] == text;
                assert(placed[k + 1] == text);
            }
        }
        assert forall|i: int, j: int| 0 <= i < j < placed.len() implies (#[trigger] placed[i]).len()
            >= (#[trigger] placed[j]).len() by {
            assert(placed[j] == sorted[j - 1]);
            if i > 0 {
                assert(placed[i] == sorted[i - 1]);
            } else {
                assert(sorted[0].len() >= sorted[j - 1].len());
            }
        }
    } else {
        let rest = sorted.skip(1);
        assert forall|i: int, j: int| 0 <= i < j < rest.len() implies (#[trigger] rest[i]).len()
            >= (#[trigger] rest[j]).len() by {
            assert(rest[i] == sorted[i + 1] && rest[j] == sorted[j + 1]);
        }
        lemma_place_keeps_order(rest, tag);
        let inner = place_by_length(rest, tag);
        assert(placed[0] == sorted[0]);
        assert forall|text: Seq<char>| placed.contains(text) <==> sorted.contains(text) || text
            == tag by {
            if placed.contains(text) {
                let k = choose|k: int| 0 <= k < placed.len() && placed[k] == text;
                if k > 0 {
                    assert(inner[k - 1] == text);
                    assert(inner.contains(text));
                    if rest.contains(text) {
                        let r = choose|r: int| 0 <= r < rest.len() && rest[r] == text;
                        assert(sorted[r + 1] == text);
                    }
                }
            }
            if sorted.contains(text) {
                let k = choose|k: int| 0 <= k < sorted.len() && sorted[k] == text;
                if k > 0 {
                    assert(rest[k - 1] == text);
                    assert(rest.contains(text));
                    assert(inner.contains(text));
                    let r = choose|r: int| 0 <= r < inner.len() && inner[r] == text;
                    assert(placed[r + 1] == text);
                }
            }
            if text == tag {
                assert(inner.contains(text));
                let r = choose|r: int| 0 <= r < inner.len() && inner[r] == text;
                assert(placed[r + 1] == text);
            }
        }
        assert forall|i: int, j: int| 0 <= i < j < placed.len() implies (#[trigger] placed[i]).len()
            >= (#[trigger] placed[j]).len() by {
            assert(placed[j] == inner[j - 1]);
            if i > 0 {
                assert(placed[i] == inner[i - 1]);
            } else {
                assert(inner.contains(inner[j - 1]));
                if rest.contains(inner[j - 1]) {
                    let r = choose|r: int| 0 <= r < rest.len() && rest[r] == inner[j - 1];
                    assert(sorted[r + 1] == inner[j - 1]);
                }
            }
        }
    }
}

/// `longest_first` holds the tags it was given, each as often as one of
/// them, from the longest to the shortest.
pub proof fn law_longest_first(tags: Seq<Seq<char>>)
    ensures
        longest_first(tags).len() == tags.len(),
        forall|i: int, j: int|
            0 <= i < j < longest_first(tags).len() ==> (#[trigger] longest_first(tags)[i]).len()
                >= (#[trigger] longest_first(tags)[j]).len(),
        forall|text: Seq<char>| longest_first(tags).contains(text) <==> tags.contains(text),
    decreases tags.len(),
{
    if tags.len() > 0 {
        let front = tags.drop_last();
        law_longest_first(front);
        lemma_place_keeps_order(longest_first(front), tags.last());
        assert forall|text: Seq<char>| longest_first(tags).contains(text) <==> tags.contains(
            text,
        ) by {
            if tags.contains(text) {
                let k = choose|k: int| 0 <= k < tags.len() && tags[k] == text;
                if k < front.len() {
                    assert(front[k] == text);
                }
            }
            if front.contains(text) {
                let k = choose|k: int| 0 <= k < front.len() && front[k] == text;
                assert(tags[k] == text);
            }
            assert(tags[tags.len() - 1] == tags.last());
        }
    }
}

/// Each text of `tags`, escaped.
pub open spec fn escaped_all(tags: Seq<Seq<char>>) -> Seq<Seq<char>> {
    Seq::new(tags.len(), |i: int| regex_escaped(tags[i]))
}

/// The regular expression that matches any one of `tags` literally, and of
/// two tags that could match at one place the longer.
pub open spec fn pattern_of(tags: Seq<Seq<char>>) -> Seq<char> {
    seq!['('] + joined(escaped_all(longest_first(tags)), seq!['|']) + seq![')']
}

/// Whether each text of `styled` is the corresponding text of `marked`,
/// emphasised.
pub open spec fn emphasises(styled: Seq<Seq<char>>, marked: Seq<Seq<char>>, tint: Tint) -> bool {
    &&& styled.len() == marked.len()
    &&& forall|i: int| 0 <= i < marked.len() ==> is_emphasis_of(#[trigger] styled[i], marked[i], tint)
}

/// Whether `out` is `text` with the stretches that `spans` cut out of it
/// emphasised, and everything else as it was.
pub open spec fn is_highlight(out: Seq<char>, text: Seq<char>, spans: Seq<(usize, usize)>) -> bool {
    exists|styled: Seq<Seq<char>>|
        emphasises(styled, pieces_of(text, spans).marked, Tint::Yellow) && out == rendered(
            pieces_of(text, spans).plain,
            styled,
            pieces_of(text, spans).rest,
        )
}

/// Whether `out` is `text` with every occurrence of its tags emphasised. A
/// text without tags comes out as it is, and so does one whose tags make no
/// pattern that can be compiled.
pub open spec fn is_highlight_of(out: Seq<char>, text: Seq<char>) -> bool {
    let tags = tags_in(text, true);
    if tags.len() == 0 {
        out == text
    } else {
        match regex_spans(pattern_of(tags), text) {
            Some(spans) => is_highlight(out, text, spans),
            None => out == text,
        }
    }
}

/// `text` cut in two after `at` bytes of its UTF-8 form, if a character
/// begins there or the text ends there.
pub open spec fn cut_at(text: Seq<char>, at: int) -> Option<(Seq<char>, Seq<char>)> {
    let bytes = encode_utf8(text);
    if is_char_boundary(bytes, at) {
        Some((decode_utf8(bytes.subrange(0, at)), decode_utf8(bytes.subrange(at, bytes.len() as int))))
    } else {
        None
    }
}

/// The two parts of a cut make up the text, and the first has the length in
/// bytes at which the text was cut.
pub proof fn lemma_cut_at(text: Seq<char>, at: int)
    requires
        cut_at(text, at) is Some,
    ensures
        cut_at(text, at)->Some_0.0 + cut_at(text, at)->Some_0.1 == text,
        encode_utf8(cut_at(text, at)->Some_0.0) == encode_utf8(text).subrange(0, at),
        encode_utf8(cut_at(text, at)->Some_0.1) == encode_utf8(text).subrange(
            at,
            encode_utf8(text).len() as int,
        ),
{
    let bytes = encode_utf8(text);
    vstd::utf8::encode_utf8_valid_utf8(text);
    vstd::utf8::encode_utf8_decode_utf8(text);
    vstd::utf8::decode_utf8_split(bytes, at);
    vstd::utf8::valid_utf8_split(bytes, at);
    vstd::utf8::decode_utf8_encode_utf8(bytes.subrange(0, at));
    vstd::utf8::decode_utf8_encode_utf8(bytes.subrange(at, bytes.len() as int));
}

/// Cuts `text` in two after `at` bytes, unless that would split a character
/// or lies beyond the text.
pub fn cut(text: &str, at: usize) -> (parts: Option<(&str, &str)>)
    ensures
        match parts {
            Some((head, tail)) => cut_at(text@, at as int) == Some((head@, tail@)),
            None => cut_at(text@, at as int) is None,
        },
{
    if text.is_char_boundary(at) {
        let (head, tail) = text.split_at(at);
        proof {
            vstd::utf8::encode_utf8_decode_utf8(head@);
            vstd::utf8::encode_utf8_decode_utf8(tail@);
        }
        Some((head, tail))
    } else {
        None
    }
}

/// A text cut along spans: stretches of plain text, each followed by a
/// marked stretch, and the plain text that is left after the last of them.
pub struct Pieces {
    pub plain: Seq<Seq<char>>,
    pub marked: Seq<Seq<char>>,
    pub rest: Seq<char>,
}

impl Pieces {
    /// These pieces, preceded by the given ones.
    pub open spec fn after(self, plain: Seq<Seq<char>>, marked: Seq<Seq<char>>) -> Pieces {
        Pieces { plain: plain + self.plain, marked: marked + self.marked, rest: self.rest }
    }
}

/// What the span from byte `start` to byte `end` cuts out of `rest`, the
/// part of a text that begins at byte `consumed`: the text before the span,
/// the text that it covers and the text after it. There is none where the
/// span begins before `consumed`, ends before it begins, splits a character
/// or reaches beyond the text.
pub open spec fn span_cut(rest: Seq<char>, consumed: int, start: int, end: int) -> Option<
    (Seq<char>, Seq<char>, Seq<char>),
> {
    if consumed <= start <= end {
        match cut_at(rest, start - consumed) {
            Some((plain, tail)) => match cut_at(tail, end - start) {
                Some((marked, after)) => Some((plain, marked, after)),
                None => None,
            },
            None => None,
        }
    } else {
        None
    }
}

/// The pieces into which `spans`, taken in turn, cut `rest`, the part of a
/// text that begins at byte `consumed`. A span that cuts nothing out of
/// what is left is passed over.
pub open spec fn pieces_from(rest: Seq<char>, consumed: int, spans: Seq<(usize, usize)>) -> Pieces
    decreases spans.len(),
{
    if spans.len() == 0 {
        Pieces { plain: Seq::empty(), marked: Seq::empty(), rest }
    } else {
        match span_cut(rest, consumed, spans[0].0 as int, spans[0].1 as int) {
            Some((plain, marked, after)) => pieces_from(
                after,
                spans[0].1 as int,
                spans.skip(1),
            ).after(seq![plain], seq![marked]),
            None => pieces_from(rest, consumed, spans.skip(1)),
        }
    }
}

/// The pieces into which `spans` cut a whole text.
pub open spec fn pieces_of(text: Seq<char>, spans: Seq<(usize, usize)>) -> Pieces {
    pieces_from(text, 0, spans)
}

/// The text that the pieces make up when each marked stretch is replaced by
/// the corresponding text of `styled`.
pub open spec fn rendered(
    plain: Seq<Seq<char>>,
    styled: Seq<Seq<char>>,
    rest: Seq<char>,
) -> Seq<char>
    decreases plain.len(),
{
    if plain.len() == 0 || styled.len() == 0 {
        rest
    } else {
        plain[0] + styled[0] + rendered(plain.skip(1), styled.skip(1), rest)
    }
}

/// Pieces hold as many plain stretches as marked ones, and put together
/// unchanged they make up the text that was cut.
pub proof fn law_pieces_make_text(rest: Seq<char>, consumed: int, spans: Seq<(usize, usize)>)
    ensures
        pieces_from(rest, consumed, spans).plain.len() == pieces_from(
            rest,
            consumed,
            spans,
        ).marked.len(),
        rendered(
            pieces_from(rest, consumed, spans).plain,
            pieces_from(rest, consumed, spans).marked,
            pieces_from(rest, consumed, spans).rest,
        ) == rest,
    decreases spans.len(),
{
    if spans.len() > 0 {
        match span_cut(rest, consumed, spans[0].0 as int, spans[0].1 as int) {
            Some((plain, marked, after)) => {
                let more = pieces_from(after, spans[0].1 as int, spans.skip(1));
                law_pieces_make_text(after, spans[0].1 as int, spans.skip(1));
                let all = more.after(seq![plain], seq![marked]);
                assert(all.plain.skip(1) == more.plain);
                assert(all.marked.skip(1) == more.marked);
                let tail = cut_at(rest, spans[0].0 - consumed)->Some_0.1;
                lemma_cut_at(rest, spans[0].0 - consumed);
                lemma_cut_at(tail, spans[0].1 - spans[0].0);
                assert(plain + marked + after == rest);
            },
            None => {
                law_pieces_make_text(rest, consumed, spans.skip(1));
            },
        }
    }
}

/// Text that comes out as it went in is a highlight of itself: on a
/// terminal that takes no colours nothing is changed.
pub proof fn law_unchanged_is_highlight(text: Seq<char>, spans: Seq<(usize, usize)>)
    ensures
        is_highlight(text, text, spans),
{
    law_pieces_make_text(text, 0, spans);
    let pieces = pieces_of(text, spans);
    assert(emphasises(pieces.marked, pieces.marked, Tint::Yellow));
}

/// Whether `marker` stands in `text` at the position `at`.
pub open spec fn begins(text: Seq<char>, at: int, marker: Seq<char>) -> bool {
    &&& 0 <= at
    &&& at + marker.len() <= text.len()
    &&& text.subrange(at, at + marker.len()) == marker
}

/// Whether one of the two sequences that switch the emphasis of tags on and
/// off stands in `text` at the position `at`.
pub open spec fn marker_at(text: Seq<char>, at: int) -> bool {
    begins(text, at, bold_on(Tint::Yellow)) || begins(text, at, emphasis_off())
}

/// Whether `text` holds neither of the two sequences anywhere.
pub open spec fn unmarked(text: Seq<char>) -> bool {
    forall|at: int| !marker_at(text, at)
}

/// `text` without the sequences that switch the emphasis of tags on and
/// off, each taken out where it is met on the way from left to right.
pub open spec fn without_markers(text: Seq<char>) -> Seq<char>
    decreases text.len(),
{
    if text.len() == 0 {
        Seq::empty()
    } else if begins(text, 0, bold_on(Tint::Yellow)) {
        without_markers(text.skip(bold_on(Tint::Yellow).len() as int))
    } else if begins(text, 0, emphasis_off()) {
        without_markers(text.skip(emphasis_off().len() as int))
    } else {
        seq![text[0]] + without_markers(text.skip(1))
    }
}

/// What the two markers look like: both begin with the escape character
/// and hold no other, and they differ in their third character.
proof fn lemma_marker_shape()
    ensures
        bold_on(Tint::Yellow).len() == 7,
        emphasis_off().len() == 4,
        bold_on(Tint::Yellow)[0] == escape_char(),
        emphasis_off()[0] == escape_char(),
        bold_on(Tint::Yellow)[2] != emphasis_off()[2],
        forall|k: int| 1 <= k < 7 ==> (#[trigger] bold_on(Tint::Yellow)[k]) != escape_char(),
        forall|k: int| 1 <= k < 4 ==> (#[trigger] emphasis_off()[k]) != escape_char(),
{
    let on = bold_on(Tint::Yellow);
    assert(on =~= seq![escape_char(), '[', '1', ';', '3', '3', 'm']);
}

/// A marker stands in the rest of a text where it stands in the text, one
/// place on.
proof fn lemma_marker_moves(text: Seq<char>, skipped: int, at: int)
    requires
        0 <= skipped <= text.len(),
        0 <= at,
    ensures
        marker_at(text.skip(skipped), at) == marker_at(text, skipped + at),
{
    let rest = text.skip(skipped);
    let on = bold_on(Tint::Yellow);
    let off = emphasis_off();
    if at + on.len() <= rest.len() {
        assert(rest.subrange(at, at + on.len()) == text.subrange(
            skipped + at,
            skipped + at + on.len(),
        ));
    }
    if at + off.len() <= rest.len() {
        assert(rest.subrange(at, at + off.len()) == text.subrange(
            skipped + at,
            skipped + at + off.len(),
        ));
    }
}

/// A stretch of text in which no marker begins comes first out of
/// `without_markers` as it is.
pub proof fn lemma_unmarked_prefix(plain: Seq<char>, rest: Seq<char>)
    requires
        forall|at: int| 0 <= at < plain.len() ==> !#[trigger] marker_at(plain + rest, at),
    ensures
        without_markers(plain + rest) == plain + without_markers(rest),
    decreases plain.len(),
{
    if plain.len() == 0 {
        assert(plain + rest == rest);
        assert(plain + without_markers(rest) == without_markers(rest));
    } else {
        let whole = plain + rest;
        let tail = plain.skip(1);
        assert(!marker_at(whole, 0));
        assert(whole.skip(1) == tail + rest);
        assert forall|at: int| 0 <= at < tail.len() implies !#[trigger] marker_at(
            tail + rest,
            at,
        ) by {
            lemma_marker_moves(whole, 1, at);
            assert(!marker_at(whole, 1 + at));
        }
        lemma_unmarked_prefix(tail, rest);
        assert(seq![whole[0]] + (tail + without_markers(rest)) == plain + without_markers(rest));
    }
}

/// No marker begins in text that holds none and is followed by nothing or
/// by an escape character: a marker cannot reach across that character.
proof fn lemma_no_marker_across(text: Seq<char>, next: Seq<char>)
    requires
        unmarked(text),
        next.len() == 0 || next[0] == escape_char(),
    ensures
        forall|at: int| 0 <= at < text.len() ==> !#[trigger] marker_at(text + next, at),
{
    lemma_marker_shape();
    let whole = text + next;
    let on = bold_on(Tint::Yellow);
    let off = emphasis_off();
    assert forall|at: int| 0 <= at < text.len() implies !#[trigger] marker_at(whole, at) by {
        assert(!marker_at(text, at));
        if begins(whole, at, on) {
            if at + on.len() <= text.len() {
                assert(whole.subrange(at, at + on.len()) == text.subrange(at, at + on.len()));
            } else {
                let k = text.len() - at;
                assert(whole.subrange(at, at + on.len())[k] == whole[text.len() as int]);
                assert(on[k] != escape_char());
            }
        }
        if begins(whole, at, off) {
            if at + off.len() <= text.len() {
                assert(whole.subrange(at, at + off.len()) == text.subrange(at, at + off.len()));
            } else {
                let k = text.len() - at;
                assert(whole.subrange(at, at + off.len())[k] == whole[text.len() as int]);
                assert(off[k] != escape_char());
            }
        }
    }
}

/// The parts of a text that holds no marker hold none.
proof fn lemma_part_unmarked(head: Seq<char>, part: Seq<char>, tail: Seq<char>)
    requires
        unmarked(head + part + tail),
    ensures
        unmarked(part),
{
    let whole = head + part + tail;
    let on = bold_on(Tint::Yellow);
    let off = emphasis_off();
    assert forall|at: int| !marker_at(part, at) by {
        assert(!marker_at(whole, head.len() + at));
        if 0 <= at && at + on.len() <= part.len() {
            assert(part.subrange(at, at + on.len()) == whole.subrange(
                head.len() + at,
                head.len() + at + on.len(),
            ));
        }
        if 0 <= at && at + off.len() <= part.len() {
            assert(part.subrange(at, at + off.len()) == whole.subrange(
                head.len() + at,
                head.len() + at + off.len(),
            ));
        }
    }
}

/// Text that holds no marker is not changed by `restyled`.
proof fn lemma_restyled_unmarked(text: Seq<char>, style: Seq<char>)
    requires
        unmarked(text),
    ensures
        crate::style::restyled(text, style) == text,
    decreases text.len(),
{
    if text.len() > 0 {
        let off = emphasis_off();
        assert(!marker_at(text, 0));
        if off.is_prefix_of(text) {
            assert(text.subrange(0, off.len() as int) == off);
        }
        let rest = text.skip(1);
        assert(seq![text[0]] + rest == text);
        assert(Seq::<char>::empty() + seq![text[0]] + rest == text);
        lemma_part_unmarked(seq![text[0]], rest, Seq::empty());
        assert(seq![text[0]] + rest + Seq::<char>::empty() == text);
        lemma_restyled_unmarked(rest, style);
    }
}

/// The marker that switches the emphasis on is taken out.
proof fn lemma_marker_on_removed(rest: Seq<char>)
    ensures
        without_markers(bold_on(Tint::Yellow) + rest) == without_markers(rest),
{
    lemma_marker_shape();
    let on = bold_on(Tint::Yellow);
    let whole = on + rest;
    assert(whole.subrange(0, on.len() as int) == on);
    assert(begins(whole, 0, on));
    assert(whole.skip(on.len() as int) == rest);
}

/// The marker that switches the emphasis off is taken out.
proof fn lemma_marker_off_removed(rest: Seq<char>)
    ensures
        without_markers(emphasis_off() + rest) == without_markers(rest),
{
    lemma_marker_shape();
    let on = bold_on(Tint::Yellow);
    let off = emphasis_off();
    let whole = off + rest;
    assert(whole[2] == off[2]);
    if begins(whole, 0, on) {
        assert(whole.subrange(0, on.len() as int)[2] == whole[2]);
    }
    assert(whole.subrange(0, off.len() as int) == off);
    assert(begins(whole, 0, off));
    assert(whole.skip(off.len() as int) == rest);
}

/// Pieces of a text that holds no marker, put together with their marked
/// stretches emphasised and set behind text that came before them, give
/// the text back once the markers are taken out.
proof fn lemma_markers_of_pieces(
    before: Seq<char>,
    plain: Seq<Seq<char>>,
    marked: Seq<Seq<char>>,
    styled: Seq<Seq<char>>,
    rest: Seq<char>,
)
    requires
        plain.len() == marked.len(),
        emphasises(styled, marked, Tint::Yellow),
        unmarked(before + rendered(plain, marked, rest)),
    ensures
        without_markers(before + rendered(plain, styled, rest)) == before + rendered(
            plain,
            marked,
            rest,
        ),
    decreases plain.len(),
{
    lemma_marker_shape();
    let on = bold_on(Tint::Yellow);
    let off = emphasis_off();
    let text = before + rendered(plain, marked, rest);
    if plain.len() == 0 {
        lemma_no_marker_across(text, Seq::empty());
        assert(text + Seq::<char>::empty() == text);
        lemma_unmarked_prefix(text, Seq::empty());
    } else {
        let text_tail = rendered(plain.skip(1), marked.skip(1), rest);
        let out_tail = rendered(plain.skip(1), styled.skip(1), rest);
        assert(emphasises(styled.skip(1), marked.skip(1), Tint::Yellow)) by {
            assert forall|i: int| 0 <= i < marked.skip(1).len() implies is_emphasis_of(
                #[trigger] styled.skip(1)[i],
                marked.skip(1)[i],
                Tint::Yellow,
            ) by {
                assert(styled.skip(1)[i] == styled[i + 1]);
                assert(marked.skip(1)[i] == marked[i + 1]);
            }
        }
        assert(is_emphasis_of(styled[0], marked[0], Tint::Yellow));
        let head = before + plain[0];
        assert(text == head + marked[0] + text_tail);
        if styled[0] == marked[0] {
            let carried = head + marked[0];
            assert(carried + text_tail == text);
            lemma_markers_of_pieces(carried, plain.skip(1), marked.skip(1), styled.skip(1), rest);
            assert(before + rendered(plain, styled, rest) == carried + out_tail);
        } else {
            lemma_part_unmarked(head, marked[0], text_tail);
            lemma_restyled_unmarked(marked[0], on);
            assert(styled[0] == on + marked[0] + off);
            let closing = off + out_tail;
            let inner = marked[0] + closing;
            let opened = on + inner;
            assert(before + rendered(plain, styled, rest) == head + opened);
            assert(unmarked(head)) by {
                assert(Seq::<char>::empty() + head + (marked[0] + text_tail) == text);
                lemma_part_unmarked(Seq::empty(), head, marked[0] + text_tail);
            }
            lemma_no_marker_across(head, opened);
            lemma_unmarked_prefix(head, opened);
            lemma_marker_on_removed(inner);
            lemma_no_marker_across(marked[0], closing);
            lemma_unmarked_prefix(marked[0], closing);
            lemma_marker_off_removed(out_tail);
            assert(unmarked(text_tail)) by {
                assert((head + marked[0]) + text_tail + Seq::<char>::empty() == text);
                lemma_part_unmarked(head + marked[0], text_tail, Seq::empty());
            }
            assert(Seq::<char>::empty() + text_tail == text_tail);
            lemma_markers_of_pieces(
                Seq::empty(),
                plain.skip(1),
                marked.skip(1),
                styled.skip(1),
                rest,
            );
            assert(Seq::<char>::empty() + out_tail == out_tail);
            assert(head + (marked[0] + text_tail) == text);
        }
    }
}

/// Taking the markers out of a highlighted text gives the text back: no
/// character of the text is added, dropped or changed. This holds of every
/// text that does not itself hold one of the markers, which would be taken
/// out with the others.
pub proof fn law_markers_removed(out: Seq<char>, text: Seq<char>, spans: Seq<(usize, usize)>)
    requires
        is_highlight(out, text, spans),
        unmarked(text),
    ensures
        without_markers(out) == text,
{
    let pieces = pieces_of(text, spans);
    law_pieces_make_text(text, 0, spans);
    let styled = choose|styled: Seq<Seq<char>>|
        emphasises(styled, pieces.marked, Tint::Yellow) && out == rendered(
            pieces.plain,
            styled,
            pieces.rest,
        );
    assert(Seq::<char>::empty() + text == text);
    assert(Seq::<char>::empty() + out == out);
    lemma_markers_of_pieces(Seq::empty(), pieces.plain, pieces.marked, styled, pieces.rest);
}

/// The same of the text that `highlight` gives.
pub proof fn law_highlight_keeps_text(out: Seq<char>, text: Seq<char>)
    requires
        is_highlight_of(out, text),
        unmarked(text),
    ensures
        without_markers(out) == text,
{
    let tags = tags_in(text, true);
    if tags.len() != 0 && regex_spans(pattern_of(tags), text) is Some {
        law_markers_removed(out, text, regex_spans(pattern_of(tags), text)->Some_0);
    } else {
        lemma_no_marker_across(text, Seq::empty());
        assert(text + Seq::<char>::empty() == text);
        lemma_unmarked_prefix(text, Seq::empty());
    }
}

/// Cuts `text` along `spans`; gives the plain stretches, the marked
/// stretches and the rest.
pub fn cut_spans(text: &str, spans: &Vec<(usize, usize)>) -> (pieces: (
    Vec<String>,
    Vec<String>,
    String,
))
    ensures
        pieces_of(text@, spans@) == (Pieces {
            plain: pieces.0.deep_view(),
            marked: pieces.1.deep_view(),
            rest: pieces.2@,
        }),
{
    let mut plain: Vec<String> = Vec::new();
    let mut marked: Vec<String> = Vec::new();
    let mut rest: &str = text;
    let mut consumed: usize = 0;
    let mut i: usize = 0;
    proof {
        assert(spans@.skip(0) == spans@);
        let all = pieces_from(rest@, 0, spans@);
        assert(plain.deep_view() + all.plain == all.plain);
        assert(marked.deep_view() + all.marked == all.marked);
    }
    while i < spans.len()
        invariant
            i <= spans.len(),
            pieces_of(text@, spans@) == pieces_from(rest@, consumed as int, spans@.skip(i as int)).after(
                plain.deep_view(),
                marked.deep_view(),
            ),
        decreases spans.len() - i,
    {
        let start: usize = spans[i].0;
        let end: usize = spans[i].1;
        let ghost left = spans@.skip(i as int);
        let ghost next = spans@.skip(i + 1);
        assert(left[0] == spans@[i as int]);
        assert(left.skip(1) == next);
        if consumed <= start && start <= end {
            match cut(rest, start - consumed) {
                Some((before, tail)) => {
                    match cut(tail, end - start) {
                        Some((inside, after)) => {
                            let ghost plain_before = plain.deep_view();
                            let ghost marked_before = marked.deep_view();
                            plain.push(before.to_owned());
                            marked.push(inside.to_owned());
                            proof {
                                let more = pieces_from(after@, end as int, next);
                                assert(plain.deep_view() == plain_before.push(before@));
                                assert(marked.deep_view() == marked_before.push(inside@));
                                assert(plain_before + (seq![before@] + more.plain)
                                    == plain_before.push(before@) + more.plain);
                                assert(marked_before + (seq![inside@] + more.marked)
                                    == marked_before.push(inside@) + more.marked);
                            }
                            rest = after;
                            consumed = end;
                        },
                        None => {},
                    }
                },
                None => {},
            }
        }
        i = i + 1;
    }
    proof {
        assert(spans@.skip(spans.len() as int) == Seq::<(usize, usize)>::empty());
        assert(plain.deep_view() + Seq::<Seq<char>>::empty() == plain.deep_view());
        assert(marked.deep_view() + Seq::<Seq<char>>::empty() == marked.deep_view());
    }
    (plain, marked, rest.to_owned())
}

/// Puts pieces together, with `styled` in place of the marked stretches.
/// Where there are more plain stretches than styled ones, or fewer, those
/// without a partner are left out.
pub fn assemble(plain: &Vec<String>, styled: &Vec<String>, rest: &str) -> (out: String)
    ensures
        out@ == rendered(plain.deep_view(), styled.deep_view(), rest@),
{
    let mut out = String::new();
    let mut i: usize = 0;
    proof {
        assert(plain.deep_view().skip(0) == plain.deep_view());
        assert(styled.deep_view().skip(0) == styled.deep_view());
        assert(out@ + rendered(plain.deep_view(), styled.deep_view(), rest@) == rendered(
            plain.deep_view(),
            styled.deep_view(),
            rest@,
        ));
    }
    while i < plain.len() && i < styled.len()
        invariant
            i <= plain.len(),
            i <= styled.len(),
            out@ + rendered(
                plain.deep_view().skip(i as int),
                styled.deep_view().skip(i as int),
                rest@,
            ) == rendered(plain.deep_view(), styled.deep_view(), rest@),
        decreases plain.len() - i,
    {
        proof {
            let p = plain.deep_view().skip(i as int);
            let s = styled.deep_view().skip(i as int);
            assert(p.skip(1) == plain.deep_view().skip(i + 1));
            assert(s.skip(1) == styled.deep_view().skip(i + 1));
            assert(p[0] == plain[i as int]@);
            assert(s[0] == styled[i as int]@);
            let more = rendered(p.skip(1), s.skip(1), rest@);
            assert(out@ + (p[0] + s[0] + more) == out@ + p[0] + s[0] + more);
        }
        out.append(plain[i].as_str());
        out.append(styled[i].as_str());
        i = i + 1;
    }
    proof {
        let p = plain.deep_view().skip(i as int);
        let s = styled.deep_view().skip(i as int);
        assert(p.len() == 0 || s.len() == 0);
    }
    out.append(rest);
    out
}

/// The tags from the longest to the shortest.
pub fn sort_longest_first(tags: &Vec<String>) -> (sorted: Vec<String>)
    ensures
        sorted.deep_view() == longest_first(tags.deep_view()),
{
    let mut sorted: Vec<String> = Vec::new();
    let mut i: usize = 0;
    assert(tags.deep_view().take(0) == Seq::<Seq<char>>::empty());
    assert(sorted.deep_view() == Seq::<Seq<char>>::empty());
    while i < tags.len()
        invariant
            i <= tags.len(),
            sorted.deep_view() == longest_first(tags.deep_view().take(i as int)),
        decreases tags.len() - i,
    {
        let tag: String = tags[i].clone();
        let len: usize = tag.as_str().unicode_len();
        let mut pos: usize = 0;
        while pos < sorted.len() && sorted[pos].as_str().unicode_len() >= len
            invariant
                pos <= sorted.len(),
                len == tag@.len(),
                forall|k: int| 0 <= k < pos ==> (#[trigger] sorted.deep_view()[k]).len() >= len,
            decreases sorted.len() - pos,
        {
            pos = pos + 1;
        }
        proof {
            let upto = tags.deep_view().take(i + 1);
            assert(upto.drop_last() == tags.deep_view().take(i as int));
            assert(upto.last() == tag@);
            lemma_place_by_length(sorted.deep_view(), tag@, pos as int);
        }
        let ghost before = sorted.deep_view();
        sorted.insert(pos, tag);
        assert(sorted.deep_view() == before.insert(pos as int, tag@));
        i = i + 1;
    }
    assert(tags.deep_view().take(tags.len() as int) == tags.deep_view());
    sorted
}

/// The regular expression that matches the tags: see `pattern_of`.
pub fn build_pattern(tags: &Vec<String>) -> (pattern: String)
    ensures
        pattern@ == pattern_of(tags.deep_view()),
{
    let sorted = sort_longest_first(tags);
    let mut escaped: Vec<String> = Vec::new();
    let mut i: usize = 0;
    while i < sorted.len()
        invariant
            i <= sorted.len(),
            escaped.len() == i,
            forall|k: int|
                0 <= k < i ==> (#[trigger] escaped.deep_view()[k]) == regex_escaped(
                    sorted.deep_view()[k],
                ),
        decreases sorted.len() - i,
    {
        let ghost before = escaped.deep_view();
        let one = escape(sorted[i].as_str());
        escaped.push(one);
        assert(escaped.deep_view() == before.push(one@));
        i = i + 1;
    }
    assert(escaped.deep_view() == escaped_all(sorted.deep_view()));
    let mut pattern = "(".to_owned();
    pattern.append(join(&escaped, "|").as_str());
    pattern.append(")");
    proof {
        reveal_strlit("(");
        reveal_strlit("|");
        reveal_strlit(")");
        assert("("@ == seq!['(']);
        assert("|"@ == seq!['|']);
        assert(")"@ == seq![')']);
    }
    pattern
}

/// Each marked stretch, emphasised.
fn emphasize_all(marked: &Vec<String>, tint: Tint) -> (styled: Vec<String>)
    ensures
        emphasises(styled.deep_view(), marked.deep_view(), tint),
{
    let mut styled: Vec<String> = Vec::new();
    let mut i: usize = 0;
    while i < marked.len()
        invariant
            i <= marked.len(),
            styled.len() == i,
            forall|k: int|
                0 <= k < i ==> is_emphasis_of(
                    #[trigger] styled.deep_view()[k],
                    marked.deep_view()[k],
                    tint,
                ),
        decreases marked.len() - i,
    {
        let ghost before = styled.deep_view();
        let one = emphasize(marked[i].as_str(), tint);
        styled.push(one);
        assert(styled.deep_view() == before.push(one@));
        i = i + 1;
    }
    styled
}

/// `text` with the stretches that `spans` cut out of it emphasised. Each
/// span gives the byte offsets at which a stretch begins and ends.
pub fn highlight_spans(text: &str, spans: &Vec<(usize, usize)>) -> (out: String)
    ensures
        is_highlight(out@, text@, spans@),
{
    let (plain, marked, rest) = cut_spans(text, spans);
    proof {
        law_pieces_make_text(text@, 0, spans@);
    }
    let styled = emphasize_all(&marked, Tint::Yellow);
    assemble(&plain, &styled, rest.as_str())
}

/// `text` with every occurrence of one of its tags emphasised: see
/// `is_highlight_of`.
pub fn highlight(text: &str) -> (out: String)
    ensures
        is_highlight_of(out@, text@),
{
    let tags = text.extract_tags(Some(true));
    if tags.len() == 0 {
        return text.to_owned();
    }
    let pattern = build_pattern(&tags);
    match find_spans(pattern.as_str(), text) {
        Some(spans) => highlight_spans(text, &spans),
        None => text.to_owned(),
    }
}

} // verus!
