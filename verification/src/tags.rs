//! Hashtag-style tags in free text: a tag is a whitespace-delimited word that
//! begins with `#`.

use crate::highlight::{highlight, is_highlight_of};
use crate::utils::remove_first;
use vstd::prelude::*;

verus! {

/// Whether `c` is whitespace: one of the characters to which Unicode gives
/// the property `White_Space`.
pub open spec fn is_whitespace(c: char) -> bool {
    ||| '\u{9}' <= c <= '\u{d}'
    ||| c == ' '
    ||| c == '\u{85}'
    ||| c == '\u{a0}'
    ||| c == '\u{1680}'
    ||| '\u{2000}' <= c <= '\u{200a}'
    ||| c == '\u{2028}'
    ||| c == '\u{2029}'
    ||| c == '\u{202f}'
    ||| c == '\u{205f}'
    ||| c == '\u{3000}'
}

/// The lowercase form of `text`, as `str::to_lowercase` gives it.
pub uninterp spec fn lowercase(text: Seq<char>) -> Seq<char>;

/// Calls `char::is_whitespace` of the standard library, which tests the
/// Unicode property `White_Space`. The contract names the characters that
/// have it: tab to carriage return, the space, the next-line character, the
/// no-break spaces, the Ogham space mark, the spaces of fixed width, the two
/// separators of lines and paragraphs, the medium mathematical space and the
/// ideographic space.
#[verifier::external_body]
fn char_is_whitespace(c: char) -> (white: bool)
    ensures
        white == is_whitespace(c),
{
    c.is_whitespace()
}

/// Calls `str::to_lowercase` of the standard library, the Unicode lowercase
/// mapping of a whole string. Nothing is claimed of the mapping itself: the
/// result is only given the name `lowercase`.
#[verifier::external_body]
fn to_lowercase(text: &str) -> (lowered: String)
    ensures
        lowered@ == lowercase(text@),
{
    text.to_lowercase()
}

/// Length of the longest prefix of `s` that holds no whitespace.
pub open spec fn word_len(s: Seq<char>) -> nat
    decreases s.len(),
{
    if s.len() == 0 || is_whitespace(s[0]) {
        0
    } else {
        1 + word_len(s.skip(1))
    }
}

/// The prefix measured by `word_len` lies within the text.
pub proof fn lemma_word_len_bound(s: Seq<char>)
    ensures
        word_len(s) <= s.len(),
    decreases s.len(),
{
    if s.len() != 0 && !is_whitespace(s[0]) {
        lemma_word_len_bound(s.skip(1));
    }
}

/// The words of `s`: its maximal runs of characters that are not whitespace,
/// from left to right.
pub open spec fn words(s: Seq<char>) -> Seq<Seq<char>>
    decreases s.len(),
{
    if s.len() == 0 {
        Seq::empty()
    } else if is_whitespace(s[0]) {
        words(s.skip(1))
    } else {
        proof {
            lemma_word_len_bound(s);
        }
        seq![s.take(word_len(s) as int)] + words(s.skip(word_len(s) as int))
    }
}

/// The prefix measured by `word_len` holds no whitespace.
pub proof fn lemma_word_len_prefix(s: Seq<char>, i: int)
    requires
        0 <= i < word_len(s),
    ensures
        i < s.len(),
        !is_whitespace(s[i]),
    decreases s.len(),
{
    lemma_word_len_bound(s);
    if i > 0 {
        lemma_word_len_prefix(s.skip(1), i - 1);
    }
}

/// No word is empty, and no word holds whitespace.
pub proof fn law_words(s: Seq<char>, k: int)
    requires
        0 <= k < words(s).len(),
    ensures
        words(s)[k].len() > 0,
        forall|i: int| 0 <= i < words(s)[k].len() ==> !is_whitespace(#[trigger] words(s)[k][i]),
    decreases s.len(),
{
    if is_whitespace(s[0]) {
        law_words(s.skip(1), k);
    } else {
        let len = word_len(s) as int;
        lemma_word_len_bound(s);
        if k == 0 {
            let word = s.take(len);
            assert(words(s)[0] == word);
            assert forall|i: int| 0 <= i < word.len() implies !is_whitespace(
                #[trigger] word[i],
            ) by {
                lemma_word_len_prefix(s, i);
            }
        } else {
            assert(words(s)[k] == words(s.skip(len))[k - 1]);
            law_words(s.skip(len), k - 1);
        }
    }
}

/// A word is a tag when it begins with the marker `#`.
pub open spec fn is_tag_word(word: Seq<char>) -> bool {
    word.len() > 0 && word[0] == '#'
}

/// The tag that a tag word stands for: the word itself when `exact`,
/// else the word without its marker, in lowercase.
pub open spec fn tag_of(word: Seq<char>, exact: bool) -> Seq<char> {
    if exact {
        word
    } else {
        lowercase(word.skip(1))
    }
}

/// `found`, followed by the tags of `words` that are not yet present, each
/// once, in the order in which they first appear.
pub open spec fn add_tags(found: Seq<Seq<char>>, words: Seq<Seq<char>>, exact: bool) -> Seq<
    Seq<char>,
>
    decreases words.len(),
{
    if words.len() == 0 {
        found
    } else {
        let earlier = add_tags(found, words.drop_last(), exact);
        let tag = tag_of(words.last(), exact);
        if is_tag_word(words.last()) && !earlier.contains(tag) {
            earlier.push(tag)
        } else {
            earlier
        }
    }
}

/// The distinct tags of `text`, in the order in which they first appear.
pub open spec fn tags_in(text: Seq<char>, exact: bool) -> Seq<Seq<char>> {
    add_tags(Seq::empty(), words(text), exact)
}

/// Adding tags to distinct tags leaves them distinct.
pub proof fn lemma_add_tags_distinct(found: Seq<Seq<char>>, words: Seq<Seq<char>>, exact: bool)
    requires
        found.no_duplicates(),
    ensures
        add_tags(found, words, exact).no_duplicates(),
    decreases words.len(),
{
    if words.len() > 0 {
        lemma_add_tags_distinct(found, words.drop_last(), exact);
    }
}

/// What `add_tags` holds: the tags that were found before, and the tag of
/// every tag word.
pub proof fn law_add_tags_holds(
    found: Seq<Seq<char>>,
    words: Seq<Seq<char>>,
    exact: bool,
    tag: Seq<char>,
)
    ensures
        add_tags(found, words, exact).contains(tag) <==> found.contains(tag) || exists|k: int|
            0 <= k < words.len() && is_tag_word(#[trigger] words[k]) && tag_of(words[k], exact)
                == tag,
    decreases words.len(),
{
    let all = add_tags(found, words, exact);
    if words.len() > 0 {
        let front = words.drop_last();
        let earlier = add_tags(found, front, exact);
        law_add_tags_holds(found, front, exact, tag);
        let last = words.len() - 1;
        if all.contains(tag) {
            let at = choose|at: int| 0 <= at < all.len() && all[at] == tag;
            if at < earlier.len() {
                assert(earlier[at] == tag);
                assert(earlier.contains(tag));
                if !found.contains(tag) {
                    let k = choose|k: int|
                        0 <= k < front.len() && is_tag_word(#[trigger] front[k]) && tag_of(
                            front[k],
                            exact,
                        ) == tag;
                    assert(words[k] == front[k]);
                }
            } else {
                assert(is_tag_word(words[last]) && tag_of(words[last], exact) == tag);
            }
        }
        if found.contains(tag) {
            let at = choose|at: int| 0 <= at < earlier.len() && earlier[at] == tag;
            assert(all[at] == tag);
        }
        if exists|k: int|
            0 <= k < words.len() && is_tag_word(#[trigger] words[k]) && tag_of(words[k], exact)
                == tag {
            let k = choose|k: int|
                0 <= k < words.len() && is_tag_word(#[trigger] words[k]) && tag_of(
                    words[k],
                    exact,
                ) == tag;
            if k < last {
                assert(front[k] == words[k]);
                assert(earlier.contains(tag));
                let at = choose|at: int| 0 <= at < earlier.len() && earlier[at] == tag;
                assert(all[at] == tag);
            } else if earlier.contains(tag) {
                let at = choose|at: int| 0 <= at < earlier.len() && earlier[at] == tag;
                assert(all[at] == tag);
            } else {
                assert(all[all.len() - 1] == tag);
            }
        }
    }
}

/// The tags of a text are distinct, and they are the tags of its tag words.
pub proof fn law_tags_in(text: Seq<char>, exact: bool)
    ensures
        tags_in(text, exact).no_duplicates(),
        forall|tag: Seq<char>| #[trigger]
            tags_in(text, exact).contains(tag) <==> exists|k: int|
                0 <= k < words(text).len() && is_tag_word(#[trigger] words(text)[k]) && tag_of(
                    words(text)[k],
                    exact,
                ) == tag,
{
    lemma_add_tags_distinct(Seq::empty(), words(text), exact);
    assert forall|tag: Seq<char>| #[trigger]
        tags_in(text, exact).contains(tag) <==> exists|k: int|
            0 <= k < words(text).len() && is_tag_word(#[trigger] words(text)[k]) && tag_of(
                words(text)[k],
                exact,
            ) == tag by {
        law_add_tags_holds(Seq::empty(), words(text), exact, tag);
    }
}

/// The characters of `text`, in order.
pub fn chars_of(text: &str) -> (chars: Vec<char>)
    ensures
        chars@ == text@,
{
    let mut chars: Vec<char> = Vec::new();
    for c in it: text.chars()
        invariant
            it.seq() == text@,
            chars@ == it.seq().take(it.index()),
    {
        chars.push(c);
    }
    chars
}

/// Splits `text` on whitespace.
pub fn split_words(text: &str) -> (out: Vec<String>)
    ensures
        out.deep_view() == words(text@),
{
    let chars = chars_of(text);
    let n: usize = chars.len();
    let mut out: Vec<String> = Vec::new();
    let mut i: usize = 0;
    assert(text@.skip(0) == text@);
    assert(out.deep_view() == Seq::<Seq<char>>::empty());
    while i < n
        invariant
            chars@ == text@,
            n == chars@.len(),
            i <= n,
            out.deep_view() + words(text@.skip(i as int)) == words(text@),
        decreases n - i,
    {
        let ghost rest = text@.skip(i as int);
        if char_is_whitespace(chars[i]) {
            assert(rest.skip(1) == text@.skip(i + 1));
            i = i + 1;
        } else {
            let start: usize = i;
            let mut j: usize = i + 1;
            assert(rest.skip(1) == text@.skip(j as int));
            while j < n && !char_is_whitespace(chars[j])
                invariant
                    chars@ == text@,
                    n == chars@.len(),
                    start < j <= n,
                    word_len(text@.skip(start as int)) == (j - start) + word_len(
                        text@.skip(j as int),
                    ),
                decreases n - j,
            {
                assert(text@.skip(j as int).skip(1) == text@.skip(j + 1));
                j = j + 1;
            }
            let word = text.substring_char(start, j).to_owned();
            proof {
                let len = (j - start) as int;
                assert(word_len(rest) == len);
                assert(rest.take(len) == text@.subrange(start as int, j as int));
                assert(rest.skip(len) == text@.skip(j as int));
                assert(out.deep_view().push(word@) + words(text@.skip(j as int)) == out.deep_view()
                    + words(rest));
            }
            let ghost before = out.deep_view();
            out.push(word);
            assert(out.deep_view() == before.push(word@));
            i = j;
        }
    }
    assert(text@.skip(n as int) == Seq::<char>::empty());
    assert(out.deep_view() + Seq::<Seq<char>>::empty() == out.deep_view());
    out
}

/// Whether `tag` is one of `tags`.
fn holds_tag(tags: &Vec<String>, tag: &String) -> (found: bool)
    ensures
        found == tags.deep_view().contains(tag@),
{
    let mut i: usize = 0;
    while i < tags.len()
        invariant
            i <= tags.len(),
            forall|k: int| 0 <= k < i ==> tags.deep_view()[k] != tag@,
        decreases tags.len() - i,
    {
        if tags[i] == *tag {
            assert(tags.deep_view()[i as int] == tag@);
            return true;
        }
        i = i + 1;
    }
    false
}

/// Appends to `found` the tags of `text` that it does not hold yet.
pub fn add_tags_of(found: &mut Vec<String>, text: &str, exact: bool)
    ensures
        final(found).deep_view() == add_tags(old(found).deep_view(), words(text@), exact),
{
    let all = split_words(text);
    let mut i: usize = 0;
    assert(all.deep_view().take(0) == Seq::<Seq<char>>::empty());
    while i < all.len()
        invariant
            i <= all.len(),
            all.deep_view() == words(text@),
            found.deep_view() == add_tags(
                old(found).deep_view(),
                all.deep_view().take(i as int),
                exact,
            ),
        decreases all.len() - i,
    {
        let word: &str = all[i].as_str();
        proof {
            let upto = all.deep_view().take(i + 1);
            assert(upto.drop_last() == all.deep_view().take(i as int));
            assert(upto.last() == word@);
        }
        if !word.is_empty() && word.get_char(0) == '#' {
            let tag = if exact {
                word.to_owned()
            } else {
                to_lowercase(remove_first(word))
            };
            if !holds_tag(found, &tag) {
                let ghost before = found.deep_view();
                found.push(tag);
                assert(found.deep_view() == before.push(tag@));
            }
        }
        i = i + 1;
    }
    assert(all.deep_view().take(all.len() as int) == all.deep_view());
}

/// Text that may hold tags.
pub trait Tags: Sized {
    /// The characters of the text.
    spec fn text(&self) -> Seq<char>;

    /// The distinct tags of the text, in the order in which they first
    /// appear. With `Some(true)` each tag is the word as written, marker
    /// included; otherwise the marker is dropped and the tag is lowercase.
    fn extract_tags(self, extract_exact: Option<bool>) -> (tags: Vec<String>)
        ensures
            tags.deep_view() == tags_in(self.text(), extract_exact == Some(true)),
            tags.deep_view().no_duplicates(),
    ;

    /// The text with every occurrence of one of its tags, as written,
    /// emphasised for the terminal, and everything else as it is.
    fn highlight_tags(self) -> (out: String)
        ensures
            is_highlight_of(out@, self.text()),
    ;
}

impl Tags for &str {
    open spec fn text(&self) -> Seq<char> {
        self@
    }

    fn extract_tags(self, extract_exact: Option<bool>) -> (tags: Vec<String>) {
        let exact = match extract_exact {
            Some(exact) => exact,
            None => false,
        };
        let mut tags: Vec<String> = Vec::new();
        assert(tags.deep_view() == Seq::<Seq<char>>::empty());
        add_tags_of(&mut tags, self, exact);
        proof {
            lemma_add_tags_distinct(Seq::empty(), words(self@), exact);
        }
        tags
    }

    fn highlight_tags(self) -> (out: String) {
        highlight(self)
    }
}

impl Tags for String {
    open spec fn text(&self) -> Seq<char> {
        self@
    }

    fn extract_tags(self, extract_exact: Option<bool>) -> (tags: Vec<String>) {
        self.as_str().extract_tags(extract_exact)
    }

    fn highlight_tags(self) -> (out: String) {
        highlight(self.as_str())
    }
}

} // verus!
