use tasklist::highlight::{build_pattern, cut, cut_spans, sort_longest_first, assemble};
use tasklist::tags::{add_tags_of, chars_of, split_words, Tags};

fn strings(items: &[&str]) -> Vec<String> {
    items.iter().map(|s| s.to_string()).collect()
}

#[test]
fn tags_are_case_folded_and_deduplicated() {
    assert_eq!("Buy #milk and #Milk".extract_tags(None), strings(&["milk"]));
    assert_eq!("Buy #milk and #Milk".extract_tags(Some(false)), strings(&["milk"]));
    assert_eq!(String::from("Buy #milk and #Milk").extract_tags(None), strings(&["milk"]));
}

#[test]
fn exact_tags_keep_marker_and_case() {
    assert_eq!("Buy #milk and #Milk".extract_tags(Some(true)), strings(&["#milk", "#Milk"]));
    assert_eq!("#a #b #a".extract_tags(Some(true)), strings(&["#a", "#b"]));
}

#[test]
fn tags_come_in_order_of_first_appearance() {
    assert_eq!("#b #A #c #a #B".extract_tags(None), strings(&["b", "a", "c"]));
}

#[test]
fn text_without_tags_has_none() {
    assert_eq!("".extract_tags(None), Vec::<String>::new());
    assert_eq!("no tags here".extract_tags(None), Vec::<String>::new());
    assert_eq!("no tags here".extract_tags(Some(true)), Vec::<String>::new());
}

#[test]
fn words_split_on_any_whitespace() {
    assert_eq!(split_words("  a\tb\n c  "), strings(&["a", "b", "c"]));
    assert_eq!(split_words("one"), strings(&["one"]));
    assert_eq!(split_words(""), Vec::<String>::new());
    assert_eq!(split_words(" \u{3000} "), Vec::<String>::new());
    assert_eq!(split_words("a\u{a0}b\u{2003}c"), strings(&["a", "b", "c"]));
    assert_eq!(split_words("h\u{e9}llo w\u{f6}rld"), strings(&["h\u{e9}llo", "w\u{f6}rld"]));
}

#[test]
fn characters_of_a_text() {
    assert_eq!(chars_of("h\u{e9}y"), vec!['h', '\u{e9}', 'y']);
    assert_eq!(chars_of(""), Vec::<char>::new());
}

#[test]
fn marker_must_come_first() {
    assert_eq!("a#b #c d# #".extract_tags(None), strings(&["c", ""]));
    assert_eq!("a#b #c d# #".extract_tags(Some(true)), strings(&["#c", "#"]));
}

#[test]
fn lowercase_is_unicode_aware() {
    assert_eq!("#\u{c9}T\u{c9}".extract_tags(None), strings(&["\u{e9}t\u{e9}"]));
}

#[test]
fn tags_are_added_to_those_found() {
    let mut found = strings(&["milk"]);
    add_tags_of(&mut found, "#Milk #eggs and #EGGS", false);
    assert_eq!(found, strings(&["milk", "eggs"]));
}

#[test]
fn pattern_escapes_and_orders() {
    assert_eq!(build_pattern(&strings(&["#a", "#a+b", "#c"])), "(\\#a\\+b|\\#a|\\#c)");
    assert_eq!(build_pattern(&strings(&["#x"])), "(\\#x)");
}

#[test]
fn longest_first_is_stable() {
    assert_eq!(
        sort_longest_first(&strings(&["#b", "#ccc", "#a", "#dd"])),
        strings(&["#ccc", "#dd", "#b", "#a"])
    );
    assert_eq!(sort_longest_first(&Vec::new()), Vec::<String>::new());
}

#[test]
fn longest_first_counts_characters() {
    assert_eq!(
        sort_longest_first(&strings(&["#\u{e9}", "#abc", "#ab"])),
        strings(&["#abc", "#ab", "#\u{e9}"])
    );
}

#[test]
fn cut_respects_character_boundaries() {
    assert_eq!(cut("h\u{e9}llo", 0), Some(("", "h\u{e9}llo")));
    assert_eq!(cut("h\u{e9}llo", 1), Some(("h", "\u{e9}llo")));
    assert_eq!(cut("h\u{e9}llo", 2), None);
    assert_eq!(cut("h\u{e9}llo", 3), Some(("h\u{e9}", "llo")));
    assert_eq!(cut("abc", 3), Some(("abc", "")));
    assert_eq!(cut("abc", 4), None);
}

#[test]
fn spans_out_of_order_are_passed_over() {
    let (plain, marked, rest) = cut_spans("abcdef", &vec![(1, 2), (0, 1), (4, 3), (3, 5), (9, 10)]);
    assert_eq!(plain, strings(&["a", "c"]));
    assert_eq!(marked, strings(&["b", "de"]));
    assert_eq!(rest, "f");
}

#[test]
fn spans_that_split_a_character_are_passed_over() {
    let (plain, marked, rest) = cut_spans("h\u{e9}llo", &vec![(1, 2), (1, 3)]);
    assert_eq!(plain, strings(&["h"]));
    assert_eq!(marked, strings(&["\u{e9}"]));
    assert_eq!(rest, "llo");
}

#[test]
fn no_spans_leave_the_text_whole() {
    let (plain, marked, rest) = cut_spans("abc", &Vec::new());
    assert_eq!(plain, Vec::<String>::new());
    assert_eq!(marked, Vec::<String>::new());
    assert_eq!(rest, "abc");
}

#[test]
fn pieces_are_put_together_in_turn() {
    assert_eq!(assemble(&strings(&["a", "c"]), &strings(&["[b]", "[de]"]), "f"), "a[b]c[de]f");
    assert_eq!(assemble(&Vec::new(), &Vec::new(), "rest"), "rest");
    assert_eq!(assemble(&strings(&["a", "c"]), &strings(&["[b]"]), "f"), "a[b]f");
    assert_eq!(assemble(&strings(&["a"]), &strings(&["[b]", "[d]"]), "f"), "a[b]f");
}

#[test]
fn whitespace_is_what_the_standard_library_takes_for_it() {
    let listed = |c: char| {
        matches!(
            c,
            '\u{9}'..='\u{d}'
                | ' '
                | '\u{85}'
                | '\u{a0}'
                | '\u{1680}'
                | '\u{2000}'..='\u{200a}'
                | '\u{2028}'
                | '\u{2029}'
                | '\u{202f}'
                | '\u{205f}'
                | '\u{3000}'
        )
    };
    let mut text = String::new();
    for code in 0..=0x10ffffu32 {
        if let Some(c) = char::from_u32(code) {
            assert_eq!(c.is_whitespace(), listed(c), "{:?}", c);
            if listed(c) {
                text.clear();
                text.push('a');
                text.push(c);
                text.push('b');
                assert_eq!(split_words(&text), strings(&["a", "b"]), "{:?}", c);
            }
        }
    }
    assert_eq!(split_words("a\u{200b}b\u{feff}c\u{180e}d"), strings(&["a\u{200b}b\u{feff}c\u{180e}d"]));
}

#[test]
fn every_meta_character_is_escaped() {
    assert_eq!(
        build_pattern(&strings(&["#\\.+*?()|[]{}^$#&-~"])),
        "(\\#\\\\\\.\\+\\*\\?\\(\\)\\|\\[\\]\\{\\}\\^\\$\\#\\&\\-\\~)"
    );
    assert_eq!(build_pattern(&strings(&["#a%/!\"e_:;<>=@ \u{e9}"])), "(\\#a%/!\"e_:;<>=@ \u{e9})");
}
