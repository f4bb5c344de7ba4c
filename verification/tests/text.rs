use netlist_explorer::lists::page_bounds;
use netlist_explorer::ranking::{arrange, order_keys, rank, Part};
use netlist_explorer::table::Table;
use netlist_explorer::tally::tally;
use netlist_explorer::text::{
    ascii_lowered, decimal_text, join_texts, order_text, parse_unsigned, same_text, split_fields,
    text_after_last, text_contains, text_ends_with, text_starts_with, trim_end_matches,
    trim_matches, trim_start_matches, Exactly, Order, Punctuation, Whitespace,
};

#[test]
fn texts_are_trimmed_and_split() {
    assert_eq!(trim_matches(" \t a b \u{a0}", &Whitespace), "a b");
    assert_eq!(trim_matches("//a/b//", &Exactly('/')), "a/b");
    assert_eq!(trim_start_matches("//a/", &Exactly('/')), "a/");
    assert_eq!(trim_end_matches("//a//", &Exactly('/')), "//a");
    assert_eq!(trim_matches("////", &Exactly('/')), "");
    assert_eq!(split_fields("  a  b\u{2003}c ", &Whitespace), ["a", "b", "c"]);
    assert_eq!(split_fields("a-b, c", &Punctuation), ["a", "b", "c"]);
    assert!(split_fields("   ", &Whitespace).is_empty());
}

#[test]
fn texts_are_searched() {
    assert!(text_starts_with("abc", "ab") && !text_starts_with("ab", "abc"));
    assert!(text_ends_with("abc", "bc") && !text_ends_with("abc", "ab"));
    assert!(text_contains("abcd", "bc") && !text_contains("abcd", "cb"));
    assert!(text_contains("abc", ""));
    assert!(same_text("\u{e9}", "\u{e9}") && !same_text("e", "\u{e9}"));
    assert_eq!(text_after_last("a/b/c", '/'), "c");
    assert_eq!(text_after_last("abc", '/'), "abc");
    let parts = vec!["a".to_string(), "b".to_string(), "c".to_string()];
    assert_eq!(join_texts(&parts, 0, 3, ", "), "a, b, c");
    assert_eq!(join_texts(&parts, 1, 1, ", "), "");
    assert_eq!(ascii_lowered("AB\u{c9}"), "ab\u{c9}");
}

#[test]
fn numbers_are_written_and_read() {
    assert_eq!(decimal_text(0), "0");
    assert_eq!(decimal_text(1024), "1024");
    assert_eq!(parse_unsigned("+12", u64::MAX), Some(12));
    assert_eq!(parse_unsigned("18446744073709551615", u64::MAX), Some(u64::MAX));
    assert_eq!(parse_unsigned("18446744073709551616", u64::MAX), None);
    assert_eq!(parse_unsigned("300", 255), None);
    for s in ["", "+", "-1", "1x", " 1"] {
        assert_eq!(parse_unsigned(s, u64::MAX), None, "{s:?}");
    }
}

#[test]
fn texts_are_ordered_as_strings_are() {
    for (a, b) in [("a", "b"), ("a", "ab"), ("", "a"), ("Z", "a"), ("z", "\u{e9}"), ("x", "x")] {
        let expected = if a == b { 0 } else { 1 };
        let forth = match order_text(a, b) {
            Order::Less => 1,
            Order::Equal => 0,
            Order::Greater => -1,
        };
        assert_eq!(forth, expected, "{a:?} {b:?}");
        assert_eq!(a < b, forth == 1);
    }
}

#[test]
fn ranking_keeps_equals_in_order() {
    let keys = vec![
        vec![Part::Down(1), Part::Text("b".to_string())],
        vec![Part::Down(2), Part::Text("z".to_string())],
        vec![Part::Down(1), Part::Text("a".to_string())],
        vec![Part::Down(2), Part::Text("z".to_string())],
    ];
    let order = rank(&keys);
    assert_eq!(order, [1, 3, 2, 0]);
    assert_eq!(arrange(vec!['a', 'b', 'c', 'd'], &order), ['b', 'd', 'c', 'a']);
    assert!(matches!(order_keys(&keys[0], &keys[1]), Order::Greater));
    assert!(matches!(order_keys(&vec![Part::Up(1)], &vec![Part::Up(2)]), Order::Less));
}

#[test]
fn pages_follow_each_other() {
    assert_eq!(page_bounds(5, 0, 2), (0, 2));
    assert_eq!(page_bounds(5, 2, 2), (2, 4));
    assert_eq!(page_bounds(5, 4, 2), (4, 5));
    assert_eq!(page_bounds(5, 9, 2), (5, 5));
    assert_eq!(page_bounds(5, 0, u32::MAX), (0, 5));
}

#[test]
fn a_tally_adds_up() {
    let list = vec![Some("a".to_string()), None, Some("b".to_string()), Some("a".to_string())];
    let (labels, counts) = tally(&list);
    assert_eq!(labels, [Some("a".to_string()), None, Some("b".to_string())]);
    assert_eq!(counts, [2, 1, 1]);
    assert_eq!(counts.iter().sum::<usize>(), list.len());
}

#[test]
fn a_table_keeps_one_value_for_a_key() {
    let mut t: Table<u32> = Table::new();
    t.insert("a".to_string(), 1);
    t.insert("b".to_string(), 2);
    t.insert("a".to_string(), 3);
    assert_eq!(t.len(), 2);
    assert_eq!(t.get("a"), Some(&3));
    assert_eq!(t.get("c"), None);
    t.remove("a");
    assert_eq!((t.len(), t.get("a")), (1, None));
    assert_eq!(t.row(0), (&"b".to_string(), &2));
    t.remove("x");
    assert_eq!(t.len(), 1);
}
