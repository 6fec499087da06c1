use weavesolve::{is_one_char_diff, same_word};

#[test]
fn one_position_differs() {
    assert!(is_one_char_diff("cold", "cord"));
    assert!(is_one_char_diff("cord", "cold"));
    assert!(is_one_char_diff("ward", "warm"));
    assert!(is_one_char_diff("a", "b"));
}

#[test]
fn no_position_differs() {
    assert!(!is_one_char_diff("cold", "cold"));
    assert!(!is_one_char_diff("", ""));
}

#[test]
fn two_or_more_positions_differ() {
    assert!(!is_one_char_diff("cold", "card"));
    assert!(!is_one_char_diff("cold", "warm"));
    assert!(!is_one_char_diff("abcd", "badc"));
}

#[test]
fn swapped_letters_are_two_differences() {
    assert!(!is_one_char_diff("form", "from"));
}

#[test]
fn only_shared_positions_are_compared() {
    // the longer word's tail is not looked at
    assert!(!is_one_char_diff("ab", "abc"));
    assert!(is_one_char_diff("ab", "acd"));
    assert!(is_one_char_diff("acd", "ab"));
    assert!(!is_one_char_diff("", "abc"));
}

#[test]
fn characters_beyond_ascii_count_once() {
    assert!(is_one_char_diff("caf\u{e9}", "cafe"));
    assert!(!is_one_char_diff("\u{e9}t\u{e9}", "ete"));
}

#[test]
fn one_char_diff_is_symmetric_on_samples() {
    let words = ["cold", "cord", "card", "ward", "warm", "worm", "corm", "ab", "acd", ""];
    for a in words.iter() {
        for b in words.iter() {
            assert_eq!(is_one_char_diff(a, b), is_one_char_diff(b, a));
        }
    }
}

#[test]
fn same_word_compares_all_characters() {
    assert!(same_word("cold", "cold"));
    assert!(same_word("", ""));
    assert!(!same_word("cold", "cord"));
    assert!(!same_word("cold", "col"));
    assert!(!same_word("col", "cold"));
    assert!(!same_word("", "a"));
}
