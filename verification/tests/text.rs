use std::cmp::Ordering;

use crypto_screener::text::{chars_of, common_prefix_len, compare_text, same_text};

#[test]
fn chars_are_read_in_order() {
    assert_eq!(chars_of(""), Vec::<char>::new());
    assert_eq!(chars_of("abc"), vec!['a', 'b', 'c']);
    assert_eq!(chars_of("é1€"), vec!['é', '1', '€']);
}

#[test]
fn same_text_tells_texts_apart() {
    assert!(same_text("", ""));
    assert!(same_text("symbol", "symbol"));
    assert!(!same_text("symbol", "symbols"));
    assert!(!same_text("symbol", "Symbol"));
    assert!(!same_text("a", ""));
    assert!(same_text("é€", "é€"));
}

#[test]
fn common_prefix_ends_at_first_difference() {
    assert_eq!(common_prefix_len(&chars_of("price"), &chars_of("prize")), 3);
    assert_eq!(common_prefix_len(&chars_of("abc"), &chars_of("abcd")), 3);
    assert_eq!(common_prefix_len(&chars_of(""), &chars_of("abc")), 0);
    assert_eq!(common_prefix_len(&chars_of("abc"), &chars_of("abc")), 3);
    assert_eq!(common_prefix_len(&chars_of("xbc"), &chars_of("abc")), 0);
}

#[test]
fn texts_are_ordered_by_code_point() {
    assert_eq!(compare_text("btc", "eth"), Ordering::Less);
    assert_eq!(compare_text("eth", "btc"), Ordering::Greater);
    assert_eq!(compare_text("btc", "btc"), Ordering::Equal);
    assert_eq!(compare_text("", "a"), Ordering::Less);
    assert_eq!(compare_text("a", ""), Ordering::Greater);
    assert_eq!(compare_text("", ""), Ordering::Equal);
    assert_eq!(compare_text("ab", "abc"), Ordering::Less);
    assert_eq!(compare_text("Z", "a"), Ordering::Less);
    assert_eq!(compare_text("z", "é"), Ordering::Less);
    for (a, b) in [("a", "b"), ("abc", "abd"), ("€", "😀"), ("é", "z"), ("", "x"), ("Ab", "aB")] {
        assert_eq!(compare_text(a, b), a.cmp(b), "{} against {}", a, b);
        assert_eq!(compare_text(b, a), b.cmp(a), "{} against {}", b, a);
    }
}
