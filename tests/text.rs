use record_store::text::{text_eq, text_find, text_less};

#[test]
fn text_order_matches_str_order() {
    let words = ["", "a", "ab", "abc", "b", "B", "Z", "é", "ä", "zz", "ab\u{1F600}"];
    for x in words.iter() {
        for y in words.iter() {
            assert_eq!(text_less(x, y), x < y, "{} < {}", x, y);
            assert_eq!(text_eq(x, y), x == y);
        }
    }
}

#[test]
fn text_find_substrings() {
    assert!(text_find("hello", "ell"));
    assert!(text_find("hello", "hello"));
    assert!(text_find("hello", ""));
    assert!(text_find("", ""));
    assert!(!text_find("", "a"));
    assert!(!text_find("hello", "hellos"));
    assert!(!text_find("hello", "lol"));
    assert!(text_find("naïve café", "é"));
}
