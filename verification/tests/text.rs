use findw::text::{compare_texts, contains_text, decimal_text, join_texts, push_decimal, TextOrder};

#[test]
fn contains_text_cases() {
    assert!(contains_text("Jane Street", "Street"));
    assert!(contains_text("Jane Street", ""));
    assert!(contains_text("", ""));
    assert!(!contains_text("Jane", "Jane Street"));
    assert!(!contains_text("Jane Street", "street"));
    assert!(contains_text("aaab", "aab"));
    assert!(contains_text("déjà vu", "jà"));
}

#[test]
fn decimal_cases() {
    assert_eq!(decimal_text(0), "0");
    assert_eq!(decimal_text(7), "7");
    assert_eq!(decimal_text(10), "10");
    assert_eq!(decimal_text(8000), "8000");
    assert_eq!(decimal_text(u64::MAX), "18446744073709551615");
    let mut s = String::from("port:");
    push_decimal(&mut s, 443);
    assert_eq!(s, "port:443");
}

#[test]
fn join_cases() {
    let v = vec![String::from("a"), String::from("b"), String::from("c")];
    assert_eq!(join_texts(&v, " => "), "a => b => c");
    assert_eq!(join_texts(&v, ""), "abc");
    assert_eq!(join_texts(&vec![], ", "), "");
    assert_eq!(join_texts(&vec![String::from("x")], ", "), "x");
}

#[test]
fn compare_cases() {
    assert_eq!(compare_texts("a", "b"), TextOrder::Less);
    assert_eq!(compare_texts("b", "a"), TextOrder::Greater);
    assert_eq!(compare_texts("ab", "ab"), TextOrder::Equal);
    assert_eq!(compare_texts("ab", "abc"), TextOrder::Less);
    assert_eq!(compare_texts("", ""), TextOrder::Equal);
    assert_eq!(compare_texts("Z", "a"), TextOrder::Less);
    // The order agrees with that of String.
    let words = ["é", "z", "", "ab", "a", "€", "b"];
    for x in words {
        for y in words {
            let expected = if x < y {
                TextOrder::Less
            } else if x == y {
                TextOrder::Equal
            } else {
                TextOrder::Greater
            };
            assert_eq!(compare_texts(x, y), expected);
        }
    }
}
