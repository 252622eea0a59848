use rhxn::text::{chars_of, find, parse_item_id, push_decimal, same_chars};

fn decimal(n: u64) -> String {
    let mut s = String::new();
    push_decimal(&mut s, n);
    s
}

#[test]
fn decimal_of_small_numbers() {
    assert_eq!(decimal(0), "0");
    assert_eq!(decimal(7), "7");
    assert_eq!(decimal(10), "10");
    assert_eq!(decimal(109), "109");
    assert_eq!(decimal(8863), "8863");
}

#[test]
fn decimal_of_the_largest_number() {
    assert_eq!(decimal(u64::MAX), "18446744073709551615");
}

#[test]
fn decimal_is_appended() {
    let mut s = String::from("id=");
    push_decimal(&mut s, 42);
    assert_eq!(s, "id=42");
}

#[test]
fn decimal_agrees_with_std() {
    for n in [1u64, 9, 11, 99, 100, 101, 999_999, 1_000_000, 4_294_967_296, u64::MAX - 1] {
        assert_eq!(decimal(n), n.to_string());
    }
}

#[test]
fn parse_reads_digits() {
    assert_eq!(parse_item_id("0"), Some(0));
    assert_eq!(parse_item_id("8863"), Some(8863));
    assert_eq!(parse_item_id("007"), Some(7));
    assert_eq!(parse_item_id("18446744073709551615"), Some(u64::MAX));
}

#[test]
fn parse_takes_one_plus_sign() {
    assert_eq!(parse_item_id("+5"), Some(5));
    assert_eq!(parse_item_id("++5"), None);
    assert_eq!(parse_item_id("+"), None);
    assert_eq!(parse_item_id("5+"), None);
}

#[test]
fn parse_refuses_what_is_no_number() {
    assert_eq!(parse_item_id(""), None);
    assert_eq!(parse_item_id("abc"), None);
    assert_eq!(parse_item_id("12a"), None);
    assert_eq!(parse_item_id("-1"), None);
    assert_eq!(parse_item_id(" 1"), None);
    assert_eq!(parse_item_id("1 "), None);
    assert_eq!(parse_item_id("1.5"), None);
    assert_eq!(parse_item_id("١٢"), None);
}

#[test]
fn parse_refuses_what_does_not_fit() {
    assert_eq!(parse_item_id("18446744073709551616"), None);
    assert_eq!(parse_item_id("99999999999999999999"), None);
    assert_eq!(parse_item_id("184467440737095516150"), None);
    assert_eq!(parse_item_id("18446744073709551616x"), None);
}

#[test]
fn parse_agrees_with_std() {
    for s in ["", "+", "0", "+0", "-0", "42", "+42", "0042", "4 2", "18446744073709551615",
        "18446744073709551616", "x", "1e3", "٣"] {
        assert_eq!(parse_item_id(s), s.parse::<u64>().ok());
    }
}

#[test]
fn parse_undoes_decimal() {
    for n in [0u64, 1, 10, 12345, u64::MAX] {
        assert_eq!(parse_item_id(&decimal(n)), Some(n));
    }
}

#[test]
fn chars_of_counts_characters_not_bytes() {
    assert_eq!(chars_of("héllo"), vec!['h', 'é', 'l', 'l', 'o']);
    assert_eq!(chars_of(""), Vec::<char>::new());
}

#[test]
fn find_gives_the_first_place() {
    let s = chars_of("a://b://c");
    assert_eq!(find(&s, &chars_of("://")), Some(1));
    assert_eq!(find(&s, &chars_of("c")), Some(8));
    assert_eq!(find(&s, &chars_of("a://b://c")), Some(0));
    assert_eq!(find(&s, &chars_of("d")), None);
    assert_eq!(find(&s, &chars_of("a://b://cd")), None);
    assert_eq!(find(&chars_of(""), &chars_of("/")), None);
    assert_eq!(find(&chars_of(":/:/://"), &chars_of("://")), Some(4));
}

#[test]
fn same_chars_compares_whole_texts() {
    assert!(same_chars(&chars_of("github.com"), &chars_of("github.com")));
    assert!(!same_chars(&chars_of("github.com"), &chars_of("github.co")));
    assert!(!same_chars(&chars_of("github.com"), &chars_of("github.org")));
    assert!(same_chars(&chars_of(""), &chars_of("")));
}
