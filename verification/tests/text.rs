use event_store::text::{chars_of, concat3, contains, is_less, read_bool, read_integer, same_text};

#[test]
fn chars_of_gives_every_character() {
    assert_eq!(chars_of("aé😀"), vec!['a', 'é', '😀']);
    assert_eq!(chars_of(""), Vec::<char>::new());
}

#[test]
fn same_text_compares_contents() {
    assert!(same_text(&"abc".to_string(), "abc"));
    assert!(!same_text(&"abc".to_string(), "abd"));
    assert!(!same_text(&"abc".to_string(), "ab"));
    assert!(same_text(&String::new(), ""));
}

#[test]
fn contains_finds_substrings() {
    assert!(contains("security", "sec"));
    assert!(contains("security", "rity"));
    assert!(contains("security", "cur"));
    assert!(contains("security", ""));
    assert!(contains("", ""));
    assert!(!contains("", "a"));
    assert!(!contains("sec", "security"));
    assert!(!contains("security", "sex"));
    assert!(contains("aab", "ab"));
    assert!(contains("grüße", "üß"));
}

#[test]
fn contains_agrees_with_std() {
    let hays = ["", "a", "abcabc", "aaab", "héllo wörld", "日本語のテキスト"];
    let needles = ["", "a", "abc", "bca", "ab", "aab", "ö", "本語", "x", "lo w"];
    for h in hays {
        for n in needles {
            assert_eq!(contains(h, n), h.contains(n), "{:?} {:?}", h, n);
        }
    }
}

#[test]
fn is_less_is_the_lexicographic_order() {
    assert!(is_less("a", "b"));
    assert!(!is_less("b", "a"));
    assert!(!is_less("a", "a"));
    assert!(is_less("", "a"));
    assert!(!is_less("a", ""));
    assert!(!is_less("", ""));
    assert!(is_less("ab", "abc"));
    assert!(is_less("Security", "System"));
    assert!(is_less("Z", "a"));
}

#[test]
fn is_less_agrees_with_std() {
    let samples = ["", "a", "ab", "abc", "b", "B", "é", "z", "日本", "😀", "\u{ffff}", "aé", "a😀"];
    for a in samples {
        for b in samples {
            assert_eq!(is_less(a, b), a < b, "{:?} {:?}", a, b);
        }
    }
}

#[test]
fn read_bool_takes_the_two_literals_only() {
    assert_eq!(read_bool("true"), Some(true));
    assert_eq!(read_bool("false"), Some(false));
    assert_eq!(read_bool("True"), None);
    assert_eq!(read_bool(" true"), None);
    assert_eq!(read_bool("1"), None);
    assert_eq!(read_bool(""), None);
    assert_eq!(read_bool("truex"), None);
}

#[test]
fn read_integer_reads_signed_decimals() {
    assert_eq!(read_integer("0"), Some(0));
    assert_eq!(read_integer("42"), Some(42));
    assert_eq!(read_integer("+42"), Some(42));
    assert_eq!(read_integer("-42"), Some(-42));
    assert_eq!(read_integer("-0"), Some(0));
    assert_eq!(read_integer("007"), Some(7));
    assert_eq!(read_integer("9223372036854775807"), Some(i64::MAX));
    assert_eq!(read_integer("-9223372036854775808"), Some(i64::MIN));
    assert_eq!(read_integer("0000000000000000000000000000012"), Some(12));
}

#[test]
fn read_integer_rejects_everything_else() {
    assert_eq!(read_integer(""), None);
    assert_eq!(read_integer("+"), None);
    assert_eq!(read_integer("-"), None);
    assert_eq!(read_integer(" 1"), None);
    assert_eq!(read_integer("1 "), None);
    assert_eq!(read_integer("1_000"), None);
    assert_eq!(read_integer("1.5"), None);
    assert_eq!(read_integer("--1"), None);
    assert_eq!(read_integer("+-1"), None);
    assert_eq!(read_integer("12a"), None);
    assert_eq!(read_integer("٣"), None);
    assert_eq!(read_integer("9223372036854775808"), None);
    assert_eq!(read_integer("-9223372036854775809"), None);
    assert_eq!(read_integer("99999999999999999999999999"), None);
    assert_eq!(read_integer("18446744073709551616"), None);
}

#[test]
fn read_integer_agrees_with_std() {
    let samples = [
        "", "0", "-0", "+0", "1", "-1", "+1", "12345", "-12345", "00", "0x10", "1e3", "१२",
        "9223372036854775806", "9223372036854775807", "9223372036854775808",
        "-9223372036854775807", "-9223372036854775808", "-9223372036854775809",
        "92233720368547758070", "+9223372036854775807", "+9223372036854775808", "a", "-a", "1-",
    ];
    for s in samples {
        assert_eq!(read_integer(s), s.parse::<i64>().ok(), "{:?}", s);
    }
}

#[test]
fn concat3_joins_three_texts() {
    assert_eq!(concat3("Provider", ".", "Name"), "Provider.Name");
    assert_eq!(concat3("", "", ""), "");
}
