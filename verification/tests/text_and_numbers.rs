use twitchdl::number::{i64_text, parse_i64, parse_u64, parse_u8, parse_usize, u64_text};
use twitchdl::strings::{chars_of, concatenate, contains, ends_with, split_on_char, split_two, starts_with, str_eq, text_before};

#[test]
fn prefixes_and_suffixes() {
    assert!(starts_with("https://api.twitch.tv/x", "https://"));
    assert!(!starts_with("http://api", "https://"));
    assert!(starts_with("abc", ""));
    assert!(!starts_with("ab", "abc"));
    assert!(ends_with("1552472814.2.ts", ".ts"));
    assert!(!ends_with("playlist.m3u8", ".ts"));
    assert!(!ends_with("ts", ".ts"));
}

#[test]
fn substring_search() {
    assert!(contains("OWL Main Stream / Map 1", "Main Stream / Map"));
    assert!(contains("Player POV", "POV"));
    assert!(!contains("Player PO", "POV"));
    assert!(contains("anything", ""));
    assert!(!contains("", "a"));
    assert!(str_eq("Map", "Map"));
    assert!(!str_eq("Map", "Maps"));
}

#[test]
fn splitting_on_a_character() {
    let parts = split_on_char("1,2,,x", ',');
    let texts: Vec<&str> = parts.iter().map(|s| s.as_str()).collect();
    assert_eq!(texts, vec!["1", "2", "", "x"]);
    let single = split_on_char("", ',');
    assert_eq!(single.len(), 1);
    assert_eq!(single[0], "");
    let trailing = split_on_char("a,", ',');
    assert_eq!(trailing.len(), 2);
    assert_eq!(trailing[1], "");
}

#[test]
fn text_before_and_split_two() {
    assert_eq!(text_before("1552472814.2.ts", '.'), "1552472814");
    assert_eq!(text_before("nodot", '.'), "nodot");
    let (a, b) = split_two("1552472814.2.5.ts", '.');
    assert_eq!(a, "1552472814");
    assert_eq!(b, "2");
    let (c, d) = split_two("12.ts", '.');
    assert_eq!(c, "12");
    assert_eq!(d, "ts");
    assert_eq!(concatenate("ab", "cd"), "abcd");
    assert_eq!(chars_of("héllo"), vec!['h', 'é', 'l', 'l', 'o']);
}

#[test]
fn unsigned_parsing_follows_from_str() {
    assert_eq!(parse_u64("0"), Some(0));
    assert_eq!(parse_u64("+42"), Some(42));
    assert_eq!(parse_u64("18446744073709551615"), Some(u64::MAX));
    assert_eq!(parse_u64("18446744073709551616"), None);
    assert_eq!(parse_u64(""), None);
    assert_eq!(parse_u64("+"), None);
    assert_eq!(parse_u64("-1"), None);
    assert_eq!(parse_u64(" 1"), None);
    assert_eq!(parse_u64("1a"), None);
    assert_eq!(parse_u8("255"), Some(255));
    assert_eq!(parse_u8("256"), None);
    assert_eq!(parse_usize("9999"), Some(9999));
    for s in ["7", "+7", "007", "x", "", "300", "-0"] {
        assert_eq!(parse_u8(s), s.parse::<u8>().ok(), "{}", s);
        assert_eq!(parse_u64(s), s.parse::<u64>().ok(), "{}", s);
    }
}

#[test]
fn signed_parsing_follows_from_str() {
    assert_eq!(parse_i64("-9223372036854775808"), Some(i64::MIN));
    assert_eq!(parse_i64("9223372036854775807"), Some(i64::MAX));
    assert_eq!(parse_i64("9223372036854775808"), None);
    assert_eq!(parse_i64("-9223372036854775809"), None);
    assert_eq!(parse_i64("-"), None);
    assert_eq!(parse_i64("-+1"), None);
    assert_eq!(parse_i64("+-1"), None);
    assert_eq!(parse_i64("1552472814"), Some(1552472814));
    for s in ["-12", "+12", "12", "--1", "1.5", ""] {
        assert_eq!(parse_i64(s), s.parse::<i64>().ok(), "{}", s);
    }
}

#[test]
fn decimal_text_round_trips() {
    assert_eq!(u64_text(0), "0");
    assert_eq!(u64_text(1050), "1050");
    assert_eq!(u64_text(u64::MAX), u64::MAX.to_string());
    assert_eq!(i64_text(-5), "-5");
    assert_eq!(i64_text(i64::MIN), i64::MIN.to_string());
    for n in [0u64, 9, 10, 99, 100, 123456789, u64::MAX] {
        assert_eq!(parse_u64(&u64_text(n)), Some(n));
    }
    for n in [i64::MIN, -1, 0, 1, 1552472814, i64::MAX] {
        assert_eq!(parse_i64(&i64_text(n)), Some(n));
    }
}
