use gtrends::text::{contains_str, copy_strings, contains_string, cut_bytes, parse_unsigned, replace_str, split_text, trim_quotes_str};

#[test]
fn trim_quotes_removes_both_ends() {
    assert_eq!(trim_quotes_str("\"rust\""), "rust");
    assert_eq!(trim_quotes_str("\"\"go\"\"\""), "go");
    assert_eq!(trim_quotes_str("a\"b"), "a\"b");
    assert_eq!(trim_quotes_str("\"\"\""), "");
    assert_eq!(trim_quotes_str(""), "");
}

#[test]
fn trim_quotes_is_idempotent() {
    let once = trim_quotes_str("\"\"x y\"");
    assert_eq!(trim_quotes_str(&once), once);
}

#[test]
fn split_matches_str_split() {
    for s in ["", ",", "a", "a,b", "a,,b,", ",x,", "rust,\"go\",c++"] {
        let expected: Vec<String> = s.split(',').map(|p| p.to_string()).collect();
        assert_eq!(split_text(s, ','), expected);
        assert_eq!(split_text(s, ',').join(","), s);
    }
}

#[test]
fn parse_unsigned_follows_str_parse() {
    for s in ["0", "255", "256", "+7", "+", "", "-1", "12a", "007", "4294967295", "4294967296", " 1"] {
        let want_u8 = s.parse::<u8>().ok().map(|v| v as u32);
        let want_u32 = s.parse::<u32>().ok();
        assert_eq!(parse_unsigned(s, 255), want_u8, "u8 {:?}", s);
        assert_eq!(parse_unsigned(s, u32::MAX), want_u32, "u32 {:?}", s);
    }
}

#[test]
fn contains_and_replace() {
    assert!(contains_str("/abc.svg", ".svg"));
    assert!(!contains_str("/abc.sv", ".svg"));
    assert!(contains_str("abc", ""));
    assert_eq!(replace_str("<img src=\"chart.svg\"> chart.svg", "chart.svg", "x.svg"), "<img src=\"x.svg\"> x.svg");
    assert_eq!(replace_str("aaa", "aa", "b"), "aaa".replace("aa", "b"));
    assert_eq!(replace_str("no match", "chart.svg", "x"), "no match");
}

#[test]
fn cut_bytes_respects_boundaries() {
    assert_eq!(cut_bytes(")]}'\n{\"a\":1}", 5), Some("{\"a\":1}".to_string()));
    assert_eq!(cut_bytes("abc", 5), None);
    assert_eq!(cut_bytes("ééé", 3), None);
    assert_eq!(cut_bytes("ééé", 4), Some("é".to_string()));
    assert_eq!(cut_bytes("/x.svg", 1), Some("x.svg".to_string()));
}

#[test]
fn string_lists() {
    let v = vec!["a".to_string(), "b".to_string()];
    assert_eq!(copy_strings(&v), v);
    assert!(contains_string(&v, &"b".to_string()));
    assert!(!contains_string(&v, &"c".to_string()));
}
