use tot::kv::{find_first, Kv, KvParser};

fn parse_one<'a, 'b>(s: &'a str, sep: &'b str) -> Kv<'a> {
    KvParser::with_separator(sep).parse(s)
}

#[test]
fn test_simple() {
    let kv = parse_one("foo:bar", ":");
    assert_eq!("foo", kv.key());
    assert_eq!("bar", kv.value());
}

#[test]
fn test_empty_val() {
    let kv = parse_one("foo:", ":");
    assert_eq!("foo", kv.key());
    assert_eq!("", kv.value());
}

#[test]
fn test_no_separator() {
    let kv = parse_one("foo", ":");
    assert_eq!("foo", kv.key());
    assert_eq!("", kv.value());
}

#[test]
fn test_first_separator_wins() {
    let kv = parse_one("a:b:c", ":");
    assert_eq!("a", kv.key());
    assert_eq!("b:c", kv.value());
}

#[test]
fn test_separator_at_start() {
    let kv = parse_one(":bar", ":");
    assert_eq!("", kv.key());
    assert_eq!("bar", kv.value());
}

#[test]
fn test_long_separator_skips_one_character() {
    let kv = parse_one("key => value", " => ");
    assert_eq!("key", kv.key());
    assert_eq!("=> value", kv.value());
}

#[test]
fn test_long_separator_partial_match_is_no_match() {
    let kv = parse_one("a=b==c", "==");
    assert_eq!("a=b", kv.key());
    assert_eq!("=c", kv.value());
}

#[test]
fn test_non_ascii_line() {
    let kv = parse_one("n\u{e4}me:v\u{e4}lue", ":");
    assert_eq!("n\u{e4}me", kv.key());
    assert_eq!("v\u{e4}lue", kv.value());
}

#[test]
fn test_non_ascii_separator() {
    let kv = parse_one("a\u{2192}b", "\u{2192}");
    assert_eq!("a", kv.key());
    assert_eq!("b", kv.value());
}

#[test]
fn test_empty_separator() {
    let kv = parse_one("abc", "");
    assert_eq!("", kv.key());
    assert_eq!("bc", kv.value());
    let kv = parse_one("", "");
    assert_eq!("", kv.key());
    assert_eq!("", kv.value());
}

#[test]
fn test_empty_line() {
    let kv = parse_one("", ":");
    assert_eq!("", kv.key());
    assert_eq!("", kv.value());
}

#[test]
fn test_separator_longer_than_line() {
    let kv = parse_one("ab", "abc");
    assert_eq!("ab", kv.key());
    assert_eq!("", kv.value());
}

#[test]
fn test_find_first() {
    let line: Vec<char> = "hello world".chars().collect();
    let found = |sep: &str| {
        let sep: Vec<char> = sep.chars().collect();
        find_first(&line, &sep)
    };
    assert_eq!(Some(4), found("o"));
    assert_eq!(Some(2), found("ll"));
    assert_eq!(Some(6), found("world"));
    assert_eq!(Some(0), found(""));
    assert_eq!(Some(0), found("hello world"));
    assert_eq!(None, found("worlds"));
    assert_eq!(None, found("x"));
}
