use tot::chunker::{chunks_at_blanks, chunks_with_test, Chunker};
use tot::text::{chars_of, is_blank_line, trim};

fn lines_of(input: &str) -> Vec<String> {
    input.lines().map(|l| l.to_string()).collect()
}

fn count(mut chunker: Chunker) -> usize {
    let mut n = 0;
    while chunker.next().is_some() {
        n += 1;
    }
    n
}

#[test]
fn test_none() {
    assert_eq!(0, count(chunks_at_blanks(lines_of(""))));
    assert_eq!(0, count(chunks_at_blanks(lines_of("\t\t  \t"))));
    assert_eq!(0, count(chunks_at_blanks(lines_of("\n\n        \t\t  \t\t\n"))));
}

#[test]
fn test_one() {
    let mut chunks = chunks_at_blanks(lines_of("foo\nbar\nbaz"));
    let chunk = chunks.next().unwrap();
    assert_eq!(vec!["foo".to_string(), "bar".to_string(), "baz".to_string()], chunk);
    assert!(chunks.next().is_none());
}

#[test]
fn test_two() {
    let mut chunks = chunks_at_blanks(lines_of("one\ntwo\nthree\n\noone\nttwo"));
    assert_eq!(3, chunks.next().unwrap().len());
    assert_eq!(2, chunks.next().unwrap().len());
    assert!(chunks.next().is_none());
}

#[test]
fn test_two_extra_blank_lines() {
    let input = "one\ntwo\nthree\n\n  \t\n\noone\nttwo\ntthree";
    assert_eq!(2, count(chunks_at_blanks(lines_of(input))));
}

#[test]
fn test_three() {
    let input = "one\ntwo\nthree\n\noone\nttwo\ntthree\n\nspace\ndeuce\ntrey";
    assert_eq!(3, count(chunks_at_blanks(lines_of(input))));
}

#[test]
fn test_blank_lines_between_do_not_count() {
    for blanks in 1..6 {
        let mut input = String::from("a\nb\n");
        for k in 0..blanks {
            input.push_str(if k % 2 == 0 { "\n" } else { " \t \n" });
        }
        input.push_str("c\n");
        let mut chunks = chunks_at_blanks(lines_of(&input));
        assert_eq!(vec!["a".to_string(), "b".to_string()], chunks.next().unwrap());
        assert_eq!(vec!["c".to_string()], chunks.next().unwrap());
        assert!(chunks.next().is_none());
    }
}

#[test]
fn test_leading_and_trailing_blank_lines() {
    let mut chunks = chunks_at_blanks(lines_of("\n\n  \nx\ny\n\n\n"));
    assert_eq!(vec!["x".to_string(), "y".to_string()], chunks.next().unwrap());
    assert!(chunks.next().is_none());
}

#[test]
fn test_none_again_after_the_end() {
    let mut chunks = chunks_at_blanks(lines_of("x\n\ny"));
    assert!(chunks.next().is_some());
    assert!(chunks.next().is_some());
    assert!(chunks.next().is_none());
    assert!(chunks.next().is_none());
    assert!(chunks.next().is_none());
}

#[test]
fn test_lines_keep_their_whitespace() {
    let mut chunks = chunks_at_blanks(lines_of("  k : v  \n"));
    assert_eq!(vec!["  k : v  ".to_string()], chunks.next().unwrap());
}

#[test]
fn test_custom_boundary() {
    let lines = lines_of("a\n--\nb\n\nc\n--\n--\nd");
    let mut chunks = chunks_with_test(lines, |s: &str| s == "--");
    assert_eq!(vec!["a".to_string()], chunks.next().unwrap());
    assert_eq!(vec!["b".to_string(), "".to_string(), "c".to_string()], chunks.next().unwrap());
    assert_eq!(vec!["d".to_string()], chunks.next().unwrap());
    assert!(chunks.next().is_none());
}

#[test]
fn test_with_test_every_line_a_boundary() {
    let chunker = Chunker::with_test(lines_of("a\nb\nc"), |_s: &str| true);
    assert_eq!(0, count(chunker));
}

#[test]
fn test_with_test_no_line_a_boundary() {
    let mut chunker = Chunker::with_test(lines_of("a\n\nc"), |_s: &str| false);
    assert_eq!(vec!["a".to_string(), "".to_string(), "c".to_string()], chunker.next().unwrap());
    assert!(chunker.next().is_none());
}

#[test]
fn test_trim() {
    assert_eq!("value", trim(" value  "));
    assert_eq!("a b", trim("\t a b\r\n"));
    assert_eq!("", trim("   "));
    assert_eq!("", trim(""));
    assert_eq!("x", trim("x"));
    assert_eq!("\u{e4} \u{f6}", trim("\u{a0}\u{e4} \u{f6}\u{2003}"));
}

#[test]
fn test_is_blank_line() {
    assert!(is_blank_line(""));
    assert!(is_blank_line(" \t "));
    assert!(!is_blank_line(" . "));
}

#[test]
fn test_chars_of() {
    assert_eq!(vec!['a', '\u{e4}', 'b'], chars_of("a\u{e4}b"));
    assert_eq!(Vec::<char>::new(), chars_of(""));
}
