use tot::kv::KvParser;
use tot::record::Record;
use tot::{read_records_from_chunks, record_from_chunk, records_from_lines, Error};

fn lines_of(input: &str) -> Vec<String> {
    input.lines().map(|l| l.to_string()).collect()
}

fn read_lines(input: &str) -> Vec<Result<String, std::io::Error>> {
    input.lines().map(|l| Ok(l.to_string())).collect()
}

fn value<'a>(record: &'a Record, key: &str) -> Option<&'a str> {
    record.get(&key.to_string()).map(|v| v.as_str())
}

#[test]
fn test_record_insert_and_get() {
    let mut record = Record::new();
    assert_eq!(0, record.len());
    assert_eq!(None, value(&record, "a"));
    record.insert("a".to_string(), "1".to_string());
    record.insert("b".to_string(), "2".to_string());
    assert_eq!(2, record.len());
    assert_eq!(Some("1"), value(&record, "a"));
    assert_eq!(Some("2"), value(&record, "b"));
    assert_eq!(None, value(&record, "c"));
    record.insert("a".to_string(), "3".to_string());
    assert_eq!(2, record.len());
    assert_eq!(Some("3"), value(&record, "a"));
    assert_eq!("a", record.key_at(0));
    assert_eq!("b", record.key_at(1));
}

#[test]
fn test_trimmed_value() {
    let parser = KvParser::with_separator(":");
    let record = record_from_chunk(vec!["k: value  ".to_string()], &parser, true);
    assert_eq!(Some("value"), value(&record, "k"));
}

#[test]
fn test_untrimmed_value() {
    let parser = KvParser::with_separator(":");
    let record = record_from_chunk(vec!["k: value  ".to_string()], &parser, false);
    assert_eq!(Some(" value  "), value(&record, "k"));
}

#[test]
fn test_untrimmed_value_without_leading_space() {
    let parser = KvParser::with_separator(":");
    let record = record_from_chunk(vec!["k:value  ".to_string()], &parser, false);
    assert_eq!(Some("value  "), value(&record, "k"));
}

#[test]
fn test_long_separator_leaves_its_tail_in_the_value() {
    let parser = KvParser::with_separator(": ");
    let record = record_from_chunk(vec!["k: value  ".to_string()], &parser, false);
    assert_eq!(Some(" value  "), value(&record, "k"));
    let record = record_from_chunk(vec!["k: value  ".to_string()], &parser, true);
    assert_eq!(Some("value"), value(&record, "k"));
}

#[test]
fn test_key_is_never_trimmed() {
    let parser = KvParser::with_separator(":");
    let record = record_from_chunk(vec![" k : v ".to_string()], &parser, true);
    assert_eq!(Some("v"), value(&record, " k "));
    assert_eq!(None, value(&record, "k"));
}

#[test]
fn test_duplicate_key_last_wins() {
    let parser = KvParser::with_separator(":");
    let record = record_from_chunk(lines_of("k:1\nk:2"), &parser, false);
    assert_eq!(1, record.len());
    assert_eq!(Some("2"), value(&record, "k"));
}

#[test]
fn test_line_without_separator_is_a_key() {
    let parser = KvParser::with_separator(":");
    let record = record_from_chunk(lines_of("flag\nk:v"), &parser, false);
    assert_eq!(2, record.len());
    assert_eq!(Some(""), value(&record, "flag"));
    assert_eq!(Some("v"), value(&record, "k"));
}

#[test]
fn test_empty_chunk_gives_empty_record() {
    let parser = KvParser::with_separator(":");
    let record = record_from_chunk(Vec::new(), &parser, true);
    assert_eq!(0, record.len());
}

#[test]
fn test_records_from_lines() {
    let records = records_from_lines(lines_of("one:1\ntwo:2\nthree:3\n\none:o\ntwo:t\nthree:t"), ":", false);
    assert_eq!(2, records.len());
    assert_eq!(Some("1"), value(&records[0], "one"));
    assert_eq!(Some("3"), value(&records[0], "three"));
    assert_eq!(Some("o"), value(&records[1], "one"));
    assert_eq!(Some("t"), value(&records[1], "two"));
}

#[test]
fn test_no_lines_no_records() {
    assert_eq!(0, records_from_lines(Vec::new(), ":", true).len());
    assert_eq!(0, records_from_lines(lines_of("\n  \n\t\n"), ":", true).len());
    assert_eq!(0, read_records_from_chunks(Vec::new(), ":", true).ok().unwrap().len());
}

#[test]
fn test_blank_lines_with_whitespace_separate_records() {
    let records = records_from_lines(lines_of("a:1\n \t \n\n   \nb:2\n"), ":", true);
    assert_eq!(2, records.len());
    assert_eq!(Some("1"), value(&records[0], "a"));
    assert_eq!(None, value(&records[0], "b"));
    assert_eq!(Some("2"), value(&records[1], "b"));
}

#[test]
fn test_read_records() {
    let records = read_records_from_chunks(read_lines("name:Alice\nage:30\n\nname:Bob\nage:25\n"), ":", true)
        .ok()
        .unwrap();
    assert_eq!(2, records.len());
    assert_eq!(Some("Alice"), value(&records[0], "name"));
    assert_eq!(Some("30"), value(&records[0], "age"));
    assert_eq!(Some("Bob"), value(&records[1], "name"));
    assert_eq!(Some("25"), value(&records[1], "age"));
}

#[test]
fn test_read_failure_gives_no_records() {
    let lines = vec![
        Ok("a:1".to_string()),
        Err(std::io::Error::new(std::io::ErrorKind::InvalidData, "first")),
        Ok("b:2".to_string()),
        Err(std::io::Error::new(std::io::ErrorKind::Other, "second")),
    ];
    match read_records_from_chunks(lines, ":", false) {
        Ok(_) => panic!("a failed line must fail the input"),
        Err(Error::IoError(e)) => {
            assert_eq!(std::io::ErrorKind::InvalidData, e.kind());
            assert_eq!("first", format!("{}", e));
        }
    }
}
