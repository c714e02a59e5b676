use tot::columns::{
    get_all_key_names, get_first_keys, get_ordered_keys, header_line, record_line, record_lines,
};
use tot::{read_records_from_chunks, records_from_lines};

fn strings(items: &[&str]) -> Vec<String> {
    items.iter().map(|s| s.to_string()).collect()
}

fn lines_of(input: &str) -> Vec<String> {
    input.lines().map(|l| l.to_string()).collect()
}

#[test]
fn test_first_keys_of_empty_list() {
    assert_eq!(Vec::<String>::new(), get_first_keys(""));
}

#[test]
fn test_first_keys() {
    assert_eq!(strings(&["first", "second", "third"]), get_first_keys("first,second,third"));
    assert_eq!(strings(&["one"]), get_first_keys("one"));
    assert_eq!(strings(&["", ""]), get_first_keys(","));
    assert_eq!(strings(&["a", "", "b", ""]), get_first_keys("a,,b,"));
    assert_eq!(strings(&[" a ", "\u{e4}"]), get_first_keys(" a ,\u{e4}"));
}

#[test]
fn test_ordered_keys() {
    let keys = get_ordered_keys(&strings(&["b", "a"]), &strings(&["a", "b", "c"]));
    assert_eq!(strings(&["b", "a", "c"]), keys);
}

#[test]
fn test_ordered_keys_without_first_keys() {
    let keys = get_ordered_keys(&Vec::new(), &strings(&["x", "y", "z"]));
    assert_eq!(strings(&["x", "y", "z"]), keys);
}

#[test]
fn test_ordered_keys_keep_absent_first_keys() {
    let keys = get_ordered_keys(&strings(&["id", "b"]), &strings(&["a", "b"]));
    assert_eq!(strings(&["id", "b", "a"]), keys);
}

#[test]
fn test_ordered_keys_repeated_first_key() {
    let keys = get_ordered_keys(&strings(&["b", "a", "b"]), &strings(&["a", "c"]));
    assert_eq!(strings(&["b", "a", "c"]), keys);
}

#[test]
fn test_all_key_names_first_seen_order() {
    let records = records_from_lines(lines_of("b:1\na:2\n\nc:3\na:4\nd:5\n\nb:6\ne:7"), ":", false);
    assert_eq!(strings(&["b", "a", "c", "d", "e"]), get_all_key_names(&records));
    assert_eq!(Vec::<String>::new(), get_all_key_names(&Vec::new()));
}

#[test]
fn test_header_line() {
    assert_eq!("a\tb\tc", header_line(&strings(&["a", "b", "c"]), "\t"));
    assert_eq!("a", header_line(&strings(&["a"]), "\t"));
    assert_eq!("", header_line(&Vec::new(), "\t"));
    assert_eq!("a, b", header_line(&strings(&["a", "b"]), ", "));
    assert_eq!("\t", header_line(&strings(&["", ""]), "\t"));
}

#[test]
fn test_record_line_fills_missing_values() {
    let records = records_from_lines(lines_of("a:1\nc:3"), ":", false);
    let keys = strings(&["a", "b", "c"]);
    assert_eq!("1;;3", record_line(&keys, &records[0], ";"));
    assert_eq!("", record_line(&Vec::new(), &records[0], ";"));
}

#[test]
fn test_round_trip() {
    let input = "name:Alice\nage:30\n\nname:Bob\nage:25\n";
    let lines: Vec<Result<String, std::io::Error>> =
        input.lines().map(|l| Ok(l.to_string())).collect();
    let records = read_records_from_chunks(lines, ":", true).ok().unwrap();
    assert_eq!(2, records.len());
    let union = get_all_key_names(&records);
    let mut sorted = union.clone();
    sorted.sort();
    assert_eq!(strings(&["age", "name"]), sorted);
    let keys = get_ordered_keys(&get_first_keys(""), &union);
    assert_eq!(strings(&["name", "age"]), keys);
    assert_eq!("name\tage", header_line(&keys, "\t"));
    let rows = record_lines(&keys, &records, "\t");
    assert_eq!(strings(&["Alice\t30", "Bob\t25"]), rows);
}

#[test]
fn test_round_trip_with_first_keys() {
    let records = records_from_lines(lines_of("name: Alice\nage: 30\n\nname: Bob\ncity: Ulm\n"), ":", true);
    let keys = get_ordered_keys(&get_first_keys("age,id"), &get_all_key_names(&records));
    assert_eq!(strings(&["age", "id", "name", "city"]), keys);
    assert_eq!("age,id,name,city", header_line(&keys, ","));
    assert_eq!(strings(&["30,,Alice,", ",,Bob,Ulm"]), record_lines(&keys, &records, ","));
}
