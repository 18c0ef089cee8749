use kgdb::error::EngineError;
use kgdb::filter::Filter;
use kgdb::log::{build_field_index, count_lines, read_at_offsets, read_lines, scan};
use serde_json::Value;

fn value(text: &str) -> Value {
    serde_json::from_str(text).unwrap()
}

fn ok<T>(res: Result<T, EngineError>) -> T {
    match res {
        Ok(t) => t,
        Err(e) => panic!("{}", e.message()),
    }
}

fn values(texts: &[&str]) -> Vec<Value> {
    texts.iter().map(|t| value(t)).collect()
}

#[test]
fn scans_skip_blank_lines_and_trim() {
    let log = "\n  {\"a\":1}\t\r\n\u{3000}\n\u{85}[2]\u{2028}\n3".as_bytes();
    assert_eq!(ok(scan(Some(log), None, 0, None)), values(&["{\"a\":1}", "[2]", "3"]));
}

#[test]
fn a_scan_with_no_limit_left_takes_one() {
    let log = b"1\n2\n3\n";
    assert_eq!(ok(scan(Some(log), Some(0), 0, None)), values(&["1"]));
    assert_eq!(ok(scan(Some(log), Some(1), 0, None)), values(&["1"]));
    assert_eq!(ok(scan(Some(log), Some(2), 1, None)), values(&["2", "3"]));
}

#[test]
fn scans_report_lines_that_cannot_be_read() {
    assert!(matches!(scan(Some(b"1\n{\n2\n"), None, 0, None), Err(EngineError::Json(_))));
    assert!(matches!(scan(Some(b"1\n\xff\n2\n"), None, 0, None), Err(EngineError::Io(_))));
    assert_eq!(ok(scan(Some(b"1\n{\n2\n"), Some(1), 0, None)), values(&["1"]));
    assert_eq!(ok(scan(None, None, 0, None)), values(&[]));
}

#[test]
fn filters_compare_fields_of_objects() {
    let one = Filter::new().with("a".to_string(), value("1"));
    assert!(one.matches_filter(&value("{\"a\":1,\"b\":2}")));
    assert!(!one.matches_filter(&value("{\"a\":1.0}")));
    assert!(!one.matches_filter(&value("{\"b\":1}")));
    assert!(!one.matches_filter(&value("[1]")));
    let zero = Filter::new().with("a".to_string(), value("0.0"));
    assert!(zero.matches_filter(&value("{\"a\":-0.0}")));
    let nested = Filter::new().with("a".to_string(), value("{\"x\":[1,null]}"));
    assert!(nested.matches_filter(&value("{\"a\":{\"x\":[1,null]}}")));
    assert!(!nested.matches_filter(&value("{\"a\":{\"x\":[1]}}")));
    let none = Filter::new();
    assert!(none.is_empty());
    assert!(none.matches_filter(&value("{}")));
    assert!(!none.matches_filter(&value("null")));
    let again = one.with("a".to_string(), value("2"));
    assert!(!again.is_empty());
    assert!(again.matches_filter(&value("{\"a\":2}")));
    assert!(!again.matches_filter(&value("{\"a\":1}")));
}

#[test]
fn lines_are_read_at_offsets() {
    let log = b"{\"k\":1}\n\n{\"k\":2}\n";
    assert_eq!(ok(read_at_offsets(Some(log), &vec![9, 0])), values(&["{\"k\":2}", "{\"k\":1}"]));
    assert_eq!(ok(read_at_offsets(Some(log), &vec![8, 17, 1000])), values(&[]));
    assert_eq!(ok(read_at_offsets(Some(log), &vec![])), values(&[]));
    assert_eq!(ok(read_at_offsets(None, &vec![0])), values(&[]));
    assert!(matches!(read_at_offsets(Some(log), &vec![1]), Err(EngineError::Json(_))));
    assert!(matches!(read_at_offsets(Some(b"\xff\n"), &vec![0]), Err(EngineError::Io(_))));
    let lines = vec![b"1".to_vec(), b"".to_vec(), b"2\n".to_vec()];
    assert_eq!(ok(read_lines(&lines)), values(&["1", "2"]));
}

#[test]
fn lines_that_are_not_blank_are_counted() {
    assert_eq!(count_lines(Some(b"")), 0);
    assert_eq!(count_lines(Some(b"a")), 1);
    assert_eq!(count_lines(Some(b"a\n\nb\nc")), 3);
    assert_eq!(count_lines(Some(b"\n \n\xff\n\t")), 1);
    assert_eq!(count_lines(None), 0);
}

#[test]
fn field_indexes_list_where_documents_start() {
    let log = b"{\"k\":\"x\"}\n{\"k\":{\"b\":1,\"a\":2}}\nnope\n[1]\n{\"k\":\"x\"}\n{\"l\":0}\n";
    let index = ok(build_field_index(Some(log), "k"));
    assert_eq!(index.len(), 2);
    assert_eq!(index.get("\"x\"").unwrap().value(), &vec![0, 39]);
    assert_eq!(index.get("{\"a\":2,\"b\":1}").unwrap().value(), &vec![10]);
    assert_eq!(ok(build_field_index(None, "k")).len(), 0);
    assert!(matches!(build_field_index(Some(b"\xc3\n"), "k"), Err(EngineError::Io(_))));
}
