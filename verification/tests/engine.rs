use kgdb::catalog::{was_there, DirEntry, Removed};
use kgdb::document::{format_id, Counter};
use kgdb::engine::{Engine, FindPlan, MAX_OFFSET};
use kgdb::error::EngineError;
use kgdb::filter::Filter;
use kgdb::insertion::{Batch, Event, Insertion, Stage};
use kgdb::sidecar::{DirFile, FileRead};
use serde_json::Value;

fn value(text: &str) -> Value {
    serde_json::from_str(text).unwrap()
}

fn filter(pairs: &[(&str, &str)]) -> Filter {
    let mut out = Filter::new();
    for (name, text) in pairs {
        out = out.with(name.to_string(), value(text));
    }
    out
}

/// Takes an insertion to its end, with `log` as the file. Returns the identifiers and the steps.
fn store(engine: &mut Engine, ins: Insertion, log: &mut Vec<u8>) -> (Vec<String>, Vec<String>) {
    let mut ins = ins;
    let mut steps = Vec::new();
    loop {
        let event = match &ins.stage {
            Stage::Open => {
                steps.push(format!("open"));
                Event::Opened(log.len() as u64)
            }
            Stage::Append(base) => {
                steps.push(format!("append {}", base));
                assert_eq!(*base, log.len() as u64);
                log.extend_from_slice(ins.batch.blob());
                Event::Appended
            }
            Stage::Sync(base) => {
                steps.push(format!("sync {}", base));
                Event::Synced
            }
            Stage::Done => return (ins.batch.ids().clone(), steps),
        };
        ins = match engine.advance(ins, event) {
            Ok(ins) => ins,
            Err(e) => panic!("{}", e.message()),
        };
    }
}

fn insert(engine: &mut Engine, db: &str, coll: &str, text: &str, log: &mut Vec<u8>) -> String {
    let ins = match engine.insert(db, coll, value(text), &mut Counter::new()) {
        Ok(ins) => ins,
        Err(e) => panic!("{}", e.message()),
    };
    store(engine, ins, log).0.remove(0)
}

fn ok<T>(res: Result<T, EngineError>) -> T {
    match res {
        Ok(t) => t,
        Err(e) => panic!("{}", e.message()),
    }
}

fn names(docs: &[Value]) -> Vec<String> {
    docs.iter().map(|d| d["name"].as_str().unwrap().to_string()).collect()
}

fn empty() -> Engine {
    Engine::new(false, &vec![])
}

fn refused_name<T>(res: Result<T, EngineError>) -> String {
    match res {
        Err(EngineError::InvalidName(name)) => name,
        _ => panic!("no name was refused"),
    }
}

#[test]
fn inserted_documents_are_read_back() {
    let mut engine = empty();
    let mut log = Vec::new();
    let id = insert(&mut engine, "mydb", "users", r#"{"name":"Alice","role":"admin"}"#, &mut log);
    assert_eq!(id.len(), 36);
    assert!(id.chars().all(|c| c.is_ascii_digit() || ('a'..='f').contains(&c)));
    assert_eq!(*log.last().unwrap(), b'\n');
    assert_eq!(log.iter().filter(|b| **b == b'\n').count(), 1);
    let docs = ok(engine.find("mydb", "users", 20, 0, None, Some(&log)));
    assert_eq!(docs.len(), 1);
    assert_eq!(docs[0]["name"], value("\"Alice\""));
    assert_eq!(docs[0]["role"], value("\"admin\""));
    assert_eq!(docs[0]["_id"].as_str().unwrap(), id);
    let ts: u128 = docs[0]["_ts"].as_str().unwrap().parse().unwrap();
    assert!(ts > 1_500_000_000_000_000_000);
    let time = u64::from_str_radix(&id[..16], 16).unwrap() as u128;
    assert!(time <= ts && ts - time < 60_000_000_000);
}

#[test]
fn insertions_open_once_and_append_at_the_end() {
    let mut engine = empty();
    let mut log = b"{\"name\":\"old\"}\n".to_vec();
    let first = ok(engine.insert("d", "c", value(r#"{"name":"a"}"#), &mut Counter::new()));
    assert!(matches!(first.stage, Stage::Open));
    let (_, steps) = store(&mut engine, first, &mut log);
    assert_eq!(steps, vec!["open".to_string(), "append 15".to_string()]);
    let end = log.len();
    let second = ok(engine.insert("d", "c", value(r#"{"name":"b"}"#), &mut Counter::new()));
    let (_, steps) = store(&mut engine, second, &mut log);
    assert_eq!(steps, vec![format!("append {}", end)]);
    let docs = ok(engine.find("d", "c", 20, 0, None, Some(&log)));
    assert_eq!(names(&docs), vec!["old", "a", "b"]);
}

#[test]
fn a_log_that_was_opened_elsewhere_keeps_its_length() {
    let mut engine = empty();
    let first = ok(engine.insert("d", "c", value("{}"), &mut Counter::new()));
    let second = ok(engine.insert("d", "c", value("{}"), &mut Counter::new()));
    assert!(matches!(second.stage, Stage::Open));
    let first = ok(engine.advance(first, Event::Opened(7)));
    assert!(matches!(first.stage, Stage::Append(7)));
    let second = ok(engine.advance(second, Event::Opened(99)));
    assert!(matches!(second.stage, Stage::Append(7)));
}

#[test]
fn syncing_engines_sync_before_they_are_done() {
    let mut engine = Engine::new(true, &vec![]);
    let mut log = Vec::new();
    assert!(ok(engine.create_index("d", "c", "k", None)).is_some());
    let ins = ok(engine.insert("d", "c", value(r#"{"name":"a","k":1}"#), &mut Counter::new()));
    let (_, steps) = store(&mut engine, ins, &mut log);
    assert_eq!(steps, vec!["open".to_string(), "append 0".to_string(), "sync 0".to_string()]);
    let f = filter(&[("k", "1")]);
    assert_eq!(names(&ok(engine.find("d", "c", 20, 0, Some(&f), Some(&log)))), vec!["a"]);
}

#[test]
fn a_failed_step_is_an_error_and_lists_nothing() {
    let mut engine = empty();
    ok(engine.create_index("d", "c", "k", None));
    let ins = ok(engine.insert("d", "c", value(r#"{"k":1}"#), &mut Counter::new()));
    let ins = ok(engine.advance(ins, Event::Opened(0)));
    let failure = std::io::Error::new(std::io::ErrorKind::Other, "disk full");
    match engine.advance(ins, Event::Failed(failure)) {
        Err(EngineError::Io(e)) => assert_eq!(format!("{}", e), "disk full"),
        _ => panic!("the failure was lost"),
    }
    let f = filter(&[("k", "1")]);
    match ok(engine.plan_find("d", "c", 20, 0, Some(&f))) {
        FindPlan::Lookup(list) => assert_eq!(list, Vec::<u64>::new()),
        FindPlan::Scan => panic!("the field is indexed"),
    }
    let again = ok(engine.insert("d", "c", value("{}"), &mut Counter::new()));
    assert!(matches!(again.stage, Stage::Append(0)));
}

#[test]
fn batches_are_read_back_in_order() {
    let mut engine = empty();
    let mut log = Vec::new();
    let docs = vec![
        value(r#"{"name":"Bob","role":"user"}"#),
        value(r#"{"name":"Carol","role":"admin"}"#),
        value(r#"{"name":"Dan","role":"admin"}"#),
    ];
    let mut counter = Counter::new();
    let ins = ok(engine.insert_many("mydb", "users", docs, &mut counter));
    let (ids, _) = store(&mut engine, ins, &mut log);
    assert_eq!(ids.len(), 3);
    assert!(ids[0] != ids[1] && ids[1] != ids[2]);
    assert_eq!(&ids[0][16..20], "0000");
    assert_eq!(&ids[1][16..20], "0001");
    assert_eq!(&ids[2][16..20], "0002");
    let found = ok(engine.find("mydb", "users", 20, 0, None, Some(&log)));
    assert_eq!(names(&found), vec!["Bob", "Carol", "Dan"]);
    for (doc, id) in found.iter().zip(ids.iter()) {
        assert_eq!(doc["_id"].as_str().unwrap(), id);
    }
    let other = empty();
    let next = ok(other.insert("else", "where", value("{}"), &mut counter));
    assert_eq!(&next.batch.ids()[0][16..20], "0003");
}

#[test]
fn an_empty_batch_is_done_whatever_the_names() {
    let mut engine = empty();
    let ins = ok(engine.insert_many("no/name", "", vec![], &mut Counter::new()));
    assert!(matches!(ins.stage, Stage::Done));
    assert_eq!(ins.batch.ids().len(), 0);
    assert_eq!(ins.batch.blob().len(), 0);
}

#[test]
fn insertions_refuse_names() {
    let mut engine = empty();
    assert_eq!(refused_name(engine.insert("a/b", "c", value("{}"), &mut Counter::new())), "a/b");
    assert_eq!(refused_name(engine.insert("a", "c.d", value("{}"), &mut Counter::new())), "c.d");
    assert_eq!(refused_name(engine.insert_many("", "c", vec![value("1")], &mut Counter::new())), "");
}

#[test]
fn long_documents_are_refused() {
    let engine = empty();
    let mut counter = Counter::new();
    let long = Value::String("x".repeat(16 * 1024 * 1024 - 2));
    let ins = ok(engine.insert("d", "c", long, &mut counter));
    assert_eq!(ins.batch.blob().len(), 16 * 1024 * 1024 + 1);
    let longer = Value::String("x".repeat(16 * 1024 * 1024 - 1));
    assert!(matches!(engine.insert("d", "c", longer, &mut counter), Err(EngineError::TooLarge)));
    let longer = Value::String("x".repeat(16 * 1024 * 1024 - 1));
    let batch = vec![value("{}"), longer, value("{}")];
    assert!(matches!(engine.insert_many("d", "c", batch, &mut counter), Err(EngineError::TooLarge)));
    let ins = ok(engine.insert("d", "c", value("{}"), &mut counter));
    assert_eq!(&ins.batch.ids()[0][16..20], "0004");
}

#[test]
fn long_batches_are_refused() {
    let mut engine = empty();
    let docs: Vec<Value> =
        (0..9).map(|_| Value::String("x".repeat(15 * 1024 * 1024))).collect();
    assert!(matches!(engine.insert_many("no/name", "c", docs, &mut Counter::new()), Err(EngineError::BatchTooLarge)));
}

#[test]
fn a_batch_can_be_made_with_given_stamps() {
    let batch = ok(Batch::new().add_with(value(r#"{"b":1,"a":[]}"#), "id1".to_string(), 42));
    let batch = ok(batch.add_with(value("7"), "id2".to_string(), 43));
    assert_eq!(
        String::from_utf8(batch.blob().clone()).unwrap(),
        "{\"_id\":\"id1\",\"_ts\":\"42\",\"a\":[],\"b\":1}\n7\n"
    );
    assert_eq!(batch.ids(), &vec!["id1".to_string(), "id2".to_string()]);
    let engine = empty();
    let ins = ok(engine.begin("d", "c", batch));
    assert!(matches!(ins.stage, Stage::Open));
}

#[test]
fn identifiers_hold_time_number_and_random_bytes() {
    assert_eq!(
        format_id(0x0196_a3f0_0e24_0042, 0x1_2abc, [0, 1, 2, 0x7f, 0x80, 0xab, 0xcd, 0xff]),
        "0196a3f00e2400422abc0001027f80abcdff"
    );
    let early = format_id(9, 0xffff, [255; 8]);
    let late = format_id(10, 0, [0; 8]);
    assert!(early < late);
    assert!(format_id(1, 2, [3; 8]) != format_id(1, 2, [4; 8]));
    assert!(format_id(1, 2, [3; 8]) != format_id(1, 3, [3; 8]));
}

#[test]
fn finding_pages_and_filters() {
    let engine = empty();
    let log = b"{\"name\":\"a\",\"k\":1}\n\n{\"name\":\"b\",\"k\":2}\n{\"name\":\"c\",\"k\":1}\n{\"name\":\"d\",\"k\":1}\n";
    let all = ok(engine.find("d", "c", 20, 0, None, Some(log)));
    assert_eq!(names(&all), vec!["a", "b", "c", "d"]);
    assert_eq!(names(&ok(engine.find("d", "c", 2, 0, None, Some(log)))), vec!["a", "b"]);
    assert_eq!(names(&ok(engine.find("d", "c", 2, 2, None, Some(log)))), vec!["c", "d"]);
    assert_eq!(names(&ok(engine.find("d", "c", 2, 3, None, Some(log)))), vec!["d"]);
    assert_eq!(ok(engine.find("d", "c", 2, 4, None, Some(log))).len(), 0);
    let f = filter(&[("k", "1")]);
    assert_eq!(names(&ok(engine.find("d", "c", 2, 1, Some(&f), Some(log)))), vec!["c", "d"]);
    let f = filter(&[("k", "1"), ("name", "\"c\"")]);
    assert_eq!(names(&ok(engine.find("d", "c", 2, 0, Some(&f), Some(log)))), vec!["c"]);
    assert_eq!(ok(engine.find("d", "c", 2, 0, None, None)).len(), 0);
}

#[test]
fn finding_refuses_offsets_before_names() {
    let engine = empty();
    assert!(matches!(
        engine.find("no/name", "c", 1, MAX_OFFSET + 1, None, None),
        Err(EngineError::OffsetTooLarge)
    ));
    assert_eq!(refused_name(engine.find("no/name", "c", 1, MAX_OFFSET, None, None)), "no/name");
    assert_eq!(refused_name(engine.find("d", "", 1, 0, None, None)), "");
    assert_eq!(ok(engine.find("d", "c", 1, MAX_OFFSET, None, None)).len(), 0);
}

#[test]
fn indexed_lookups_find_what_scans_find() {
    let mut engine = empty();
    let mut log = Vec::new();
    let texts = [
        r#"{"name":"a","type":"error","code":1}"#,
        r#"{"name":"b","type":"info","code":1}"#,
        r#"{"name":"c","type":"error","code":2}"#,
        r#"{"name":"d","type":"error","code":1}"#,
    ];
    insert(&mut engine, "mydb", "events", texts[0], &mut log);
    insert(&mut engine, "mydb", "events", texts[1], &mut log);
    ok(engine.create_index("mydb", "events", "type", Some(&log)));
    ok(engine.create_index("mydb", "events", "code", Some(&log)));
    insert(&mut engine, "mydb", "events", texts[2], &mut log);
    insert(&mut engine, "mydb", "events", texts[3], &mut log);
    let other = empty();
    let filters = vec![
        filter(&[("type", "\"error\"")]),
        filter(&[("type", "\"error\""), ("code", "1")]),
        filter(&[("type", "\"none\"")]),
        filter(&[("type", "\"error\""), ("name", "\"c\"")]),
        filter(&[]),
    ];
    for f in &filters {
        for (n, offset) in vec![(20, 0), (1, 0), (1, 1), (2, 1), (5, 9)] {
            let fast = ok(engine.find("mydb", "events", n, offset, Some(f), Some(&log)));
            let slow = ok(other.find("mydb", "events", n, offset, Some(f), Some(&log)));
            assert_eq!(fast, slow);
        }
    }
    let both = &filters[1];
    assert!(matches!(
        ok(engine.plan_find("mydb", "events", 9, 0, Some(both))),
        FindPlan::Lookup(list) if list.len() == 2
    ));
    assert!(matches!(ok(engine.plan_find("mydb", "events", 9, 0, Some(&filters[3]))), FindPlan::Scan));
    assert!(matches!(ok(engine.plan_find("mydb", "events", 9, 0, Some(&filters[4]))), FindPlan::Scan));
    assert!(matches!(ok(engine.plan_find("mydb", "events", 9, 0, None)), FindPlan::Scan));
    assert!(matches!(ok(engine.plan_find("mydb", "other", 9, 0, Some(both))), FindPlan::Scan));
}

#[test]
fn batches_are_listed_in_the_indexes() {
    let mut engine = empty();
    let mut log = b"{\"k\":\"x\"}\n".to_vec();
    ok(engine.create_index("d", "c", "k", Some(&log)));
    let docs = vec![value(r#"{"k":"y"}"#), value("[1]"), value(r#"{"k":"x","n":0}"#)];
    let ins = ok(engine.insert_many("d", "c", docs, &mut Counter::new()));
    store(&mut engine, ins, &mut log);
    let lines: Vec<usize> = std::iter::once(0)
        .chain(log.iter().enumerate().filter(|(_, b)| **b == b'\n').map(|(i, _)| i + 1))
        .collect();
    let f = filter(&[("k", "\"x\"")]);
    match ok(engine.plan_find("d", "c", 20, 0, Some(&f))) {
        FindPlan::Lookup(list) => assert_eq!(list, vec![0, lines[3] as u64]),
        FindPlan::Scan => panic!("the field is indexed"),
    }
}

#[test]
fn the_tail_is_the_last_documents() {
    let engine = empty();
    let log = b"{\"name\":\"a\",\"k\":1}\n{\"name\":\"b\",\"k\":2}\n{\"name\":\"c\",\"k\":1}\n";
    assert_eq!(names(&ok(engine.tail("d", "c", 2, None, Some(log)))), vec!["b", "c"]);
    assert_eq!(names(&ok(engine.tail("d", "c", 9, None, Some(log)))), vec!["a", "b", "c"]);
    let none = filter(&[]);
    assert_eq!(names(&ok(engine.tail("d", "c", 1, Some(&none), Some(log)))), vec!["c"]);
    let f = filter(&[("k", "1")]);
    assert_eq!(names(&ok(engine.tail("d", "c", 1, Some(&f), Some(log)))), vec!["c"]);
    assert_eq!(names(&ok(engine.tail("d", "c", 5, Some(&f), Some(log)))), vec!["a", "c"]);
    assert_eq!(ok(engine.tail("d", "c", 5, None, None)).len(), 0);
    assert_eq!(refused_name(engine.tail("d", "c!", 5, None, None)), "c!");
    assert!(matches!(
        engine.tail("d", "c", 5, Some(&f), Some(b"{}\nnope\n")),
        Err(EngineError::Json(_))
    ));
}

#[test]
fn blank_lines_are_no_documents() {
    let engine = empty();
    let log = b"{\"name\":\"a\"}\n{\"name\":\"b\"}\n\n \t\n{\"name\":\"c\"}";
    assert_eq!(names(&ok(engine.tail("d", "c", 1, None, Some(log)))), vec!["c"]);
    assert_eq!(names(&ok(engine.tail("d", "c", 2, None, Some(log)))), vec!["b", "c"]);
    assert_eq!(names(&ok(engine.tail("d", "c", 9, None, Some(log)))), vec!["a", "b", "c"]);
    assert_eq!(ok(engine.tail("d", "c", 0, None, Some(log))).len(), 0);
    assert_eq!(ok(engine.stats("d", "c", Some(log))).count, 3);
    let two = b"{\"a\":1}\n\n{\"a\":2}\n";
    assert_eq!(ok(engine.tail("d", "c", 1, None, Some(two))), vec![value("{\"a\":2}")]);
    assert!(matches!(
        engine.tail("d", "c", 1, None, Some(b"nope\n{}\n")),
        Err(EngineError::Json(_))
    ));
}

#[test]
fn the_tail_is_the_last_page_of_what_is_found() {
    let mut engine = empty();
    let log: Vec<u8> = (0..9)
        .flat_map(|i| format!("{{\"name\":\"{}\",\"k\":{}}}\n\n", i, i % 2).into_bytes())
        .collect();
    let f = filter(&[("k", "0")]);
    for indexed in vec![false, true] {
        if indexed {
            ok(engine.create_index("d", "c", "k", Some(&log)));
        }
        for n in 1..=5 {
            assert_eq!(
                ok(engine.tail("d", "c", n, Some(&f), Some(&log))),
                ok(engine.find("d", "c", n, 5 - n, Some(&f), Some(&log)))
            );
        }
        for n in 1..=9 {
            assert_eq!(
                ok(engine.tail("d", "c", n, None, Some(&log))),
                ok(engine.find("d", "c", n, 9 - n, None, Some(&log)))
            );
        }
    }
}

#[test]
fn the_tail_gives_back_an_insertion() {
    let mut engine = empty();
    let mut log = b"{\"name\":\"old\"}\n".to_vec();
    let docs = vec![value(r#"{"name":"a"}"#), value(r#"{"name":"b"}"#)];
    let ins = ok(engine.insert_many("d", "c", docs, &mut Counter::new()));
    store(&mut engine, ins, &mut log);
    assert_eq!(names(&ok(engine.tail("d", "c", 2, None, Some(&log)))), vec!["a", "b"]);
}

#[test]
fn stats_count_lines_and_bytes() {
    let engine = empty();
    let stats = ok(engine.stats("d", "c", Some(b"{}\n{}\n[]")));
    assert!(stats.exists);
    assert_eq!(stats.count, 3);
    assert_eq!(stats.size_bytes, 8);
    assert_eq!(ok(engine.stats("d", "c", Some(b"{}\n\xff\n\n"))).count, 2);
    let stats = ok(engine.stats("d", "c", None));
    assert!(!stats.exists);
    assert_eq!(stats.count, 0);
    assert_eq!(stats.size_bytes, 0);
    assert_eq!(refused_name(engine.stats("..", "c", None)), "..");
}

#[test]
fn indexes_are_created_listed_and_dropped() {
    let mut engine = empty();
    let log = b"{\"role\":\"admin\"}\n";
    let update = ok(engine.create_index("mydb", "users", "role", Some(log))).unwrap();
    assert_eq!(update.path.dir, "mydb");
    assert_eq!(update.path.file, "users.index.json");
    assert_eq!(update.content.as_deref(), Some("{\"fields\":[\"role\"]}"));
    assert!(ok(engine.create_index("mydb", "users", "role", Some(log))).is_none());
    let update = ok(engine.create_index("mydb", "users", "email", Some(log))).unwrap();
    assert_eq!(update.content.as_deref(), Some("{\"fields\":[\"email\",\"role\"]}"));
    assert_eq!(ok(engine.list_indexes("mydb", "users")), vec!["email", "role"]);
    assert!(ok(engine.is_indexed("mydb", "users", "role")));
    assert!(!ok(engine.is_indexed("mydb", "users", "name")));
    assert!(!ok(engine.is_indexed("mydb", "other", "role")));
    let (existed, update) = ok(engine.drop_index("mydb", "users", "role"));
    assert!(existed);
    assert_eq!(update.content.as_deref(), Some("{\"fields\":[\"email\"]}"));
    let (existed, _) = ok(engine.drop_index("mydb", "users", "role"));
    assert!(!existed);
    let (existed, update) = ok(engine.drop_index("mydb", "users", "email"));
    assert!(existed);
    assert_eq!(update.content, None);
    assert_eq!(update.path.file, "users.index.json");
    assert_eq!(ok(engine.list_indexes("mydb", "users")), Vec::<String>::new());
    let (existed, update) = ok(engine.drop_index("mydb", "none", "x"));
    assert!(!existed && update.content.is_none());
}

#[test]
fn index_calls_refuse_names() {
    let mut engine = empty();
    assert_eq!(refused_name(engine.create_index("a b", "c", "f", None)), "a b");
    assert_eq!(refused_name(engine.create_index("a", "c/", "f", None)), "c/");
    assert_eq!(refused_name(engine.create_index("a", "c", "f.g", None)), "f.g");
    assert_eq!(refused_name(engine.drop_index("a", "c", "")), "");
    assert_eq!(refused_name(engine.list_indexes("a", "$")), "$");
    assert_eq!(refused_name(engine.is_indexed("a", "c", "*")), "*");
}

#[test]
fn a_log_that_is_no_text_is_not_indexed() {
    let mut engine = empty();
    assert!(matches!(
        engine.create_index("d", "c", "k", Some(b"{\"k\":1}\n\xff\n")),
        Err(EngineError::Io(_))
    ));
    assert_eq!(ok(engine.list_indexes("d", "c")).len(), 0);
    assert!(ok(engine.create_index("d", "c", "k", Some(b"{\"k\":1}\nnope\n"))).is_some());
}

#[test]
fn indexes_survive_a_restart() {
    let mut engine = empty();
    let mut log = Vec::new();
    insert(&mut engine, "mydb", "users", r#"{"name":"a","role":"admin"}"#, &mut log);
    insert(&mut engine, "mydb", "users", r#"{"name":"b","role":"user"}"#, &mut log);
    let update = ok(engine.create_index("mydb", "users", "role", Some(&log))).unwrap();
    insert(&mut engine, "mydb", "users", r#"{"name":"c","role":"admin"}"#, &mut log);
    let files = vec![DirFile {
        db: update.path.dir.clone(),
        file: update.path.file.clone(),
        content: update.content.clone(),
        data: FileRead::Bytes(log.clone()),
    }];
    let again = Engine::new(false, &files);
    assert_eq!(ok(again.list_indexes("mydb", "users")), vec!["role"]);
    let f = filter(&[("role", "\"admin\"")]);
    assert!(matches!(
        ok(again.plan_find("mydb", "users", 20, 0, Some(&f))),
        FindPlan::Lookup(list) if list.len() == 2
    ));
    assert_eq!(names(&ok(again.find("mydb", "users", 20, 0, Some(&f), Some(&log)))), vec!["a", "c"]);
}

#[test]
fn files_that_are_no_sidecars_are_passed_over() {
    let file = |name: &str, content: Option<&str>, data: FileRead| DirFile {
        db: "d".to_string(),
        file: name.to_string(),
        content: content.map(|s| s.to_string()),
        data,
    };
    let good = "{\"fields\":[\"k\",7,\"l\"]}";
    let files = vec![
        file("a.ndjson", Some(good), FileRead::Missing),
        file("b.index.json", None, FileRead::Missing),
        file("c.index.json", Some("nope"), FileRead::Missing),
        file("e.index.json", Some("{\"fields\":3}"), FileRead::Missing),
        file("f.index.json", Some(good), FileRead::Missing),
        file("g.index.json", Some(good), FileRead::Failed),
        file("h.index.json", Some(good), FileRead::Bytes(vec![0xff])),
    ];
    let engine = Engine::new(false, &files);
    for coll in vec!["a", "b", "c", "e", "g", "h"] {
        assert_eq!(ok(engine.list_indexes("d", coll)).len(), 0);
    }
    assert_eq!(ok(engine.list_indexes("d", "f")), vec!["k", "l"]);
}

#[test]
fn databases_and_collections_are_listed_sorted() {
    let engine = empty();
    let entry = |name: &str, is_dir: bool| DirEntry { name: name.to_string(), is_dir };
    let entries = vec![entry("b", true), entry("file", false), entry("B", true), entry("a", true)];
    assert_eq!(engine.list_databases(&entries), vec!["B", "a", "b"]);
    let files: Vec<String> = ["users.ndjson", "users.index.json", "events.ndjson", "x.txt"]
        .iter()
        .map(|s| s.to_string())
        .collect();
    assert_eq!(ok(engine.list_collections("mydb", Some(&files))), vec!["events", "users"]);
    assert_eq!(ok(engine.list_collections("mydb", None)), Vec::<String>::new());
    assert_eq!(refused_name(engine.list_collections("my.db", None)), "my.db");
}

#[test]
fn dropping_a_collection_spares_others() {
    let mut engine = empty();
    let mut log = Vec::new();
    insert(&mut engine, "d", "c", r#"{"k":1}"#, &mut log);
    let mut other = Vec::new();
    insert(&mut engine, "d", "o", r#"{"k":1}"#, &mut other);
    ok(engine.create_index("d", "c", "k", Some(&log)));
    ok(engine.create_index("d", "o", "k", Some(&other)));
    let removal = ok(engine.drop_collection("d", "c"));
    assert_eq!(removal.sidecar.dir, "d");
    assert_eq!(removal.sidecar.file, "c.index.json");
    assert_eq!(removal.log.dir, "d");
    assert_eq!(removal.log.file, "c.ndjson");
    assert_eq!(ok(engine.list_indexes("d", "c")).len(), 0);
    assert_eq!(ok(engine.list_indexes("d", "o")), vec!["k"]);
    assert!(matches!(ok(engine.insert("d", "c", value("{}"), &mut Counter::new())).stage, Stage::Open));
    assert!(matches!(ok(engine.insert("d", "o", value("{}"), &mut Counter::new())).stage, Stage::Append(_)));
    assert_eq!(refused_name(engine.drop_collection("d", "o/..")), "o/..");
    assert_eq!(refused_name(engine.drop_collection("..", "o/..")), "..");
    assert_eq!(ok(engine.list_indexes("d", "o")), vec!["k"]);
}

#[test]
fn names_that_are_none_drop_nothing() {
    let files = vec![DirFile {
        db: "..".to_string(),
        file: "c.index.json".to_string(),
        content: Some("{\"fields\":[\"k\"]}".to_string()),
        data: FileRead::Missing,
    }];
    let mut engine = Engine::new(false, &files);
    assert_eq!(refused_name(engine.drop_collection("..", "c")), "..");
}

#[test]
fn removals_say_whether_the_file_was_there() {
    assert!(ok(was_there(Removed::Gone)));
    assert!(!ok(was_there(Removed::Missing)));
    let failure = std::io::Error::new(std::io::ErrorKind::Other, "busy");
    match was_there(Removed::Failed(failure)) {
        Err(EngineError::Io(e)) => assert_eq!(format!("{}", e), "busy"),
        _ => panic!("the failure was lost"),
    }
}

#[test]
fn dropping_a_database_spares_others() {
    let mut engine = empty();
    for db in vec!["d", "e"] {
        let mut log = Vec::new();
        insert(&mut engine, db, "c", r#"{"k":1}"#, &mut log);
        ok(engine.create_index(db, "c", "k", Some(&log)));
    }
    let files: Vec<String> = ["c.ndjson", "c.index.json", "note.txt", "x.ndjson"]
        .iter()
        .map(|s| s.to_string())
        .collect();
    let removal = ok(engine.drop_database("d", Some(&files))).unwrap();
    assert_eq!(removal.count, 2);
    let list: Vec<(String, bool)> =
        removal.files.iter().map(|r| (r.file.clone(), r.is_log)).collect();
    assert_eq!(
        list,
        vec![
            ("c.ndjson".to_string(), true),
            ("c.index.json".to_string(), false),
            ("x.ndjson".to_string(), true),
        ]
    );
    assert_eq!(ok(engine.list_indexes("d", "c")).len(), 0);
    assert_eq!(ok(engine.list_indexes("e", "c")), vec!["k"]);
    assert!(matches!(ok(engine.insert("d", "c", value("{}"), &mut Counter::new())).stage, Stage::Open));
    assert!(matches!(ok(engine.insert("e", "c", value("{}"), &mut Counter::new())).stage, Stage::Append(_)));
    assert!(ok(engine.drop_database("e", None)).is_none());
    assert_eq!(ok(engine.list_indexes("e", "c")), vec!["k"]);
    assert_eq!(refused_name(engine.drop_database("a/b", None)), "a/b");
}

#[test]
fn logs_are_where_they_belong() {
    let engine = empty();
    let path = ok(engine.coll_path("mydb", "users"));
    assert_eq!(path.dir, "mydb");
    assert_eq!(path.file, "users.ndjson");
    assert_eq!(refused_name(engine.coll_path("..", "users")), "..");
}

#[test]
fn a_batch_is_stored_as_its_parts() {
    let add = |batch: Batch, text: &str, id: &str| ok(batch.add_with(value(text), id.to_string(), 5));
    let both = add(add(Batch::new(), "{\"k\":1}", "x"), "{\"k\":1,\"l\":2}", "y");
    let first = add(Batch::new(), "{\"k\":1}", "x");
    let second = add(Batch::new(), "{\"k\":1,\"l\":2}", "y");
    let mut engines = vec![empty(), empty()];
    let mut logs = vec![Vec::new(), Vec::new()];
    for engine in engines.iter_mut() {
        ok(engine.create_index("d", "c", "k", None));
    }
    let ins = ok(engines[0].begin("d", "c", both));
    store(&mut engines[0], ins, &mut logs[0]);
    for batch in vec![first, second] {
        let ins = ok(engines[1].begin("d", "c", batch));
        store(&mut engines[1], ins, &mut logs[1]);
    }
    assert_eq!(logs[0], logs[1]);
    let f = filter(&[("k", "1")]);
    for engine in &engines {
        match ok(engine.plan_find("d", "c", 20, 0, Some(&f))) {
            FindPlan::Lookup(list) => assert_eq!(list, vec![0, 28]),
            FindPlan::Scan => panic!("the field is indexed"),
        }
    }
}

#[test]
fn pages_follow_each_other() {
    let engine = empty();
    let log: Vec<u8> = (0..10).flat_map(|i| format!("{{\"name\":\"{}\"}}\n", i).into_bytes()).collect();
    let mut paged = ok(engine.find("d", "c", 3, 2, None, Some(&log)));
    paged.extend(ok(engine.find("d", "c", 4, 5, None, Some(&log))));
    assert_eq!(paged, ok(engine.find("d", "c", 7, 2, None, Some(&log))));
    assert_eq!(names(&paged), vec!["2", "3", "4", "5", "6", "7", "8"]);
}

#[test]
fn given_identifiers_are_replaced() {
    let mut engine = empty();
    let mut log = Vec::new();
    let id = insert(&mut engine, "d", "c", r#"{"_id":"mine","_ts":0,"name":"a"}"#, &mut log);
    let docs = ok(engine.find("d", "c", 1, 0, None, Some(&log)));
    assert_eq!(docs[0]["_id"].as_str(), Some(id.as_str()));
    assert!(docs[0]["_ts"].is_string());
    assert_eq!(docs[0].as_object().unwrap().len(), 3);
}

#[test]
fn deep_documents_are_read_back_up_to_a_depth() {
    let nested = |depth: usize| {
        let mut v = Value::Array(vec![]);
        for _ in 1..depth {
            v = Value::Array(vec![v]);
        }
        v
    };
    let mut engine = empty();
    let mut log = Vec::new();
    let ins = ok(engine.insert("d", "c", nested(127), &mut Counter::new()));
    store(&mut engine, ins, &mut log);
    assert_eq!(ok(engine.find("d", "c", 1, 0, None, Some(&log))), vec![nested(127)]);
    let ins = ok(engine.insert("d", "c", nested(128), &mut Counter::new()));
    store(&mut engine, ins, &mut log);
    assert!(matches!(
        engine.find("d", "c", 9, 0, None, Some(&log)),
        Err(EngineError::Json(_))
    ));
}

#[test]
fn text_of_every_kind_is_read_back() {
    let mut engine = empty();
    let mut log = Vec::new();
    let text = r#"{"a":"line\nbreak\u0000 \"q\" é数😀","b":[-9223372036854775808,18446744073709551615,true,null]}"#;
    insert(&mut engine, "d", "c", text, &mut log);
    let docs = ok(engine.find("d", "c", 1, 0, None, Some(&log)));
    assert_eq!(docs[0]["a"], value(text)["a"]);
    assert_eq!(docs[0]["b"], value(text)["b"]);
}

#[test]
fn offsets_come_in_order_and_once() {
    let mut engine = empty();
    let log = b"{\"k\":1}\n \n{\"k\":1}\n";
    ok(engine.create_index("d", "c", "k", Some(log)));
    let ins = ok(engine.insert("d", "c", value("{\"k\":1}"), &mut Counter::new()));
    let ins = ok(engine.advance(ins, Event::Opened(5)));
    ok(engine.advance(ins, Event::Appended));
    let f = filter(&[("k", "1")]);
    match ok(engine.plan_find("d", "c", 20, 0, Some(&f))) {
        FindPlan::Lookup(list) => assert_eq!(list, vec![0, 5, 10]),
        FindPlan::Scan => panic!("the field is indexed"),
    }
    ok(engine.drop_collection("d", "c"));
    ok(engine.create_index("d", "c", "k", Some(log)));
    let ins = ok(engine.insert("d", "c", value("{\"k\":1}"), &mut Counter::new()));
    let ins = ok(engine.advance(ins, Event::Opened(10)));
    ok(engine.advance(ins, Event::Appended));
    match ok(engine.plan_find("d", "c", 20, 0, Some(&f))) {
        FindPlan::Lookup(list) => assert_eq!(list, vec![0, 10]),
        FindPlan::Scan => panic!("the field is indexed"),
    }
}

#[test]
fn an_index_changes_nothing_that_is_found() {
    let log = b"{\"name\":\"a\",\"k\":-0.0}\n{\"name\":\"b\",\"k\":0.0}\n{\"name\":\"c\",\"k\":0}\n{\"name\":\"d\",\"k\":[{\"x\":-0.0}]}\n{\"name\":\"e\",\"k\":1.5}\n";
    let plain = empty();
    let mut engine = empty();
    ok(engine.create_index("d", "c", "k", Some(log)));
    let cases = vec![
        ("0.0", vec!["a", "b"], false),
        ("-0.0", vec!["a", "b"], false),
        ("0", vec!["c"], true),
        ("[{\"x\":0.0}]", vec!["d"], false),
        ("1.5", vec!["e"], true),
        ("\"0.0\"", vec![], true),
    ];
    for (text, expected, looks_up) in cases {
        let f = filter(&[("k", text)]);
        assert_eq!(names(&ok(plain.find("d", "c", 9, 0, Some(&f), Some(log)))), expected);
        assert_eq!(names(&ok(engine.find("d", "c", 9, 0, Some(&f), Some(log)))), expected);
        let plan = ok(engine.plan_find("d", "c", 9, 0, Some(&f)));
        assert_eq!(matches!(plan, FindPlan::Lookup(_)), looks_up);
    }
}

#[test]
fn a_lookup_passes_over_lines_that_a_scan_cannot_read() {
    let log = b"{\"k\":1}\nnope\n";
    let plain = empty();
    let mut engine = empty();
    ok(engine.create_index("d", "c", "k", Some(log)));
    let f = filter(&[("k", "1")]);
    assert_eq!(ok(engine.find("d", "c", 2, 0, Some(&f), Some(log))).len(), 1);
    assert!(matches!(
        plain.find("d", "c", 2, 0, Some(&f), Some(log)),
        Err(EngineError::Json(_))
    ));
    assert_eq!(ok(plain.find("d", "c", 1, 0, Some(&f), Some(log))).len(), 1);
}

#[test]
fn indexes_persist_through_a_run_of_calls() {
    let mut engine = empty();
    let mut log = Vec::new();
    let mut sidecar = None;
    for (text, field) in vec![("{\"k\":1,\"l\":2}", "l"), ("{\"k\":2}", "k"), ("[0]", "m")] {
        insert(&mut engine, "d", "c", text, &mut log);
        sidecar = ok(engine.create_index("d", "c", field, Some(&log))).unwrap().content;
    }
    assert_eq!(sidecar.as_deref(), Some("{\"fields\":[\"k\",\"l\",\"m\"]}"));
    sidecar = ok(engine.drop_index("d", "c", "m")).1.content;
    insert(&mut engine, "d", "c", "{\"k\":1}", &mut log);
    let files = vec![DirFile {
        db: "d".to_string(),
        file: "c.index.json".to_string(),
        content: sidecar,
        data: FileRead::Bytes(log.clone()),
    }];
    let fresh = Engine::new(false, &files);
    assert_eq!(ok(fresh.list_indexes("d", "c")), ok(engine.list_indexes("d", "c")));
    for (field, text) in vec![("k", "1"), ("k", "2"), ("l", "2"), ("l", "9")] {
        let f = filter(&[(field, text)]);
        let offsets = |e: &Engine| match ok(e.plan_find("d", "c", 9, 0, Some(&f))) {
            FindPlan::Lookup(list) => list,
            FindPlan::Scan => panic!("the field is indexed"),
        };
        assert_eq!(offsets(&fresh), offsets(&engine));
    }
}

#[test]
fn running_numbers_start_again_after_the_last() {
    let engine = empty();
    let mut counter = Counter::new();
    let many = |n: usize| vec![Value::Null; n];
    ok(engine.insert_many("d", "c", many(0xffff), &mut counter));
    let last = ok(engine.insert_many("d", "c", many(2), &mut counter));
    assert_eq!(&last.batch.ids()[0][16..20], "ffff");
    assert_eq!(&last.batch.ids()[1][16..20], "0000");
}

#[test]
fn a_torn_line_spoils_no_other() {
    let mut engine = empty();
    let mut log = b"{\"name\":\"a\"}\n{\"name\":\"b\"}\n{\"na".to_vec();
    insert(&mut engine, "d", "c", "{\"name\":\"c\"}", &mut log);
    assert_eq!(names(&ok(engine.find("d", "c", 2, 0, None, Some(&log)))), vec!["a", "b"]);
    assert!(matches!(engine.find("d", "c", 3, 0, None, Some(&log)), Err(EngineError::Json(_))));
    insert(&mut engine, "d", "c", "{\"name\":\"d\",\"k\":1}", &mut log);
    ok(engine.create_index("d", "c", "k", Some(&log)));
    let f = filter(&[("k", "1")]);
    assert_eq!(names(&ok(engine.find("d", "c", 9, 0, Some(&f), Some(&log)))), vec!["d"]);
}

#[test]
fn indexes_follow_documents_with_floats_in_other_fields() {
    let mut engine = empty();
    let mut log = Vec::new();
    ok(engine.create_index("d", "c", "k", None));
    insert(&mut engine, "d", "c", "{\"name\":\"a\",\"k\":1,\"x\":0.1}", &mut log);
    insert(&mut engine, "d", "c", "{\"name\":\"b\",\"k\":1,\"x\":1e300}", &mut log);
    let mut fresh = empty();
    ok(fresh.create_index("d", "c", "k", Some(&log)));
    let f = filter(&[("k", "1")]);
    let offsets = |e: &Engine| match ok(e.plan_find("d", "c", 9, 0, Some(&f))) {
        FindPlan::Lookup(list) => list,
        FindPlan::Scan => panic!("the field is indexed"),
    };
    assert_eq!(offsets(&fresh), offsets(&engine));
}
