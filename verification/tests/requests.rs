use kgdb::auth::{bearer_token, ct_eq, extract_db, percent_decode, token_db, AuthConfig};
use kgdb::catalog::sidecar_collection;
use kgdb::error::{with_cause, EngineError};
use kgdb::filter::Filter;
use kgdb::name::validate_name;
use kgdb::query::{
    batch_documents, check_document, default_n, parse_filter, parse_post_body, query_body,
    query_params, value_filter, Refusal,
};
use kgdb::sidecar::{sidecar_fields, value_fields};
use serde_json::Value;

fn value(text: &str) -> Value {
    serde_json::from_str(text).unwrap()
}

fn config(global: Option<&str>, vars: &[(&str, &str)]) -> AuthConfig {
    let vars = vars.iter().map(|(k, v)| (k.to_string(), v.to_string())).collect();
    AuthConfig::new(global.map(|s| s.to_string()), &vars)
}

fn told<T>(res: Result<T, Refusal>) -> (u16, String) {
    match res {
        Err(refusal) => refusal.response(),
        Ok(_) => panic!("nothing was refused"),
    }
}

fn demands(filter: &Option<Filter>, doc: &str) -> bool {
    match filter {
        Some(f) => f.matches_filter(&value(doc)),
        None => panic!("there is no filter"),
    }
}

fn good<T>(res: Result<T, Refusal>) -> T {
    match res {
        Ok(t) => t,
        Err(refusal) => panic!("{}", refusal.response().1),
    }
}

#[test]
fn names_are_letters_digits_and_two_signs() {
    assert!(validate_name("My-db_9").is_ok());
    assert!(validate_name("größe").is_ok());
    assert!(validate_name("数据").is_ok());
    assert!(validate_name(&"x".repeat(128)).is_ok());
    assert!(validate_name(&"é".repeat(128)).is_ok());
    for bad in vec!["", "a/b", "..", "a b", "a.b", "a\n", "a\u{301}", &"x".repeat(129)] {
        match validate_name(bad) {
            Err(EngineError::InvalidName(name)) => assert_eq!(name, bad),
            _ => panic!("{:?} was accepted", bad),
        }
    }
}

#[test]
fn errors_are_told_to_clients() {
    let json = match serde_json::from_str::<Value>("{") {
        Err(e) => e,
        Ok(_) => panic!("an open object was read"),
    };
    let io = || std::io::Error::new(std::io::ErrorKind::Other, "/secret/path");
    let cases = vec![
        (
            EngineError::InvalidName("a/b".to_string()),
            400,
            "invalid name 'a/b': alphanumeric, _ and - only, max 128 chars",
        ),
        (EngineError::TooLarge, 413, "document exceeds 16 MB limit"),
        (EngineError::BatchTooLarge, 413, "batch exceeds 128 MB aggregate size limit"),
        (EngineError::OffsetTooLarge, 400, "offset exceeds maximum of 10000000"),
        (EngineError::Io(io()), 500, "internal server error"),
        (EngineError::Json(json), 500, "internal server error"),
    ];
    for (e, status, text) in &cases {
        assert_eq!(e.response(), (*status, text.to_string()));
    }
    assert_eq!(cases[0].0.message(), cases[0].2);
    assert_eq!(EngineError::Io(io()).message(), "I/O error: /secret/path");
    assert_eq!(with_cause("what: ", "why"), "what: why");
    assert!(cases[5].0.message().starts_with("JSON error: EOF while parsing"));
}

#[test]
fn tokens_are_compared_byte_by_byte() {
    assert!(ct_eq(b"", b""));
    assert!(ct_eq(b"token", b"token"));
    assert!(!ct_eq(b"token", b"tokeN"));
    assert!(!ct_eq(b"Token", b"token"));
    assert!(!ct_eq(b"token", b"token1"));
    assert!(!ct_eq(&[1, 2], &[2, 1]));
}

#[test]
fn without_tokens_everything_is_open() {
    let auth = config(None, &[("PATH", "/bin"), ("KGDB_AUTH_TOKEN_", "x"), ("KGDB_AUTH_TOKEN", "y")]);
    assert!(auth.disabled());
    assert!(auth.is_authorized(None, None));
    assert!(auth.is_authorized(Some("x"), Some("db")));
    assert!(auth.check("/", None));
    assert!(auth.check("/v1/%zz/c", None));
}

#[test]
fn a_global_token_is_asked_for_everywhere() {
    let auth = config(Some("secret"), &[("KGDB_AUTH_TOKEN_logs", "log-token")]);
    assert!(!auth.disabled());
    assert!(auth.is_authorized(Some("secret"), None));
    assert!(auth.is_authorized(Some("secret"), Some("logs")));
    assert!(auth.is_authorized(Some("log-token"), Some("logs")));
    assert!(!auth.is_authorized(Some("log-token"), Some("metrics")));
    assert!(!auth.is_authorized(Some("log-token"), None));
    assert!(!auth.is_authorized(None, Some("metrics")));
    assert!(auth.check("/", Some("Bearer secret")));
    assert!(!auth.check("/", Some("bearer secret")));
    assert!(!auth.check("/", Some("secret")));
    assert!(!auth.check("/", None));
    assert!(auth.check("/v1/%zz", Some("Bearer secret")));
    assert!(!auth.check("/v1/%zz", Some("Bearer log-token")));
}

#[test]
fn a_database_token_guards_its_database_only() {
    let auth = config(None, &[("KGDB_AUTH_TOKEN_logs", "old"), ("KGDB_AUTH_TOKEN_logs", "t")]);
    assert!(!auth.disabled());
    assert!(auth.check("/v1/logs/events/find", Some("Bearer t")));
    assert!(!auth.check("/v1/logs/events/find", Some("Bearer old")));
    assert!(!auth.check("/v1/logs/events/find", None));
    assert!(!auth.check("/v1/%6cogs/events/find", None));
    assert!(auth.check("/v1/%6cogs/events/find", Some("Bearer t")));
    assert!(auth.check("/v1/metrics/cpu/find", None));
    assert!(auth.check("/", None));
    assert!(!auth.check("/v1/%2f/x", None));
    assert!(!auth.check("/v1/%ff/x", Some("Bearer t")));
    assert!(!auth.check("/v1/", None));
}

#[test]
fn variables_name_databases() {
    assert_eq!(token_db("KGDB_AUTH_TOKEN_logs").as_deref(), Some("logs"));
    assert_eq!(token_db("KGDB_AUTH_TOKEN_"), None);
    assert_eq!(token_db("KGDB_AUTH_TOKEN"), None);
    assert_eq!(token_db("X_KGDB_AUTH_TOKEN_logs"), None);
}

#[test]
fn segments_are_decoded() {
    assert_eq!(percent_decode("plain-é").as_deref(), Some("plain-é"));
    assert_eq!(percent_decode("%73ecret").as_deref(), Some("secret"));
    assert_eq!(percent_decode("a%2Fb%2f").as_deref(), Some("a/b/"));
    assert_eq!(percent_decode("%c3%A9").as_deref(), Some("é"));
    assert_eq!(percent_decode("%2573").as_deref(), Some("%73"));
    assert_eq!(percent_decode("").as_deref(), Some(""));
    for bad in vec!["%", "%7", "%zz", "%7g", "%-1", "%+5", "%ff", "%é", "a%1é"] {
        assert_eq!(percent_decode(bad), None);
    }
}

#[test]
fn paths_lead_to_databases() {
    assert_eq!(extract_db("/v1/secret").as_deref(), Some("secret"));
    assert_eq!(extract_db("/v1/%73ecret/users/find").as_deref(), Some("secret"));
    assert_eq!(extract_db("/v1/a//b").as_deref(), Some("a"));
    for none in vec!["/", "/v1", "/v1/", "/v1//x", "/v2/db", "v1/db", "/v1/a%2fb", "/v1/%", "/v1/%ff/c"] {
        assert_eq!(extract_db(none), None);
    }
}

#[test]
fn tokens_follow_the_word_bearer() {
    assert_eq!(bearer_token("Bearer abc").as_deref(), Some("abc"));
    assert_eq!(bearer_token("Bearer ").as_deref(), Some(""));
    assert_eq!(bearer_token("Bearer"), None);
    assert_eq!(bearer_token("Basic abc"), None);
}

#[test]
fn where_parameters_are_objects() {
    assert!(good(parse_filter(None)).is_none());
    assert!(good(parse_filter(Some("{}".to_string()))).is_none());
    let filter = good(parse_filter(Some("{\"role\":\"admin\",\"n\":1}".to_string())));
    assert!(demands(&filter, "{\"role\":\"admin\",\"n\":1}"));
    assert!(!demands(&filter, "{\"role\":\"admin\"}"));
    assert!(!demands(&filter, "{\"n\":1}"));
    assert_eq!(
        told(parse_filter(Some("{role}".to_string()))),
        (400, "invalid JSON in 'where' parameter".to_string())
    );
    assert_eq!(
        told(parse_filter(Some("[1]".to_string()))),
        (400, "'where' must be a JSON object".to_string())
    );
    assert!(good(value_filter(value("{\"a\":null}"))).is_some());
    assert!(matches!(value_filter(value("null")), Err(Refusal::FilterNotObject)));
}

#[test]
fn bodies_hold_counts_and_filters() {
    let query = good(parse_post_body(value(
        "{\"role\":\"admin\",\"status\":\"active\",\"n\":50,\"offset\":7}",
    )));
    assert_eq!(query.n, 50);
    assert_eq!(query.offset, 7);
    assert!(demands(&query.filter, "{\"role\":\"admin\",\"status\":\"active\"}"));
    assert!(!demands(&query.filter, "{\"role\":\"admin\"}"));
    let query = good(parse_post_body(value("{}")));
    assert_eq!((query.n, query.offset), (20, 0));
    assert_eq!(default_n(), 20);
    assert!(query.filter.is_none());
    let query = good(parse_post_body(value("{\"n\":0,\"offset\":3}")));
    assert_eq!((query.n, query.offset), (0, 3));
    assert!(query.filter.is_none());
    assert_eq!(
        told(parse_post_body(value("[]"))),
        (400, "body must be a JSON object".to_string())
    );
    for bad in vec!["{\"n\":-1,\"offset\":-1}", "{\"n\":1.0}", "{\"n\":\"5\"}", "{\"n\":null}"] {
        assert_eq!(
            told(parse_post_body(value(bad))),
            (400, "n must be a positive integer".to_string())
        );
    }
    for bad in vec!["{\"offset\":-1}", "{\"offset\":true}"] {
        assert_eq!(
            told(parse_post_body(value(bad))),
            (400, "offset must be a non-negative integer".to_string())
        );
    }
}

#[test]
fn counts_are_limited() {
    let said = (200, "n must be 1\u{2013}100000".to_string());
    assert_eq!(told(query_params(0, 0, Some("nope".to_string()))), said);
    assert_eq!(told(query_params(100_001, 0, None)), said);
    assert!(matches!(
        query_params(100_000, 0, Some("nope".to_string())),
        Err(Refusal::FilterNotJson)
    ));
    let query = good(query_params(100_000, 5, None));
    assert_eq!((query.n, query.offset), (100_000, 5));
    assert_eq!(told(query_body(value("{\"n\":0}"))), said);
    assert_eq!(told(query_body(value("{\"n\":100001}"))), said);
    assert!(matches!(query_body(value("{\"n\":0,\"offset\":[]}")), Err(Refusal::BadOffset)));
    assert_eq!(good(query_body(value("{\"n\":1}"))).n, 1);
}

#[test]
fn parameters_and_bodies_ask_for_the_same() {
    let a = good(query_params(5, 2, Some("{\"k\":[1]}".to_string())));
    let b = good(query_body(value("{\"k\":[1],\"n\":5,\"offset\":2}")));
    assert_eq!((a.n, a.offset), (b.n, b.offset));
    for doc in vec!["{\"k\":[1]}", "{\"k\":[2]}", "{}"] {
        assert_eq!(demands(&a.filter, doc), demands(&b.filter, doc));
    }
}

#[test]
fn insertions_take_objects_and_arrays() {
    assert!(check_document(&value("{}")).is_ok());
    assert_eq!(told(check_document(&value("[]"))), (400, "body must be a JSON object".to_string()));
    assert_eq!(good(batch_documents(value("[1,{}]"))), vec![value("1"), value("{}")]);
    assert_eq!(told(batch_documents(value("{}"))), (400, "body must be a JSON array".to_string()));
    let many = |n: usize| Value::Array(vec![Value::Null; n]);
    assert_eq!(good(batch_documents(many(10_000))).len(), 10_000);
    assert_eq!(
        told(batch_documents(many(10_001))),
        (400, "batch exceeds 10000 document limit".to_string())
    );
}

#[test]
fn sidecars_name_fields() {
    assert_eq!(sidecar_fields("{\"fields\":[\"b\",1,\"a\"]}"), Some(vec!["b".to_string(), "a".to_string()]));
    assert_eq!(sidecar_fields("{\"fields\":{}}"), None);
    assert_eq!(sidecar_fields("{}"), None);
    assert_eq!(sidecar_fields(""), None);
    assert_eq!(value_fields(&value("{\"fields\":[]}")), Some(vec![]));
    assert_eq!(sidecar_collection("users.index.json").as_deref(), Some("users"));
    assert_eq!(sidecar_collection("users.ndjson"), None);
}
