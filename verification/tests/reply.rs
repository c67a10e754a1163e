use bindle_reply::diag::DiagnosticSink;
use bindle_reply::http::toml_mime_type;
use bindle_reply::reply::{classify, into_reply, reply_from_error};
use bindle_reply::storage::{IoErrorKind, StorageError};

/// Decodes an error body with the real TOML parser and returns the value of
/// its single `error` field, checking that no other field is present.
fn decode_error_body(body: &[u8]) -> String {
    let v: toml::Value = toml::from_slice(body).expect("body must be valid TOML");
    let t = v.as_table().expect("body must be a table");
    assert_eq!(t.len(), 1);
    t.get("error")
        .expect("body must have an error field")
        .as_str()
        .expect("error field must be a string")
        .to_string()
}

#[test]
fn mime_type_is_fixed() {
    assert_eq!(toml_mime_type(), "application/toml");
}

#[test]
fn classify_yanked() {
    let (e, s) = classify(StorageError::Yanked);
    assert_eq!(s, 400);
    assert!(matches!(e, StorageError::Yanked));
}

#[test]
fn classify_create_yanked() {
    let (e, s) = classify(StorageError::CreateYanked);
    assert_eq!(s, 422);
    assert!(matches!(e, StorageError::CreateYanked));
}

#[test]
fn classify_not_found() {
    let (e, s) = classify(StorageError::NotFound);
    assert_eq!(s, 404);
    assert!(matches!(e, StorageError::NotFound));
}

#[test]
fn classify_io_absent_remaps_to_not_found() {
    let (e, s) = classify(StorageError::IO {
        kind: IoErrorKind::ResourceAbsent,
        detail: "no such file".to_string(),
    });
    let (e2, s2) = classify(StorageError::NotFound);
    assert_eq!(s, 404);
    assert_eq!(s, s2);
    assert!(matches!(e, StorageError::NotFound));
    assert!(matches!(e2, StorageError::NotFound));
}

#[test]
fn classify_io_other_is_internal() {
    let (e, s) = classify(StorageError::IO {
        kind: IoErrorKind::Other,
        detail: "disk on fire".to_string(),
    });
    assert_eq!(s, 500);
    assert!(matches!(e, StorageError::IO { kind: IoErrorKind::Other, .. }));
}

#[test]
fn classify_remaining_kinds_are_bad_request() {
    let (e, s) = classify(StorageError::Exists);
    assert_eq!(s, 400);
    assert!(matches!(e, StorageError::Exists));
    let (e, s) = classify(StorageError::Malformed("broken".to_string()));
    assert_eq!(s, 400);
    assert!(matches!(e, StorageError::Malformed(_)));
    let (e, s) = classify(StorageError::Unserializable("broken".to_string()));
    assert_eq!(s, 400);
    assert!(matches!(e, StorageError::Unserializable(_)));
    let (e, s) = classify(StorageError::DigestMismatch);
    assert_eq!(s, 400);
    assert!(matches!(e, StorageError::DigestMismatch));
    let (e, s) = classify(StorageError::InvalidId);
    assert_eq!(s, 400);
    assert!(matches!(e, StorageError::InvalidId));
}

#[test]
fn message_texts() {
    assert_eq!(StorageError::Yanked.message(), "bindle is yanked");
    assert_eq!(
        StorageError::CreateYanked.message(),
        "bindle cannot be created as yanked"
    );
    assert_eq!(StorageError::NotFound.message(), "resource not found");
    assert_eq!(
        StorageError::IO { kind: IoErrorKind::Other, detail: "boom".to_string() }.message(),
        "I/O error: boom"
    );
    assert_eq!(StorageError::Exists.message(), "resource already exists");
    assert_eq!(
        StorageError::Malformed("bad name".to_string()).message(),
        "malformed bindle: bad name"
    );
    assert_eq!(
        StorageError::Unserializable("bad field".to_string()).message(),
        "unserializable bindle: bad field"
    );
    assert_eq!(StorageError::DigestMismatch.message(), "digest does not match");
    assert_eq!(StorageError::InvalidId.message(), "invalid ID given");
}

#[test]
fn into_reply_yanked_scenario() {
    let reply = into_reply(StorageError::Yanked);
    assert_eq!(reply.status, 400);
    let resp = reply.into_response();
    assert_eq!(resp.status, 400);
    assert_eq!(resp.content_type.as_deref(), Some("application/toml"));
    assert_eq!(decode_error_body(&resp.body), "bindle is yanked");
}

#[test]
fn into_reply_renders_the_remapped_message() {
    let reply = into_reply(StorageError::IO {
        kind: IoErrorKind::ResourceAbsent,
        detail: "no such file".to_string(),
    });
    let resp = reply.into_response();
    assert_eq!(resp.status, 404);
    assert_eq!(decode_error_body(&resp.body), "resource not found");
}

#[test]
fn build_keeps_the_given_status() {
    let reply = reply_from_error("teapot", 418);
    assert_eq!(reply.status, 418);
    let resp = reply.into_response();
    assert_eq!(resp.status, 418);
    assert_eq!(decode_error_body(&resp.body), "teapot");
}

#[test]
fn build_survives_quotes_and_control_characters() {
    let messages = [
        "plain text",
        "a \"quoted\" word",
        "back\\slash",
        "line\nbreak and\ttab",
        "bell\u{7}, backspace\u{8}, feed\u{c}, return\r",
        "delete\u{7f} and unit separator\u{1f}",
        "unicode snowman \u{2603} stays",
        "",
    ];
    for msg in messages {
        let resp = reply_from_error(msg, 400).into_response();
        assert_eq!(decode_error_body(&resp.body), *msg);
    }
}

#[test]
fn wrap_round_trips_a_table() {
    let mut inner = toml::map::Map::new();
    inner.insert("greeting".to_string(), toml::Value::String("hello".to_string()));
    inner.insert("count".to_string(), toml::Value::Integer(3));
    let value = toml::Value::Table(inner);
    let mut sink = DiagnosticSink::new();
    let reply = bindle_reply::reply::toml(&value, &mut sink);
    let resp = reply.into_response();
    assert_eq!(resp.status, 200);
    assert_eq!(resp.content_type.as_deref(), Some("application/toml"));
    let back: toml::Value = toml::from_slice(&resp.body).expect("body must decode");
    assert_eq!(back, value);
    assert_eq!(sink.len(), 0);
}

#[test]
fn wrap_failure_gives_opaque_500_and_one_diagnostic() {
    // A bare absent value has no TOML document form, so encoding it must fail.
    let value: Option<i32> = None;
    let mut sink = DiagnosticSink::new();
    let reply = bindle_reply::reply::toml(&value, &mut sink);
    let resp = reply.into_response();
    assert_eq!(resp.status, 500);
    assert!(resp.content_type.is_none());
    assert!(resp.body.is_empty());
    assert_eq!(sink.len(), 1);
    assert!(sink.get(0).starts_with("error while serializing TOML: "));
}

#[test]
fn wrap_failure_under_with_status_still_gives_500() {
    let value: Option<i32> = None;
    let mut sink = DiagnosticSink::new();
    let reply = bindle_reply::reply::toml(&value, &mut sink);
    let resp = bindle_reply::reply::with_status(reply, 201).into_response();
    assert_eq!(resp.status, 500);
    assert!(resp.body.is_empty());
}

#[test]
fn sink_keeps_records_in_order() {
    let mut sink = DiagnosticSink::new();
    assert_eq!(sink.len(), 0);
    sink.record("first".to_string());
    sink.record("second".to_string());
    assert_eq!(sink.len(), 2);
    assert_eq!(sink.get(0).as_str(), "first");
    assert_eq!(sink.get(1).as_str(), "second");
}
