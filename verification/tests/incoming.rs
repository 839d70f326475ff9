use tv_quotes::incoming::{classify_message, command_is_defined, interpret_command, receive_message, receive_messages, CommandError, Incoming, MessageKind};
use tv_quotes::json::parse_json;
use tv_quotes::json::{JsonNumber, JsonValue};
use tv_quotes::processor::QPInput;

fn s(t: &str) -> JsonValue {
    JsonValue::Str(t.to_string())
}

fn obj(members: Vec<(&str, JsonValue)>) -> JsonValue {
    JsonValue::Object(members.into_iter().map(|(k, v)| (k.to_string(), v)).collect())
}

fn num(t: &str, i: Option<i64>) -> JsonValue {
    JsonValue::Number(JsonNumber { text: t.to_string(), int: i })
}

#[test]
fn heartbeat_is_echoed_framed() {
    match classify_message("~h~42") {
        MessageKind::Ping(reply) => assert_eq!(reply, "~m~5~m~~h~42"),
        _ => panic!("not a ping"),
    }
}

#[test]
fn session_info_is_recognised() {
    let msg = r#"{"session_id":"x","auth_scheme_vsn":2}"#;
    assert!(matches!(classify_message(msg), MessageKind::SessionInfo));
}

#[test]
fn json_command_is_recognised() {
    assert!(matches!(classify_message(r#"{"m":"qsd","p":[]}"#), MessageKind::Command));
}

#[test]
fn other_text_is_unprocessed() {
    assert!(matches!(classify_message("hello"), MessageKind::Unprocessed));
    assert!(matches!(classify_message(""), MessageKind::Unprocessed));
    assert!(matches!(classify_message("~h"), MessageKind::Unprocessed));
}

#[test]
fn quote_data_command_becomes_update() {
    let data = obj(vec![("n", s("MOEX:X")), ("s", s("ok"))]);
    let cmd = obj(vec![("m", s("qsd")), ("p", JsonValue::Array(vec![s("qs_abc"), data]))]);
    assert!(command_is_defined(&cmd));
    match interpret_command(cmd) {
        Ok(Some(QPInput::Update(id, JsonValue::Object(members)))) => {
            assert_eq!(id, "qs_abc");
            assert_eq!(members.len(), 2);
            assert_eq!(members[0].0, "n");
        }
        _ => panic!("expected an update"),
    }
}

#[test]
fn other_methods_are_ignored() {
    let cmd = obj(vec![("m", s("quote_completed")), ("p", JsonValue::Array(vec![]))]);
    assert!(matches!(interpret_command(cmd), Ok(None)));
    let cmd = obj(vec![("m", num("1", Some(1)))]);
    assert!(matches!(interpret_command(cmd), Ok(None)));
}

#[test]
fn command_errors() {
    assert!(matches!(interpret_command(s("x")), Err(CommandError::NotObject)));
    let cmd = obj(vec![("m", s("qsd")), ("p", s("x"))]);
    assert!(matches!(interpret_command(cmd), Err(CommandError::NotArray)));
    let cmd = obj(vec![("m", s("qsd")), ("p", JsonValue::Array(vec![num("1", Some(1)), JsonValue::Null]))]);
    assert!(matches!(interpret_command(cmd), Err(CommandError::NotString)));
    let cmd = obj(vec![("m", s("qsd")), ("p", JsonValue::Array(vec![s("qs_a")]))]);
    assert!(matches!(interpret_command(cmd), Err(CommandError::NoData)));
}

#[test]
fn missing_members_are_detected() {
    assert!(!command_is_defined(&obj(vec![("p", JsonValue::Array(vec![]))])));
    assert!(!command_is_defined(&obj(vec![("m", s("qsd"))])));
    assert!(!command_is_defined(&obj(vec![("m", s("qsd")), ("p", JsonValue::Array(vec![]))])));
    assert!(command_is_defined(&obj(vec![("m", s("other"))])));
    assert!(command_is_defined(&JsonValue::Null));
}

#[test]
fn decodes_json_text() {
    match parse_json(r#"{"a":[1,2.5,"x",null,true],"b":{"c":-3}}"#) {
        Some(JsonValue::Object(m)) => {
            assert_eq!(m.len(), 2);
            assert_eq!(m[0].0, "a");
            match &m[0].1 {
                JsonValue::Array(a) => {
                    assert_eq!(a.len(), 5);
                    match &a[1] {
                        JsonValue::Number(n) => {
                            assert_eq!(n.text, "2.5");
                            assert_eq!(n.int, None);
                        }
                        _ => panic!("expected a number"),
                    }
                }
                _ => panic!("expected an array"),
            }
        }
        _ => panic!("expected an object"),
    }
    assert!(parse_json("{").is_none());
    assert!(parse_json("").is_none());
}

#[test]
fn duplicate_keys_keep_the_last() {
    let msg = r#"{"m":"other","m":"qsd","p":["qs_a",{}]}"#;
    match receive_message(msg) {
        Ok(Incoming::Request(QPInput::Update(id, _))) => assert_eq!(id, "qs_a"),
        _ => panic!("expected a request"),
    }
}

#[test]
fn receives_each_kind_of_message() {
    assert!(matches!(receive_message("~h~3"), Ok(Incoming::Ping(t)) if t == "~m~4~m~~h~3"));
    assert!(matches!(receive_message(r#"{"auth_scheme_vsn":2}"#), Ok(Incoming::SessionInfo)));
    assert!(matches!(receive_message(r#"{"m":"quote_completed","p":[]}"#), Ok(Incoming::Unprocessed)));
    assert!(matches!(receive_message("plain"), Ok(Incoming::Unprocessed)));
    let msg = r#"{"m":"qsd","p":["qs_b",{"n":"X","s":"ok","v":{"lp":1}}]}"#;
    match receive_message(msg) {
        Ok(Incoming::Request(QPInput::Update(id, JsonValue::Object(m)))) => {
            assert_eq!(id, "qs_b");
            assert_eq!(m.len(), 3);
        }
        _ => panic!("expected a request"),
    }
}

#[test]
fn receive_errors() {
    assert!(matches!(receive_message("{not json"), Err(CommandError::NotJson)));
    assert!(matches!(receive_message("{} x"), Err(CommandError::NotJson)));
    assert!(matches!(receive_message(r#"{"m":"qsd","p":"x"}"#), Err(CommandError::NotArray)));
    assert!(matches!(receive_message(r#"{"m":"qsd","p":[1,2]}"#), Err(CommandError::NotString)));
    assert!(matches!(receive_message(r#"{"m":"qsd","p":["qs_a"]}"#), Err(CommandError::NoData)));
    assert!(matches!(receive_message(r#"{"p":[]}"#), Err(CommandError::Incomplete)));
    assert!(matches!(receive_message(r#"{"m":"qsd","p":[]}"#), Err(CommandError::Incomplete)));
    assert!(matches!(receive_message(r#"{"m":"qsd"}"#), Err(CommandError::Incomplete)));
    assert!(receive_message(r#"{"m":"qsd","p":["qs_a",{}]}"#).is_ok());
    assert!(matches!(receive_message(r#"{"m":"x"}"#), Ok(Incoming::Unprocessed)));
}

fn texts(v: &[&str]) -> Vec<String> {
    v.iter().map(|t| t.to_string()).collect()
}

#[test]
fn messages_are_processed_in_order() {
    let msgs = texts(&["~h~1", r#"{"m":"qsd","p":["qs_a",{"n":"X"}]}"#, "plain", "~h~2", r#"{"m":"qsd","p":["qs_b",{}]}"#]);
    let h = receive_messages(&msgs).unwrap();
    assert_eq!(h.replies, vec!["~m~4~m~~h~1".to_string(), "~m~4~m~~h~2".to_string()]);
    assert_eq!(h.requests.len(), 2);
    assert!(matches!(&h.requests[0], QPInput::Update(id, JsonValue::Object(_)) if id == "qs_a"));
    assert!(matches!(&h.requests[1], QPInput::Update(id, JsonValue::Object(_)) if id == "qs_b"));
    assert!(h.refusals.is_empty());
}

#[test]
fn refused_message_does_not_affect_later_ones() {
    let rest = ["~h~5", r#"{"m":"qsd","p":["qs_a",{}]}"#];
    for bad in ["{not json", r#"{"m":"qsd","p":"x"}"#, r#"{"m":"qsd","p":[1]}"#, r#"{"m":"qsd","p":["qs_a"]}"#] {
        let mut with_bad = vec![bad];
        with_bad.extend_from_slice(&rest);
        let a = receive_messages(&texts(&with_bad)).unwrap();
        let b = receive_messages(&texts(&rest)).unwrap();
        assert_eq!(a.replies, b.replies);
        assert_eq!(a.requests.len(), b.requests.len());
        assert!(matches!(&a.requests[0], QPInput::Update(id, _) if id == "qs_a"));
        assert_eq!(a.refusals.len(), 1);
        assert!(b.refusals.is_empty());
    }
    let a = receive_messages(&texts(&["{not json", "~h~5"])).unwrap();
    assert_eq!(a.refusals, vec![CommandError::NotJson]);
}

#[test]
fn incomplete_message_in_a_run_is_detected() {
    assert!(receive_messages(&texts(&["~h~1", r#"{"m":"qsd"}"#])).is_none());
    assert!(receive_messages(&texts(&[r#"{"p":[]}"#])).is_none());
    let h = receive_messages(&texts(&["~h~1", "{x"])).unwrap();
    assert_eq!(h.replies, vec!["~m~4~m~~h~1".to_string()]);
    assert_eq!(h.refusals, vec![CommandError::NotJson]);
    assert!(receive_messages(&vec![]).unwrap().replies.is_empty());
}
