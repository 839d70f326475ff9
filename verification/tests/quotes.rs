use tv_quotes::book::QuoteBook;
use tv_quotes::json::{JsonNumber, JsonValue};
use tv_quotes::processor::{Effect, Outgoing, ProcessError, QPInput, QuoteProcessor};
use tv_quotes::quotes::{Freshness, QuoteData, QuoteDataDiff, QuoteSession, UpdateError, QUOTE_FIELDS, MIN_QUOTE_TIME, MAX_QUOTE_TIME, time_in_range};
use chrono::{TimeZone, Utc};

fn s(t: &str) -> JsonValue {
    JsonValue::Str(t.to_string())
}

fn num(t: &str, i: Option<i64>) -> JsonValue {
    JsonValue::Number(JsonNumber { text: t.to_string(), int: i })
}

fn members(m: Vec<(&str, JsonValue)>) -> Vec<(String, JsonValue)> {
    m.into_iter().map(|(k, v)| (k.to_string(), v)).collect()
}

fn update(sym: &str, status: &str, values: Vec<(&str, JsonValue)>) -> Vec<(String, JsonValue)> {
    members(vec![("n", s(sym)), ("s", s(status)), ("v", JsonValue::Object(members(values)))])
}

#[test]
fn session_id_is_prefixed_hash() {
    let session = QuoteSession::with_hash("abcdefghijkl", "MOEX:NGH2023");
    assert_eq!(session.id, "qs_abcdefghijkl");
    assert_eq!(session.symbol, "MOEX:NGH2023");
    assert_eq!(session.data.symbol, "MOEX:NGH2023");
    assert!(session.data.lp.is_none());
}

#[test]
fn random_session_id_shape() {
    let a = QuoteSession::new("MOEX:NGH2023");
    assert_eq!(a.id.len(), 15);
    assert!(a.id.starts_with("qs_"));
    assert!(a.id[3..].chars().all(|c| c.is_ascii_alphanumeric()));
    let b = QuoteSession::new("MOEX:NGH2023");
    assert_ne!(a.id, b.id);
}

#[test]
fn subscribe_commands_open_the_session() {
    let session = QuoteSession::with_hash("xyz", "MOEX:SVM2023");
    let cmds = session.subscribe_commands();
    assert_eq!(cmds.len(), 3);
    assert_eq!(cmds[0].method, "quote_create_session");
    assert_eq!(cmds[0].parameters, vec!["qs_xyz"]);
    assert_eq!(cmds[1].method, "quote_set_fields");
    assert_eq!(cmds[1].parameters.len(), 49);
    assert_eq!(cmds[1].parameters[0], "qs_xyz");
    assert_eq!(cmds[1].parameters[1], "base-currency-logoid");
    assert_eq!(cmds[1].parameters[48], "provider_id");
    assert_eq!(&cmds[1].parameters[1..], &QUOTE_FIELDS[..]);
    assert_eq!(cmds[2].method, "quote_add_symbols");
    assert_eq!(cmds[2].parameters, vec!["qs_xyz", "MOEX:SVM2023"]);
}

#[test]
fn update_merges_price_fields() {
    let mut session = QuoteSession::with_hash("a", "X");
    let msg = update("X", "ok", vec![
        ("lp", num("12.5", None)),
        ("lp_time", num("1677000000", Some(1677000000))),
        ("volume", num("300", Some(300))),
        ("ch", s("not a number")),
    ]);
    let d = session.process_data_update(&msg).unwrap();
    assert_eq!(d.lp.as_deref(), Some("12.5"));
    assert_eq!(d.lp_time, Some(1677000000));
    assert_eq!(d.volume.as_deref(), Some("300"));
    assert_eq!(d.ch, None);
    assert_eq!(session.data.lp.as_deref(), Some("12.5"));
    let d = session.process_data_update(&update("X", "ok", vec![("chp", num("-0.5", None))])).unwrap();
    assert_eq!(d.lp.as_deref(), Some("12.5"));
    assert_eq!(d.chp.as_deref(), Some("-0.5"));
}

#[test]
fn float_time_is_not_taken() {
    let mut session = QuoteSession::with_hash("a", "X");
    let d = session.process_data_update(&update("X", "ok", vec![("lp_time", num("1.5", None))])).unwrap();
    assert_eq!(d.lp_time, None);
}

#[test]
fn update_errors_leave_data_unchanged() {
    let mut session = QuoteSession::with_hash("a", "X");
    let wrong = update("Y", "ok", vec![("lp", num("1", Some(1)))]);
    assert!(matches!(session.process_data_update(&wrong), Err(UpdateError::WrongSymbol)));
    let bad = update("X", "error", vec![("lp", num("1", Some(1)))]);
    assert!(matches!(session.process_data_update(&bad), Err(UpdateError::BadStatus)));
    let no_name = members(vec![("n", num("1", Some(1)))]);
    assert!(matches!(session.process_data_update(&no_name), Err(UpdateError::NoName)));
    let no_status = members(vec![("n", s("X")), ("s", JsonValue::Null)]);
    assert!(matches!(session.process_data_update(&no_status), Err(UpdateError::NoStatus)));
    let no_value = members(vec![("n", s("X")), ("s", s("ok")), ("v", s("x"))]);
    assert!(matches!(session.process_data_update(&no_value), Err(UpdateError::NoValue)));
    assert!(session.data.lp.is_none());
}

#[test]
fn quote_needs_price_and_time() {
    let mut d = QuoteDataDiff::for_symbol("X");
    assert!(d.to_quote_at(5).is_none());
    d.lp = Some("3.25".to_string());
    assert!(d.to_quote_at(5).is_none());
    d.lp_time = Some(100);
    let q = d.to_quote_at(5).unwrap();
    assert_eq!(q.symbol, "X");
    assert_eq!(q.last_price, "3.25");
    assert_eq!(q.last_price_time, 100);
    assert_eq!(q.last_update, 5);
    let q = d.to_quote().unwrap();
    assert!(q.last_update > 1_600_000_000);
}

#[test]
fn freshness_thresholds() {
    let q = QuoteData { symbol: "X".into(), last_price: "1".into(), last_price_time: 0, last_update: 100 };
    assert_eq!(q.freshness_at(100), Freshness::Fresh);
    assert_eq!(q.freshness_at(103), Freshness::Fresh);
    assert_eq!(q.freshness_at(104), Freshness::Recent);
    assert_eq!(q.freshness_at(130), Freshness::Recent);
    assert_eq!(q.freshness_at(131), Freshness::Stale);
    assert_eq!(q.freshness_at(99), Freshness::Stale);
}

#[test]
fn processor_subscribes_and_updates() {
    let mut p = QuoteProcessor::new();
    let session = QuoteSession::with_hash("k", "MOEX:PDM2023");
    let texts = p.subscribe_session(&session);
    assert!(p.sessions.items().is_empty());
    p.insert_session(session);
    assert_eq!(texts.len(), 3);
    assert!(texts[0].starts_with("~m~"));
    assert!(texts[0].ends_with(r#"{"m":"quote_create_session","p":["qs_k"]}"#));
    assert!(texts[2].ends_with(r#"{"m":"quote_add_symbols","p":["qs_k","MOEX:PDM2023"]}"#));
    let id = "qs_k".to_string();
    assert!(p.session(&id).is_some());
    let data = JsonValue::Object(update("MOEX:PDM2023", "ok", vec![("lp", num("1500", Some(1500)))]));
    assert!(p.can_update(&id, &data));
    assert!(matches!(p.update_at(&id, &data, 7), Ok(None)));
    let data = JsonValue::Object(update("MOEX:PDM2023", "ok", vec![("lp_time", num("99", Some(99)))]));
    let q = p.update_at(&id, &data, 7).unwrap().unwrap();
    assert_eq!(q.last_price, "1500");
    assert_eq!(q.last_price_time, 99);
    assert_eq!(q.last_update, 7);
}

#[test]
fn processor_refuses_unknown_session_and_non_object() {
    let mut p = QuoteProcessor::new();
    let id = "qs_none".to_string();
    assert!(matches!(p.update_at(&id, &JsonValue::Null, 0), Err(ProcessError::NoSuchSession)));
    p.insert_session(QuoteSession::with_hash("a", "X"));
    let id = "qs_a".to_string();
    assert!(matches!(p.update_at(&id, &JsonValue::Null, 0), Err(ProcessError::NotAnObject)));
    let wrong = JsonValue::Object(update("Y", "ok", vec![]));
    assert!(matches!(p.update_at(&id, &wrong, 0), Err(ProcessError::Update(UpdateError::WrongSymbol))));
}

#[test]
fn incomplete_update_is_detected() {
    let mut p = QuoteProcessor::new();
    p.insert_session(QuoteSession::with_hash("a", "X"));
    let id = "qs_a".to_string();
    let missing_status = JsonValue::Object(members(vec![("n", s("X"))]));
    assert!(!p.can_update(&id, &missing_status));
    let other_symbol = JsonValue::Object(members(vec![("n", s("Y"))]));
    assert!(p.can_update(&id, &other_symbol));
}

#[test]
fn handle_msg_dispatches() {
    let mut p = QuoteProcessor::new();
    let mut effects = p.handle_msg(QPInput::Subscribe("X".to_string())).unwrap();
    assert_eq!(effects.len(), 4);
    assert!(effects[..3].iter().all(|e| matches!(e, Effect::Send(_))));
    assert!(p.sessions.items().is_empty());
    let session = match effects.pop() {
        Some(Effect::Open(s)) => s,
        _ => panic!("expected the session to record"),
    };
    let id = session.id.clone();
    match &effects[0] {
        Effect::Send(t) => assert!(t.ends_with(&format!(r#"{{"m":"quote_create_session","p":["{}"]}}"#, id))),
        _ => panic!("expected a text"),
    }
    p.insert_session(session);
    let data = JsonValue::Object(update("X", "ok", vec![("lp", num("2", Some(2))), ("lp_time", num("3", Some(3)))]));
    let effects = p.handle_msg(QPInput::Update(id, data)).unwrap();
    match &effects[..] {
        [Effect::Publish(q)] => assert_eq!(q.last_price, "2"),
        _ => panic!("expected one quote"),
    }
    let r = p.handle_msg(QPInput::Update("qs_zzz".to_string(), JsonValue::Null));
    assert!(matches!(r, Err(ProcessError::NoSuchSession)));
}

#[test]
fn replaying_an_update_changes_nothing() {
    let mut p = QuoteProcessor::new();
    p.insert_session(QuoteSession::with_hash("a", "X"));
    let id = "qs_a".to_string();
    let data = JsonValue::Object(update("X", "ok", vec![("lp", num("2", Some(2))), ("lp_time", num("3", Some(3)))]));
    let first = p.update_at(&id, &data, 1).unwrap().unwrap();
    let second = p.update_at(&id, &data, 1).unwrap().unwrap();
    assert_eq!(first.last_price, second.last_price);
    assert_eq!(first.last_price_time, second.last_price_time);
}

#[test]
fn book_keeps_latest_quote_per_symbol() {
    let mut book = QuoteBook::new();
    let q = |sym: &str, p: &str| QuoteData { symbol: sym.into(), last_price: p.into(), last_price_time: 1, last_update: 1 };
    book.insert(q("A", "1"));
    book.insert(q("B", "2"));
    book.insert(q("A", "3"));
    assert_eq!(book.quotes.items().len(), 2);
    assert_eq!(book.get(&"A".to_string()).unwrap().last_price, "3");
    assert_eq!(book.get(&"B".to_string()).unwrap().last_price, "2");
    assert!(book.get(&"C".to_string()).is_none());
}

#[test]
fn subscribe_records_session_and_gives_texts() {
    let mut p = QuoteProcessor::new();
    let texts = p.subscribe("MOEX:GDM2023");
    let items = p.sessions.items();
    assert_eq!(items.len(), 1);
    let session = &items[0];
    assert_eq!(session.symbol, "MOEX:GDM2023");
    assert_eq!(session.id.len(), 15);
    assert!(session.id.starts_with("qs_"));
    assert!(p.session(&session.id).is_some());
    assert_eq!(texts.len(), 3);
    assert!(texts[0].ends_with(&format!(r#"{{"m":"quote_create_session","p":["{}"]}}"#, session.id)));
    assert!(texts[2].ends_with(&format!(r#"{{"m":"quote_add_symbols","p":["{}","MOEX:GDM2023"]}}"#, session.id)));
}

#[test]
fn subscription_effects_record_session_when_applied() {
    let mut p = QuoteProcessor::new();
    let effects = p.handle_msg(QPInput::Subscribe("X".into())).unwrap();
    assert_eq!(effects.len(), 4);
    assert!(p.sessions.items().is_empty());
    let mut sent = Vec::new();
    for effect in effects {
        match p.apply_effect(effect) {
            Some(Outgoing::Text(t)) => sent.push(t),
            Some(Outgoing::Quote(_)) => panic!("a subscription publishes no quote"),
            None => {}
        }
    }
    assert_eq!(sent.len(), 3);
    let items = p.sessions.items();
    assert_eq!(items.len(), 1);
    assert_eq!(items[0].symbol, "X");
    assert!(sent[1].contains(&format!(r#"{{"m":"quote_set_fields","p":["{}","#, items[0].id)));
}

#[test]
fn record_all_keeps_last_quote_per_symbol() {
    let mut book = QuoteBook::new();
    let q = |sym: &str, p: &str| QuoteData { symbol: sym.into(), last_price: p.into(), last_price_time: 1, last_update: 1 };
    book.record_all(vec![q("A", "1"), q("B", "2"), q("A", "3"), q("C", "4"), q("B", "5")]);
    assert_eq!(book.quotes.items().len(), 3);
    assert_eq!(book.get(&"A".to_string()).unwrap().last_price, "3");
    assert_eq!(book.get(&"B".to_string()).unwrap().last_price, "5");
    assert_eq!(book.get(&"C".to_string()).unwrap().last_price, "4");
    book.record_all(vec![]);
    assert_eq!(book.quotes.items().len(), 3);
}

#[test]
fn quote_time_range_is_chronos() {
    assert!(Utc.timestamp_opt(MIN_QUOTE_TIME, 0).single().is_some());
    assert!(Utc.timestamp_opt(MAX_QUOTE_TIME, 0).single().is_some());
    assert!(Utc.timestamp_opt(MIN_QUOTE_TIME - 1, 0).single().is_none());
    assert!(Utc.timestamp_opt(MAX_QUOTE_TIME + 1, 0).single().is_none());
    assert!(time_in_range(0));
    assert!(!time_in_range(i64::MAX));
    assert!(!time_in_range(i64::MIN));
}

#[test]
fn update_with_out_of_range_time_is_detected() {
    let mut p = QuoteProcessor::new();
    p.insert_session(QuoteSession::with_hash("a", "X"));
    let id = "qs_a".to_string();
    let far = JsonValue::Object(update("X", "ok", vec![("lp", num("1", Some(1))), ("lp_time", num("9223372036854775807", Some(i64::MAX)))]));
    assert!(!p.can_update(&id, &far));
    let near = JsonValue::Object(update("X", "ok", vec![("lp", num("1", Some(1))), ("lp_time", num("0", Some(0)))]));
    assert!(p.can_update(&id, &near));
    let no_price = JsonValue::Object(update("X", "ok", vec![("lp_time", num("9223372036854775807", Some(i64::MAX)))]));
    assert!(p.can_update(&id, &no_price));
}

#[test]
fn unknown_update_then_subscription_then_quote() {
    let mut p = QuoteProcessor::new();
    assert!(matches!(p.handle_msg(QPInput::Update("qs_none".into(), JsonValue::Object(vec![]))), Err(ProcessError::NoSuchSession)));
    let mut effects = p.handle_msg(QPInput::Subscribe("X".into())).unwrap();
    let session = match effects.pop() {
        Some(Effect::Open(s)) => s,
        _ => panic!("expected the session to record"),
    };
    let id = session.id.clone();
    p.insert_session(session);
    let data = JsonValue::Object(update("X", "ok", vec![("lp", num("1.5", None)), ("lp_time", num("0", Some(0)))]));
    let effects = p.handle_msg(QPInput::Update(id, data)).unwrap();
    match &effects[..] {
        [Effect::Publish(q)] => {
            assert_eq!(q.symbol, "X");
            assert_eq!(q.last_price, "1.5");
            assert_eq!(q.last_price_time, 0);
        }
        _ => panic!("expected one quote"),
    }
}
