use tv_quotes::messages::{frame_text, Command, MessageError, ToWSMessage};
use tv_quotes::incoming::split_raw_msg;

#[test]
fn frames_plain_text_with_its_byte_length() {
    assert_eq!(frame_text("hello"), "~m~5~m~hello");
    assert_eq!(frame_text(""), "~m~0~m~");
}

#[test]
fn frame_length_counts_utf8_bytes() {
    assert_eq!(frame_text("é"), "~m~2~m~é");
    assert_eq!(frame_text("日本"), "~m~6~m~日本");
}

#[test]
fn framed_text_is_sent_as_it_is() {
    assert_eq!(frame_text("~m~3~m~abc"), "~m~3~m~abc");
    let s = String::from("~m~5~m~hello");
    assert_eq!(s.to_ws_message(), Ok(String::from("~m~5~m~hello")));
}

#[test]
fn heartbeat_is_framed() {
    assert_eq!("~h~12".to_ws_message(), Ok(String::from("~m~5~m~~h~12")));
}

#[test]
fn framing_twice_is_framing_once() {
    let once = frame_text("payload");
    assert_eq!(frame_text(&once), once);
}

#[test]
fn long_message_has_multi_digit_length() {
    let body = "x".repeat(1234);
    let framed = frame_text(&body);
    assert!(framed.starts_with("~m~1234~m~x"));
    assert_eq!(framed.len(), 3 + 4 + 3 + 1234);
}

#[test]
fn command_json_and_frame() {
    let cmd = Command::new("set_auth_token", &["unauthorized_user_token"]);
    assert_eq!(cmd.method, "set_auth_token");
    assert_eq!(cmd.parameters, vec![String::from("unauthorized_user_token")]);
    let json = r#"{"m":"set_auth_token","p":["unauthorized_user_token"]}"#;
    assert_eq!(cmd.to_json(), Ok(String::from(json)));
    assert_eq!(cmd.to_ws_message(), Ok(format!("~m~{}~m~{}", json.len(), json)));
}

#[test]
fn command_without_parameters() {
    let cmd = Command::new("ping", &[]);
    assert_eq!(cmd.to_json(), Ok(String::from(r#"{"m":"ping","p":[]}"#)));
}

#[test]
fn command_escapes_strings() {
    let cmd = Command::new("a\"b", &["c\\d", "e\nf"]);
    assert_eq!(cmd.to_json(), Ok(String::from(r#"{"m":"a\"b","p":["c\\d","e\nf"]}"#)));
    let e: Result<String, MessageError> = cmd.to_ws_message();
    assert!(e.is_ok());
}

#[test]
fn splits_one_block_into_messages() {
    assert_eq!(split_raw_msg("~m~5~m~hello~m~3~m~abc"), vec!["hello", "abc"]);
    assert_eq!(split_raw_msg("~m~5~m~hello"), vec!["hello"]);
    assert!(split_raw_msg("").is_empty());
    assert!(split_raw_msg("~m~").is_empty());
}

#[test]
fn split_keeps_tildes_inside_payloads() {
    assert_eq!(split_raw_msg("~m~4~m~~h~1"), vec!["~h~1"]);
    assert_eq!(split_raw_msg("~m~3~m~m~x"), vec!["m~x"]);
}

#[test]
fn split_undoes_framing_of_several_messages() {
    let msgs = ["{\"m\":\"qsd\"}", "~h~7", "é", "a~b"];
    let mut block = String::new();
    for m in msgs.iter() {
        block.push_str(&frame_text(m));
    }
    assert_eq!(split_raw_msg(&block), msgs.to_vec());
}

#[test]
fn command_escapes_control_chars() {
    let cmd = Command::new("m", &["\u{1}\t\u{1f}\u{8}\u{c}\r"]);
    assert_eq!(cmd.to_json(), Ok(String::from(r#"{"m":"m","p":["\u0001\t\u001f\b\f\r"]}"#)));
    let cmd = Command::new("m", &["é/\u{7f}"]);
    assert_eq!(cmd.to_json(), Ok(String::from("{\"m\":\"m\",\"p\":[\"é/\u{7f}\"]}")));
}

#[test]
fn command_comes_back_whole_from_splitting() {
    let cmd = Command::new("quote_add_symbols", &["qs_abc", "MOEX:GDM2023"]);
    let text = cmd.to_ws_message().unwrap();
    assert_eq!(split_raw_msg(&text), vec![cmd.to_json().unwrap()]);
}
