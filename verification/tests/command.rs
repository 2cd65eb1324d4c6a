use kv_mvcc::command::{parse_input_line, Input};
use kv_mvcc::protocol::OP;

fn request(line: &str) -> (OP, String, String) {
    match parse_input_line(line) {
        Input::Request(op, k, v) => (op, k, v),
        _ => panic!("expected a request for {:?}", line),
    }
}

#[test]
fn parses_the_four_commands() {
    assert_eq!(request("get k\n"), (OP::Get, "k".to_string(), String::new()));
    assert_eq!(request("remove k"), (OP::Remove, "k".to_string(), String::new()));
    assert_eq!(request("add k v"), (OP::Add, "k".to_string(), "v".to_string()));
    assert_eq!(request("  update\tkey  value extra\r\n"), (OP::Update, "key".to_string(), "value".to_string()));
    assert_eq!(request("get k ignored"), (OP::Get, "k".to_string(), String::new()));
}

#[test]
fn blank_and_incomplete_lines_are_skipped() {
    assert!(matches!(parse_input_line(""), Input::Skip));
    assert!(matches!(parse_input_line("   \n"), Input::Skip));
    assert!(matches!(parse_input_line("get"), Input::Skip));
    assert!(matches!(parse_input_line("add k"), Input::Skip));
    assert!(matches!(parse_input_line("update k\n"), Input::Skip));
    assert!(matches!(parse_input_line("frobnicate"), Input::Skip));
}

#[test]
fn exit_and_quit() {
    assert!(matches!(parse_input_line("exit\n"), Input::Quit));
    assert!(matches!(parse_input_line("  quit  "), Input::Quit));
    assert!(matches!(parse_input_line("exit now"), Input::Unknown));
    assert!(matches!(parse_input_line("EXIT"), Input::Skip));
}

#[test]
fn unknown_commands() {
    assert!(matches!(parse_input_line("put k v"), Input::Unknown));
    assert!(matches!(parse_input_line("Get k"), Input::Unknown));
}

#[test]
fn unicode_whitespace_separates_words() {
    assert_eq!(request("add\u{3000}ключ\u{00A0}значение"), (OP::Add, "ключ".to_string(), "значение".to_string()));
}
