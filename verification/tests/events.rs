use gaze::events::{import_message, remove_message, save_message, key_step, message_step, read_page_message, KeyAction, KeyInput, MessageAction, Mode, PageMessage, Special};
use gaze::passwords::{Change, Login, Store};
use std::path::PathBuf;

fn key(k: Special, ch: Option<char>, ctrl: bool) -> KeyInput {
    KeyInput { key: k, ch, ctrl }
}

#[test]
fn each_mode_takes_its_keys() {
    assert_eq!(key_step(Mode::Command, key(Special::Escape, None, false)), (Mode::Command, KeyAction::EndAsk));
    assert_eq!(key_step(Mode::Command, key(Special::Up, None, false)), (Mode::Command, KeyAction::Complete(-1)));
    assert_eq!(key_step(Mode::Command, key(Special::Other, Some('a'), false)), (Mode::Command, KeyAction::Pass));
    assert_eq!(key_step(Mode::Insert, key(Special::Other, Some('['), true)), (Mode::Normal, KeyAction::Blur));
    assert_eq!(key_step(Mode::Insert, key(Special::BackTab, None, false)), (Mode::Insert, KeyAction::FocusNext(-1)));
    assert_eq!(key_step(Mode::Insert, key(Special::Other, Some('x'), false)), (Mode::Insert, KeyAction::Pass));
    assert_eq!(key_step(Mode::Hint, key(Special::Other, Some('Q'), false)), (Mode::Hint, KeyAction::HintKey('q')));
    assert_eq!(key_step(Mode::Hint, key(Special::Backspace, None, false)), (Mode::Hint, KeyAction::HintKey('\u{8}')));
    assert_eq!(key_step(Mode::Hint, key(Special::Other, Some('1'), false)), (Mode::Hint, KeyAction::Swallow));
    assert_eq!(key_step(Mode::Hint, key(Special::Escape, None, false)), (Mode::Normal, KeyAction::StopHints));
    assert_eq!(key_step(Mode::Prompt, key(Special::Other, Some('Y'), false)), (Mode::Prompt, KeyAction::Answer(true)));
    assert_eq!(key_step(Mode::Prompt, key(Special::Escape, None, false)), (Mode::Prompt, KeyAction::Answer(false)));
    assert_eq!(key_step(Mode::Normal, key(Special::Other, Some('j'), false)), (Mode::Normal, KeyAction::Binding));
    assert_eq!(key_step(Mode::Normal, key(Special::Escape, None, false)), (Mode::Normal, KeyAction::Cancel));
}

#[test]
fn page_messages_are_read_with_their_defaults() {
    assert!(read_page_message("not json").is_none());
    assert!(matches!(read_page_message("{\"t\":\"focus\"}"), Some(PageMessage::Focus { editable: false })));
    match read_page_message("{\"t\":\"open\",\"uri\":\"https://a.no\"}") {
        Some(PageMessage::Open { uri, background }) => assert_eq!((uri.as_str(), background), ("https://a.no", true)),
        _ => panic!("an open message"),
    }
    assert!(matches!(read_page_message("{\"t\":7}"), Some(PageMessage::Other)));
}

#[test]
fn focus_switches_insert_mode_and_a_new_login_is_asked_about() {
    let mut s = Store::new(PathBuf::from("/tmp/gaze-ev/passwords"));
    s.start("m").unwrap();
    let (m, a) = message_step(Mode::Normal, true, PageMessage::Focus { editable: true }, &s);
    assert!(m == Mode::Insert && matches!(a, MessageAction::Nothing));
    let (m, _) = message_step(Mode::Normal, false, PageMessage::Focus { editable: true }, &s);
    assert!(m == Mode::Normal);
    let l = Login { origin: "https://www.a.no/login".into(), username: "".into(), password: "pw".into(), used: 0 };
    match message_step(Mode::Normal, true, PageMessage::Login(l), &s) {
        (Mode::Prompt, MessageAction::AskSave { question, .. }) => assert_eq!(question, "Save the password of (no username) for https://a.no? (y/n)"),
        _ => panic!("a question"),
    }
    let l = Login { origin: "https://a.no".into(), username: "u".into(), password: "pw".into(), used: 0 };
    assert!(matches!(message_step(Mode::Command, true, PageMessage::Login(l), &s), (Mode::Command, MessageAction::Nothing)));
}

#[test]
fn a_string_for_the_page_script_is_quoted_and_escaped() {
    assert_eq!(gaze::events::js_string("a\"b\\c\n"), "\"a\\\"b\\\\c\\n\"");
}

#[test]
fn store_results_become_status_lines() {
    assert_eq!(save_message(&Ok(Change::New), "ann", "https://www.A.no/x"), "Saved ann for https://a.no");
    assert_eq!(save_message(&Ok(Change::Same), "ann", "x"), "Already saved");
    assert_eq!(save_message(&Err("locked".into()), "ann", "x"), "Passwords: locked");
    assert_eq!(remove_message(&Ok(false), "bo"), "No login bo for this site");
    assert_eq!(import_message(&Ok((12, 0)), true), "Imported 12 logins, updated 0; the CSV is deleted");
    assert_eq!(import_message(&Err("empty file".into()), false), "Import failed: empty file");
}
