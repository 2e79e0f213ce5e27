use gaze::keys::{defaults, key_name_of, Keymap};
use std::path::PathBuf;

fn fresh() -> Keymap {
    Keymap::load(PathBuf::from("/tmp/gaze-keys/keys.yml"), Vec::new())
}

#[test]
fn a_prefix_waits_and_a_full_sequence_runs() {
    let m = fresh();
    assert_eq!(m.lookup("g"), (None, true));
    assert_eq!(m.lookup("gg"), (Some("scroll-top".into()), false));
    assert_eq!(m.lookup("gx"), (None, false));
    assert_eq!(m.lookup("<Shift-Left>"), (Some("tab-move -1".into()), false));
}

#[test]
fn a_binding_survives_a_reload_and_an_unbind_hides_a_default() {
    let mut m = fresh();
    m.bind("x", "close").unwrap();
    assert_eq!(m.unbind("Q"), Ok(true));
    let text = m.file_text().unwrap();
    let (again, complaint) = Keymap::load_text(m.file().clone(), Some(&text));
    assert!(complaint.is_none());
    assert_eq!(again.lookup("x").0, Some("close".into()));
    assert_eq!(again.lookup("Q").0, None);
    assert_eq!(again.lookup("ZZ").0, Some("quit".into()));
    assert!(again.keys_for("close").contains(&"x".to_string()));
}

#[test]
fn key_presses_get_qutebrowser_names() {
    assert_eq!(key_name_of("", Some('j'), false, false, false).as_deref(), Some("j"));
    assert_eq!(key_name_of("", Some('J'), false, false, true).as_deref(), Some("J"));
    assert_eq!(key_name_of("", Some('d'), true, false, false).as_deref(), Some("<Ctrl-d>"));
    assert_eq!(key_name_of("Left", None, false, false, true).as_deref(), Some("<Shift-Left>"));
    assert_eq!(key_name_of("", Some('1'), false, true, false).as_deref(), Some("<Alt-1>"));
    assert_eq!(key_name_of("Space", Some(' '), false, false, false).as_deref(), Some("<Space>"));
    assert_eq!(key_name_of("", Some('<'), false, false, true).as_deref(), Some("<lt>"));
    assert_eq!(key_name_of("", None, false, false, true), None);
    assert_eq!(key_name_of("", Some('\u{1b}'), false, false, false), None);
}

#[test]
fn binding_needs_keys_and_a_command() {
    let mut m = fresh();
    assert_eq!(m.bind("", "close"), Err("bind <keys> <command>".to_string()));
    assert_eq!(m.bind("x", "   "), Err("bind <keys> <command>".to_string()));
    assert_eq!(m.unbind("nothing"), Ok(false));
}

#[test]
fn the_help_lists_keys_by_command_shortest_first() {
    let m = fresh();
    assert_eq!(m.keys_for("scroll-page"), ["<Ctrl-u> (-0.5)", "<PgUp> (-0.9)", "<Ctrl-b> (-0.9)", "<Shift-Space> (-0.9)", "<Ctrl-d> (0.5)", "<Space> (0.9)", "<PgDown> (0.9)"]);
    assert_eq!(m.keys_for("quit"), ["Q", "ZZ", "<Ctrl-q>"]);
    assert_eq!(m.keys_for("tab"), ["<Alt-1> (1)", "<Alt-2> (2)", "<Alt-3> (3)", "<Alt-4> (4)", "<Alt-5> (5)", "<Alt-6> (6)", "<Alt-7> (7)", "<Alt-8> (8)", "<Alt-9> (9)"]);
}

#[test]
fn a_user_binding_with_a_blank_command_unbinds() {
    let m = Keymap::load(PathBuf::from("/x"), vec![("j".to_string(), " ".to_string()), ("zz".to_string(), "reload".to_string())]);
    assert_eq!(m.lookup("j").0, None);
    assert_eq!(m.lookup("z"), (None, true));
    assert_eq!(m.lookup("zz").0, Some("reload".into()));
    assert_eq!(defaults().len(), 79);
}

#[test]
fn the_keys_the_readme_names_are_bound() {
    let m = fresh();
    assert_eq!(m.lookup("v").0, Some("play".into()));
    assert_eq!(m.lookup("<Ctrl-f>").0, Some("fullscreen".into()));
    assert_eq!(m.lookup("D").0, Some("dark-site".into()));
}

#[test]
fn the_keys_file_is_yaml_under_its_heading() {
    let m = fresh();
    let text = m.file_text().unwrap();
    assert!(text.starts_with("# Keys you changed"));
    assert!(text.ends_with("{}\n"));
    let (m, bad) = Keymap::load_text(PathBuf::from("/x"), Some("x: close\nQ: ''\n"));
    assert!(bad.is_none());
    assert_eq!(m.lookup("x").0, Some("close".into()));
    assert_eq!(m.lookup("Q").0, None);
    let (m, bad) = Keymap::load_text(PathBuf::from("/x"), Some("- not\n- a map\n"));
    assert!(bad.is_some());
    assert_eq!(m.lookup("Q").0, Some("quit".into()));
    let (m, bad) = Keymap::load_text(PathBuf::from("/x"), None);
    assert!(bad.is_none() && m.lookup("x").0.is_none());
}
