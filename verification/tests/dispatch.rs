use gaze::dispatch::{command_step, AskKind, CommandAction};
use gaze::tabs::Tabs;

fn three() -> Tabs {
    let mut t = Tabs::default();
    t.next_id = 1;
    t.open("https://a.no/", false);
    t.open("https://b.no/", false);
    t.open("gaze://help", false);
    t
}

fn step(line: &str, t: &Tabs) -> Option<CommandAction> {
    command_step(line, t, "https://ddg.gg/?q=%s", "/home/g", "mpv", false)
}

#[test]
fn a_command_line_becomes_its_action() {
    let mut t = three();
    t.active = 1;
    assert!(step("   ", &t).is_none());
    assert!(matches!(step("open", &t), Some(CommandAction::Ask(AskKind::Command, p)) if p == "open "));
    assert!(matches!(step("t free will", &t), Some(CommandAction::Open(u, true)) if u == "https://ddg.gg/?q=free+will"));
    assert!(matches!(step("yank title", &t), Some(CommandAction::Yank(x)) if x.is_empty()));
    assert!(matches!(step("yank", &t), Some(CommandAction::Yank(x)) if x == "https://b.no/"));
    assert!(matches!(step("tab-move +1", &t), Some(CommandAction::MoveTab(1, 1))));
    assert!(matches!(step("tab-move x", &t), Some(CommandAction::Message(m)) if m == "tab-move +1 | -1 | <number>"));
    assert!(matches!(step("tab-last", &t), Some(CommandAction::GotoVisible(2))));
    assert!(matches!(step("group-rename x", &t), Some(CommandAction::Message(m)) if m == "This tab is in no group"));
    assert!(matches!(step("bookmark-add", &t), Some(CommandAction::BookmarkAdd(u, _)) if u == "https://b.no/"));
    assert!(matches!(step("password-master", &t), Some(CommandAction::Message(_))));
    assert!(matches!(step("dark-default", &t), Some(CommandAction::DarkDefault)));
    assert!(matches!(step("bogus", &t), Some(CommandAction::Message(m)) if m == "Unknown command: bogus"));
    t.active = 2;
    assert!(matches!(step("bookmark-add", &t), Some(CommandAction::Message(m)) if m == "Nothing to bookmark here"));
    t.set_group(2, "g");
    let g = t.tabs[t.active].group.unwrap();
    assert!(matches!(step("group-expand", &t), Some(CommandAction::GroupCollapse(x, false)) if x == g));
    assert!(matches!(step("group-delete", &t), Some(CommandAction::GroupDelete(n)) if n == "g"));
    assert!(matches!(command_step("play", &t, "", "", "", true), Some(CommandAction::Message(_))));
}
