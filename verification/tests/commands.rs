use gaze::bar::{bar_items, BarItem};
use gaze::bookmarks::Bookmarks;
use gaze::commands::{
    bind_args, color_offers, command_offers, commands, complete_step, escape_html, fill_index, fill_template,
    group_offers, move_delta, offers_for, open_query, split_command, tab_target,
};
use gaze::history::History;
use gaze::keys::{KeyStep, Keymap};
use gaze::tabs::Tabs;
use std::path::PathBuf;

#[test]
fn a_line_splits_into_command_and_argument() {
    let c = split_command("  open   isene.org  ").unwrap();
    assert_eq!((c.cmd.as_str(), c.arg.as_str(), c.rest.as_str()), ("open", "isene.org", "  isene.org  "));
    let c = split_command("quit").unwrap();
    assert_eq!((c.cmd.as_str(), c.arg.as_str()), ("quit", ""));
    assert!(split_command("   ").is_none());
}

#[test]
fn a_cmd_binding_gets_the_page_filled_in() {
    assert_eq!(fill_template("  open {url}", "https://a.no", "A"), "open https://a.no");
    assert_eq!(fill_template("yank {title} {title}", "u", "T"), "yank T T");
}

#[test]
fn numbers_for_tabs_and_moves() {
    assert_eq!(tab_target("3"), Some(2));
    assert_eq!(tab_target("0"), None);
    assert_eq!(tab_target("x"), None);
    assert_eq!(move_delta("+1", 2, 5), Some(1));
    assert_eq!(move_delta("-2", 2, 5), Some(-2));
    assert_eq!(move_delta("-", 2, 5), None);
    assert_eq!(move_delta("1", 2, 5), Some(-2));
    assert_eq!(move_delta("5", 2, 5), Some(2));
    assert_eq!(move_delta("6", 2, 5), None);
    assert_eq!(move_delta("-2147483648", 0, 1), Some(i32::MIN));
    assert_eq!(move_delta("+2147483648", 0, 1), None);
}

#[test]
fn bind_takes_keys_then_a_command() {
    assert_eq!(bind_args("x  close tab "), Some(("x".to_string(), "close tab".to_string())));
    assert_eq!(bind_args("x"), None);
}

#[test]
fn only_the_open_verbs_make_an_open_prompt() {
    assert_eq!(open_query("o free will"), Some(("o".to_string(), "free will".to_string())));
    assert_eq!(open_query("tabopen "), Some(("tabopen".to_string(), String::new())));
    assert_eq!(open_query("group x"), None);
    assert_eq!(open_query("open"), None);
}

#[test]
fn tab_walks_the_offers_around() {
    assert_eq!(complete_step(None, 3, 1), Some(0));
    assert_eq!(complete_step(None, 3, -1), Some(2));
    assert_eq!(complete_step(Some(2), 3, 1), Some(0));
    assert_eq!(complete_step(Some(0), 3, -1), Some(2));
    assert_eq!(complete_step(Some(1), 3, -7), Some(0));
    assert_eq!(complete_step(Some(0), 0, 1), None);
    assert_eq!(fill_index(true, Some(1), 3), 0);
    assert_eq!(fill_index(false, Some(2), 3), 0);
    assert_eq!(fill_index(false, Some(0), 3), 1);
    assert_eq!(fill_index(false, None, 3), 0);
}

#[test]
fn html_is_escaped() {
    assert_eq!(escape_html("a<b>&\"c\""), "a&lt;b&gt;&amp;&quot;c&quot;");
}

#[test]
fn command_names_are_offered_once_each() {
    assert_eq!(commands().len(), 71);
    let got: Vec<String> = command_offers("group-").iter().map(|o| o.line.clone()).collect();
    assert_eq!(got, ["group-fold ", "group-unfold ", "group-toggle ", "group-rename ", "group-color ", "group-close ", "group-delete "]);
    let scroll = command_offers("scroll");
    assert_eq!(scroll.len(), 7);
    assert_eq!(scroll[4].left, "scroll-page <share>");
    assert!(command_offers("").is_empty());
    assert_eq!(command_offers("").len(), 0);
    assert_eq!(command_offers("z").len(), 4);
}

#[test]
fn colours_and_groups_are_offered_after_their_commands() {
    let c = color_offers("group-color", "p");
    let names: Vec<&str> = c.iter().map(|o| o.left.as_str()).collect();
    assert_eq!(names, ["pink", "purple"]);
    assert_eq!(c[0].line, "group-color pink");
    assert_eq!(c[0].right, "#e06fb0");
    let mut t = Tabs::default();
    t.next_id = 1;
    t.open("a", false);
    t.set_group(0, "Work");
    t.ensure_group("Wiki", "");
    let g = group_offers(&t, "group", "w");
    let got: Vec<(&str, &str)> = g.iter().map(|o| (o.line.as_str(), o.right.as_str())).collect();
    assert_eq!(got, [("group Work", "1 tabs, blue"), ("group Wiki", "0 tabs, red")]);
}

#[test]
fn the_line_offers_pages_commands_or_groups() {
    let t = Tabs::default();
    let mut h = History::load(PathBuf::from("/x"), "");
    h.record_at("https://isene.org/", "Geir", 5);
    let mut m = Bookmarks::load(PathBuf::from("/y"), "");
    m.add("https://example.com/", "Example").unwrap();
    let o = offers_for(&t, &h, &m, "o isene");
    assert_eq!(o.len(), 1);
    assert_eq!((o[0].line.as_str(), o[0].left.as_str(), o[0].right.as_str(), o[0].star), ("o https://isene.org/", "Geir", "https://isene.org/", false));
    let o = offers_for(&t, &h, &m, "t exam");
    assert!(o[0].star);
    assert_eq!(offers_for(&t, &h, &m, "hel")[0].line, "help ");
    assert_eq!(offers_for(&t, &h, &m, "group-color b").len(), 1);
    assert!(offers_for(&t, &h, &m, "zoom 1").is_empty());
}

#[test]
fn a_key_press_runs_waits_or_starts_over() {
    let m = Keymap::load(PathBuf::from("/x"), Vec::new());
    assert_eq!(m.press("", "g"), KeyStep::Wait("g".to_string()));
    assert_eq!(m.press("g", "g"), KeyStep::Run("scroll-top".to_string()));
    assert_eq!(m.press("g", "x"), KeyStep::Reset);
}

#[test]
fn the_bar_numbers_the_tabs_in_view_and_labels_folded_groups() {
    let mut t = Tabs::default();
    t.next_id = 1;
    t.open("https://a.no/", false);
    t.open("http://b.no/a-very-long-path-indeed", false);
    t.open("c", false);
    t.tabs[0].title = "  Alpha  ".to_string();
    t.set_group(1, "news");
    t.active = 0;
    let gid = t.tabs[1].group.unwrap();
    t.collapse(gid, true);
    let items = bar_items(&t);
    assert_eq!(items, [
        BarItem::Tab { n: 1, text: "Alpha".into(), color: "#1e1e1e".into(), active: true, sep: false },
        BarItem::Folded { color: "#4a90e2".into(), name: "news".into(), count: 1 },
        BarItem::Tab { n: 2, text: "c".into(), color: "#c8c8c8".into(), active: false, sep: true },
    ]);
    t.active = 1;
    t.collapse(gid, false);
    let items = bar_items(&t);
    assert_eq!(items[1], BarItem::Tab { n: 2, text: "b.no/a-very-long-pat".into(), color: "#4a90e2".into(), active: true, sep: true });
}

#[test]
fn many_tabs_start_the_bar_near_the_current_one() {
    let mut t = Tabs::default();
    t.next_id = 1;
    for i in 0..12 {
        t.open(&format!("t{}", i), false);
    }
    t.active = 10;
    let items = bar_items(&t);
    assert_eq!(items[0], BarItem::More);
    assert_eq!(items[1], BarItem::Tab { n: 7, text: "t6".into(), color: "#c8c8c8".into(), active: false, sep: false });
    t.ensure_group("spare", "");
    let items = bar_items(&t);
    assert_eq!(items.last(), Some(&BarItem::Empty { color: "#4a90e2".into(), name: "spare".into() }));
}

#[test]
fn the_help_page_lists_every_command_with_its_keys_in_two_columns() {
    let m = Keymap::load(PathBuf::from("/x"), Vec::new());
    let html = gaze::commands::help_cards(&m);
    assert!(html.starts_with("<div><section class=card><h2>Open and go</h2><table><tr><td class=k><span><kbd>gb (gaze://bookmarks)</kbd></span></td><td><code>open [url]</code>"));
    assert_eq!(html.matches("</div><div>").count(), 1);
    assert!(html.ends_with("</table></section></div>"));
    assert!(html.contains("<tr><td class=k><span><kbd>d</kbd></span></td><td><code>close</code></td><td>close this tab</td></tr>"));
    assert!(html.contains("<code>bind &lt;keys&gt; &lt;command&gt;</code>"));
    assert_eq!(html.matches("<section class=card>").count(), 8);
}
