use gaze::tabs::{color_hex, Tabs};

fn three() -> Tabs {
    let mut t = Tabs::default();
    t.next_id = 1;
    t.open("a", false);
    t.open("b", false);
    t.open("c", false);
    t
}

fn order(t: &Tabs) -> Vec<&str> {
    t.tabs.iter().map(|x| x.uri.as_str()).collect()
}

#[test]
fn a_new_tab_opens_after_the_current_one_and_joins_its_group() {
    let mut t = three();
    t.active = 0;
    t.set_group(0, "work");
    t.open("d", false);
    assert_eq!(order(&t), ["a", "d", "b", "c"]);
    assert_eq!(t.active, 1);
    assert_eq!(t.tabs[1].group, t.tabs[0].group);
    t.open("e", true);
    assert_eq!(t.active, 1, "a background tab leaves the current one alone");
}

#[test]
fn grouping_keeps_a_group_in_one_run() {
    let mut t = three();
    t.set_group(0, "news");
    t.set_group(2, "news");
    assert_eq!(order(&t), ["a", "c", "b"]);
    assert_eq!(t.groups.len(), 1);
    assert_eq!(t.tabs[0].group, t.tabs[1].group);
    assert_eq!(t.tabs[2].group, None);
    t.ungroup(0);
    assert_eq!(order(&t), ["c", "a", "b"]);
    t.ungroup(0);
    assert_eq!(t.groups.len(), 1, "an empty group stays until deleted");
    assert!(t.delete_group("news").is_ok());
    assert!(t.groups.is_empty());
}

#[test]
fn a_group_can_be_made_ahead_with_a_hex_colour() {
    let mut t = three();
    let id = t.ensure_group("Dualog", "#5faf87");
    assert_eq!(t.empty_groups().len(), 1);
    assert_eq!(color_hex(&t.groups[0].color), "#5faf87");
    assert_eq!(t.delete_group("Dualog"), Ok(()));
    t.ensure_group("Dualog", "");
    t.set_group(0, "dualog");
    assert_eq!(t.delete_group("Dualog").unwrap_err(), "Dualog still has 1 tabs; :group-close closes them");
    assert!(t.recolor_group(t.tabs[0].group.unwrap(), "#D78700"));
    assert!(!t.recolor_group(t.tabs[0].group.unwrap(), "#12345"));
    let _ = id;
}

#[test]
fn a_folded_group_hides_all_but_the_current_tab() {
    let mut t = three();
    t.set_group(0, "x");
    t.set_group(1, "x");
    t.active = 2;
    let gid = t.groups[0].id;
    t.collapse(gid, true);
    assert_eq!(t.visible_indices(), [2]);
    assert_eq!(t.neighbour(1), 2, "nothing else to go to");
    t.active = 0;
    assert_eq!(t.visible_indices(), [0, 2]);
    assert_eq!(t.neighbour(1), 2);
    assert_eq!(t.neighbour(-1), 2);
}

#[test]
fn closing_moves_right_then_left_at_the_end() {
    let mut t = three();
    t.active = 1;
    t.close(1);
    assert_eq!(t.tabs[t.active].uri, "c");
    t.close(1);
    assert_eq!(t.tabs[t.active].uri, "a");
    t.close(0);
    assert!(t.is_empty());
    assert_eq!(t.active, 0);
}

#[test]
fn a_popup_returns_to_its_opener_when_it_closes() {
    let mut t = three();
    t.active = 0;
    let opener = t.tabs[0].id;
    t.open_from("popup", false, Some(opener));
    assert_eq!(t.active, 1);
    t.close(1);
    assert_eq!(t.tabs[t.active].uri, "a", "back to the opener, not to the next tab");
}

#[test]
fn closing_before_the_current_tab_keeps_it_current() {
    let mut t = three();
    t.active = 2;
    t.close(0);
    assert_eq!(t.tabs[t.active].uri, "c");
}

#[test]
fn new_groups_take_unused_colours() {
    let mut t = three();
    t.set_group(0, "one");
    t.set_group(1, "two");
    assert_eq!(t.groups[0].color, "blue");
    assert_eq!(t.groups[1].color, "red");
    assert!(t.recolor_group(t.groups[0].id, "green"));
    assert!(!t.recolor_group(t.groups[0].id, "mauve"));
}

#[test]
fn moving_a_tab_wraps_and_follows_the_group_it_lands_in() {
    let mut t = three();
    t.set_group(1, "g");
    t.set_group(2, "g");
    t.active = 0;
    t.move_tab(0, 1);
    assert_eq!(order(&t), ["b", "a", "c"]);
    assert_eq!(t.active, 1);
    assert!(t.tabs[1].group.is_some(), "landing between grouped tabs joins the group");
    t.move_tab(1, -1);
    assert_eq!(t.tabs[0].uri, "a");
    assert!(t.tabs[0].group.is_some(), "moving to the front of its own group keeps the group");
    t.move_tab(0, 2);
    assert_eq!(t.tabs[2].uri, "a");
    assert!(t.tabs[2].group.is_some(), "the end of its own group too");
}

#[test]
fn the_first_group_can_have_its_tabs_reordered() {
    let mut t = three();
    t.set_group(0, "g");
    t.set_group(1, "g");
    t.move_tab(1, -1);
    let order: Vec<(&str, bool)> = t.tabs.iter().map(|x| (x.uri.as_str(), x.group.is_some())).collect();
    assert_eq!(order, [("b", true), ("a", true), ("c", false)]);
}

#[test]
fn a_session_round_trips_with_ids_kept_apart() {
    let mut t = three();
    t.set_group(1, "keep");
    t.active = 1;
    let back = Tabs::restore(t.tabs.clone(), t.groups.clone(), t.active);
    assert_eq!(back.tabs.iter().map(|x| (x.id, x.uri.clone(), x.group)).collect::<Vec<_>>(),
               t.tabs.iter().map(|x| (x.id, x.uri.clone(), x.group)).collect::<Vec<_>>());
    assert_eq!(back.groups, t.groups);
    assert_eq!(back.active, 1);
    assert!(back.tabs.iter().all(|x| x.pending));
    let mut back = back;
    let id = back.open("z", false);
    assert!(t.tabs.iter().all(|x| x.id != id), "a restored session never reuses an id");
}

#[test]
fn a_middle_tab_leaving_for_a_new_group_does_not_split_its_old_one() {
    let mut t = three();
    t.set_group(0, "x");
    t.set_group(1, "x");
    t.set_group(2, "x");
    t.active = 1;
    let y = t.set_group(1, "y").unwrap();
    assert_eq!(order(&t), ["a", "c", "b"]);
    assert_eq!(t.tabs[2].group, Some(y));
    assert_eq!(t.tabs_in(t.tabs[0].group.unwrap()), vec![0, 1]);
    assert_eq!(t.tabs[t.active].uri, "b");
}

#[test]
fn the_groups_listing_and_the_group_a_command_acts_on() {
    let mut t = three();
    assert_eq!(t.groups_summary(), "No groups");
    t.set_group(0, "work");
    t.set_group(1, "work");
    t.set_group(2, "home");
    t.active = 2;
    let home = t.tabs[2].group.unwrap();
    let work = t.tabs[0].group.unwrap();
    let w = t.groups.iter().find(|g| g.id == work).unwrap().color.clone();
    let h = t.groups.iter().find(|g| g.id == home).unwrap().color.clone();
    t.collapse(home, true);
    assert_eq!(t.groups_summary(), format!("work (2, {})  ·  home (1, {}, folded)", w, h));
    assert_eq!(t.current_group_name(), "home");
    assert_eq!(t.command_group("group-collapse", "work"), Some(work));
    assert_eq!(t.command_group("group-collapse", "nothing"), Some(home));
    assert_eq!(t.command_group("group-rename", "work"), Some(home));
    t.ungroup(t.active);
    assert_eq!(t.current_group_name(), "");
    assert_eq!(t.command_group("group-close", ""), None);
}
