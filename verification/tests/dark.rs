use gaze::config::{dark_site, with_dark, DarkSites};
use std::path::PathBuf;

#[test]
fn dark_sites_read_their_file() {
    let d = DarkSites::load(PathBuf::from("/x"), "# note\n  a.no on\nb.no off\nc.no\n\nb.no on extra\nd.no maybe\n");
    assert_eq!(d.get("a.no"), Some(true));
    assert_eq!(d.get("b.no"), Some(true));
    assert_eq!(d.get("c.no"), None);
    assert_eq!(d.get("d.no"), Some(false));
    assert!(d.any_on());
}

#[test]
fn a_setting_is_kept_and_written_in_order() {
    let mut d = DarkSites::load(PathBuf::from("/x"), "");
    assert!(!d.any_on());
    d.set("zeta.no", false);
    d.set("alpha.no", true);
    d.set("zeta.no", true);
    assert_eq!(d.get("zeta.no"), Some(true));
    assert_eq!(d.text(), "# Sites where dark pages differ from the default in config.yml.\nalpha.no on\nzeta.no on\n");
    let again = DarkSites::load(PathBuf::from("/x"), &d.text());
    assert_eq!(again.get("alpha.no"), Some(true));
    assert_eq!(again.get("zeta.no"), Some(true));
}

#[test]
fn a_noted_list_carries_its_own_heading() {
    let mut m = DarkSites::load_noted(PathBuf::from("/x"), "Sites that may use the microphone.", "");
    m.set("meet.no", false);
    assert_eq!(m.text(), "# Sites that may use the microphone.\nmeet.no off\n");
    assert!(!m.any_on());
}

#[test]
fn the_dark_flag_is_written_back_in_place() {
    assert_eq!(with_dark("home: x\ndark: true\nzoom: 1.0", false), "home: x\ndark: false\nzoom: 1.0\n");
    assert_eq!(with_dark("# c\nhome: x\n", true), "# c\nhome: x\ndark: true\n");
    assert_eq!(with_dark("", false), "dark: false\n");
}

#[test]
fn a_page_is_filed_under_its_host_or_its_scheme() {
    assert_eq!(dark_site("https://WWW.Example.com/x?y"), "example.com");
    assert_eq!(dark_site("http://user@a.no:8080/"), "a.no");
    assert_eq!(dark_site("gaze://help"), "gaze");
    assert_eq!(dark_site("file:///tmp/x.html"), "file");
}

#[test]
fn toggling_a_site_turns_it_from_how_it_shows_now() {
    let mut d = DarkSites::load(PathBuf::from("/x"), "a.no off\n");
    assert_eq!(d.toggle("a.no", true), Some(true));
    assert_eq!(d.toggle("b.no", true), Some(false));
    assert_eq!(d.toggle("b.no", true), Some(true));
    assert_eq!(d.toggle("has space", true), None);
    assert_eq!(d.toggle("", true), None);
    let again = DarkSites::load(PathBuf::from("/x"), &d.text());
    assert_eq!((again.get("a.no"), again.get("b.no")), (Some(true), Some(true)));
}
