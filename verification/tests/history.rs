use gaze::history::History;
use std::path::PathBuf;

fn fresh() -> History {
    History::load(PathBuf::from("/tmp/gaze-hist/history"), "")
}

#[test]
fn visits_fold_by_url_and_come_back_from_the_file() {
    let mut h = fresh();
    let mut file = String::new();
    for (u, t) in [("https://isene.org/", "Geir"), ("https://example.com/", "Example"), ("https://isene.org/", "Geir Isene")] {
        if let Some(line) = h.record(u, t) {
            file.push_str(&line);
        }
    }
    let again = History::load(h.file().clone(), &file);
    assert_eq!(again.visits().len(), 2);
    let g = again.visits().iter().find(|v| v.url == "https://isene.org/").unwrap();
    assert_eq!((g.count, g.title.as_str()), (2, "Geir Isene"));
}

#[test]
fn every_word_must_match_and_bookmarks_lead() {
    let mut h = fresh();
    h.record("https://isene.org/blog", "Blog posts");
    h.record("https://isene.org/blog", "Blog posts");
    h.record("https://example.com/free-will", "Free will essay");
    let marks = vec![("https://plato.stanford.edu/free-will".to_string(), "Free Will (Stanford)".to_string())];
    let got = h.matches("free will", &marks, 10);
    assert_eq!(got.len(), 2);
    assert!(got[0].bookmark);
    assert_eq!(got[1].url, "https://example.com/free-will");
    assert_eq!(h.matches("blog isene", &marks, 10).len(), 1);
    assert_eq!(h.matches("blog nothing", &marks, 10).len(), 0);
    let latest = h.matches("", &[], 10);
    assert_eq!(latest[0].url, "https://example.com/free-will", "an empty query lists the latest first");
}

#[test]
fn internal_pages_are_not_kept() {
    let mut h = fresh();
    assert_eq!(h.record("gaze://help", "gaze"), None);
    assert_eq!(h.record("about:blank", ""), None);
    assert!(h.visits().is_empty());
}

#[test]
fn a_visit_line_holds_time_url_and_title_on_one_line() {
    let mut h = fresh();
    assert_eq!(h.record_at("https://a.no/", "A\ttab\nline", 42).unwrap(), "42\thttps://a.no/\tA tab line\n");
    assert_eq!(h.visits()[0].last, 42);
}

#[test]
fn the_file_folds_by_url_the_latest_first() {
    let text = "10\thttps://a.no\tA\n30\thttps://b.no\tB\nbad line\n20\thttps://a.no\t\nx\thttps://c.no\tC\t+tab\n";
    let h = History::load(PathBuf::from("/x"), text);
    let got: Vec<(&str, &str, u64, u32)> = h.visits().iter().map(|v| (v.url.as_str(), v.title.as_str(), v.last, v.count)).collect();
    assert_eq!(got, [("https://b.no", "B", 30, 1), ("https://a.no", "A", 20, 2), ("https://c.no", "C\t+tab", 0, 1)]);
}

#[test]
fn a_title_arriving_later_is_kept() {
    let mut h = fresh();
    h.record_at("https://a.no/", "", 1);
    h.retitle("https://a.no/", "Late");
    h.retitle("https://a.no/", "");
    assert_eq!(h.visits()[0].title, "Late");
}

#[test]
fn the_limit_cuts_the_offers_and_case_does_not_matter() {
    let mut h = fresh();
    for i in 0..5u64 {
        h.record_at(&format!("https://site{}.no/Page", i), "ÆØÅ Title", i);
    }
    assert_eq!(h.matches("", &[], 3).len(), 3);
    assert_eq!(h.matches("PAGE", &[], 10).len(), 5);
    assert_eq!(h.matches("æøå", &[], 10).len(), 5);
    let ranked = h.rank(&[], &[], &[true, false, true, false, true], true, 10);
    assert_eq!(ranked.len(), 3);
}

#[test]
fn one_recorded_line_reads_back_as_that_visit() {
    let mut h = fresh();
    let line = h.record_at("https://b.no/x", "Two\tparts", 7).unwrap();
    let again = History::load(PathBuf::from("/x"), &line);
    let got: Vec<(&str, &str, u64, u32)> = again.visits().iter().map(|v| (v.url.as_str(), v.title.as_str(), v.last, v.count)).collect();
    assert_eq!(got, [("https://b.no/x", "Two parts", 7, 1)]);
}

#[test]
fn any_number_of_lines_loads_while_the_counts_fit() {
    let text = "1\thttps://a.no\tA\n2\thttps://b.no\tB\n3\thttps://a.no\t\n";
    let h = History::try_load(PathBuf::from("/x"), text).unwrap();
    assert_eq!(h.visits().len(), 2);
    assert_eq!(h.visits()[0].url, "https://a.no");
    assert_eq!(h.visits()[0].count, 2);
}
