use gaze::bookmarks::{anchors, strip_tags, unescape, Bookmark, Bookmarks};
use std::path::PathBuf;

fn fresh() -> Bookmarks {
    Bookmarks::load(PathBuf::from("/tmp/gaze-bm/bookmarks"), "")
}

fn chars(s: &str) -> Vec<char> {
    s.chars().collect()
}

#[test]
fn a_bookmark_is_kept_once_and_comes_back_from_the_file() {
    let mut b = fresh();
    assert!(b.add("https://isene.org", "Geir").unwrap());
    assert!(!b.add("https://isene.org", "Geir Isene").unwrap());
    let again = Bookmarks::load(b.file().clone(), &b.text());
    assert_eq!(again.list(), &[Bookmark { url: "https://isene.org".into(), title: "Geir Isene".into() }]);
    let mut again = again;
    assert!(again.remove("https://isene.org").unwrap());
    assert!(!again.remove("https://isene.org").unwrap());
}

const FIREFOX: &str = r#"<!DOCTYPE NETSCAPE-Bookmark-file-1>
<DL><p>
    <DT><H3 ADD_DATE="1">Toolbar</H3>
    <DL><p>
        <DT><A HREF="https://isene.org/" ADD_DATE="2" ICON="data:image/png;base64,xx">Geir &amp; co</A>
        <DT><A HREF="place:type=6">Recent tags</A>
        <DT><A HREF='https://example.com/a?b=1&amp;c=2'>Example <b>bold</b></A>
    </DL><p>
</DL><p>"#;

#[test]
fn firefox_html_imports_folders_and_all() {
    let mut b = fresh();
    assert_eq!(b.import_html(FIREFOX).unwrap(), 2);
    assert_eq!(b.list()[0].title, "Geir & co");
    assert_eq!(b.list()[1].url, "https://example.com/a?b=1&c=2");
    assert_eq!(b.list()[1].title, "Example bold");
    assert_eq!(b.import_html(FIREFOX).unwrap(), 0);
}

#[test]
fn an_empty_url_is_nothing_to_bookmark() {
    let mut b = fresh();
    assert_eq!(b.add("   ", "x"), Err("nothing to bookmark".to_string()));
    assert!(b.list().is_empty());
}

#[test]
fn a_known_url_keeps_its_title_when_none_is_given() {
    let mut b = fresh();
    assert!(b.add(" https://a.no ", " A ").unwrap());
    assert!(!b.add("https://a.no", "  ").unwrap());
    assert_eq!(b.list(), &[Bookmark { url: "https://a.no".into(), title: "A".into() }]);
    assert!(b.has("https://a.no"));
    assert!(!b.has(" https://a.no"));
}

#[test]
fn the_file_is_read_line_by_line() {
    let b = Bookmarks::load(PathBuf::from("/x"), "https://a.no\tA  title\n\n  \t no url\nhttps://b.no\r\nhttps://c.no\tC\tmore");
    let got: Vec<(&str, &str)> = b.list().iter().map(|m| (m.url.as_str(), m.title.as_str())).collect();
    assert_eq!(got, [("https://a.no", "A  title"), ("https://b.no", ""), ("https://c.no", "C\tmore")]);
    assert_eq!(b.text(), "https://a.no\tA  title\nhttps://b.no\t\nhttps://c.no\tC\tmore\n");
}

#[test]
fn removing_drops_every_copy_of_a_url() {
    let mut b = Bookmarks::load(PathBuf::from("/x"), "u\t1\nv\t2\nu\t3\n");
    assert!(b.remove(" u ").unwrap());
    assert_eq!(b.text(), "v\t2\n");
}

#[test]
fn anchors_are_read_in_order_with_their_text() {
    let got = anchors("<p><a href=\"x\">One</a> <A Href=y title=t>Two <i>2</i></a><a name=z>no</a><a href=''>empty</a>").unwrap();
    assert_eq!(got, [("x".to_string(), "One".to_string()), ("y".to_string(), "Two 2".to_string())]);
    assert_eq!(anchors("no links here").unwrap(), []);
    assert_eq!(anchors("<a href=>broken</a>"), None);
}

#[test]
fn tags_go_and_references_become_characters() {
    assert_eq!(strip_tags(&chars("  a <b>bold</b>\n\tword  ")), chars("a bold word"));
    assert_eq!(unescape(&chars("&lt;&amp;lt;&gt;&quot;&#39;&apos;")), chars("<<>\"''"));
}

#[test]
fn blank_and_own_pages_cannot_be_bookmarked() {
    assert!(gaze::bookmarks::bookmarkable("https://a.no/"));
    assert!(!gaze::bookmarks::bookmarkable(""));
    assert!(!gaze::bookmarks::bookmarkable("about:blank"));
    assert!(!gaze::bookmarks::bookmarkable("gaze://help"));
}
