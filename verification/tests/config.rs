use gaze::config::{is_video_page, to_uri};

const S: &str = "https://ddg.gg/?q=%s";
const HOME: &str = "/home/geir";

#[test]
fn typed_text_becomes_a_url_a_file_or_a_search() {
    assert_eq!(to_uri("https://isene.org/x", S, HOME), "https://isene.org/x");
    assert_eq!(to_uri("isene.org", S, HOME), "https://isene.org");
    assert_eq!(to_uri("isene.org/about?x=1", S, HOME), "https://isene.org/about?x=1");
    assert_eq!(to_uri("localhost:8080/a", S, HOME), "http://localhost:8080/a");
    assert_eq!(to_uri("/tmp/x.html", S, HOME), "file:///tmp/x.html");
    assert_eq!(to_uri("free will", S, HOME), "https://ddg.gg/?q=free+will");
    assert_eq!(to_uri("what is 2.5", S, HOME), "https://ddg.gg/?q=what+is+2.5");
    assert_eq!(to_uri("æøå", S, HOME), "https://ddg.gg/?q=%C3%A6%C3%B8%C3%A5");
    assert_eq!(to_uri("v0.3", S, HOME), "https://ddg.gg/?q=v0.3");
    assert_eq!(to_uri("", S, HOME), "about:blank");
}

#[test]
fn a_video_page_goes_to_the_player_only_when_there_is_one() {
    let urls = vec!["https://www.youtube.com/watch".to_string(), "https://vimeo.com/".to_string()];
    assert!(is_video_page("mpv", &urls, "https://www.youtube.com/watch?v=x"));
    assert!(is_video_page("mpv", &urls, "https://vimeo.com/123"));
    assert!(!is_video_page("mpv", &urls, "https://www.youtube.com/"));
    assert!(!is_video_page("", &urls, "https://vimeo.com/123"));
    assert!(!is_video_page("mpv", &vec![], "https://vimeo.com/123"));
}
