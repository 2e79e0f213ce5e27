use gaze::passwords::{parse_csv, site_key};

#[test]
fn a_site_key_drops_www_port_and_path() {
    assert_eq!(site_key("https://www.Example.com:443/a?b#c"), "https://example.com");
    assert_eq!(site_key("http://user@host.no/"), "http://host.no");
    assert_eq!(site_key("example.org"), "https://example.org");
}

#[test]
fn a_www_in_capitals_is_dropped_too() {
    assert_eq!(site_key("https://WWW.Example.com/x"), "https://example.com");
    assert_eq!(site_key("HTTPS://Www.a.no"), "https://a.no");
}

#[test]
fn fields_written_in_quotes_read_back_as_they_were() {
    let rows = vec![
        vec!["a,b".to_string(), "say \"hi\"".to_string(), "".to_string()],
        vec!["line\nbreak\r".to_string()],
    ];
    let text: String = rows.iter().map(|r| r.iter().map(|f| format!("\"{}\"", f.replace('"', "\"\""))).collect::<Vec<_>>().join(",") + "\n").collect();
    assert_eq!(parse_csv(&text), rows);
}
