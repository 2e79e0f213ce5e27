use gaze::adblock::rules_from_hosts;

#[test]
fn hosts_lines_become_block_rules_without_the_local_names() {
    let hosts = "# header\n127.0.0.1 localhost\n0.0.0.0 0.0.0.0\n0.0.0.0 ads.example.com # comment\n\
                 0.0.0.0 Ads.Example.com\n0.0.0.0 tracker.net\n::1 ip6-localhost\n0.0.0.0 broadcasthost\n";
    let (json, n) = rules_from_hosts(hosts);
    assert_eq!(n, 2);
    let parsed: serde_json::Value = serde_json::from_str(&json).unwrap();
    let rules = parsed.as_array().unwrap();
    assert_eq!(rules.len(), 2);
    let filter = rules[0]["trigger"]["url-filter"].as_str().unwrap();
    assert_eq!(filter, r"^[^:]+://+([^:/]+\.)?ads\.example\.com[:/]");
    assert_eq!(rules[0]["action"]["type"], "block");
    let kinds = rules[0]["trigger"]["resource-type"].as_array().unwrap();
    assert!(kinds.iter().all(|k| k != "document"), "the page you asked for is never blocked");
    assert!(kinds.iter().any(|k| k == "script"), "everything it pulls in still is");
}
