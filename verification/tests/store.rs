use gaze::passwords::{unseal, Change, Login, Store};
use std::path::PathBuf;

/// The logins as the JSON the sealed file holds.
fn to_json(logins: &[Login]) -> Vec<u8> {
    let items: Vec<String> = logins
        .iter()
        .map(|l| {
            format!(
                "{{\"origin\":{},\"username\":{},\"password\":{},\"used\":{}}}",
                serde_json::to_string(&l.origin).unwrap(),
                serde_json::to_string(&l.username).unwrap(),
                serde_json::to_string(&l.password).unwrap(),
                l.used
            )
        })
        .collect();
    format!("[{}]", items.join(",")).into_bytes()
}

fn from_json(bytes: &[u8]) -> Vec<Login> {
    let v: serde_json::Value = serde_json::from_slice(bytes).unwrap();
    v.as_array()
        .unwrap()
        .iter()
        .map(|x| Login {
            origin: x["origin"].as_str().unwrap().to_string(),
            username: x["username"].as_str().unwrap().to_string(),
            password: x["password"].as_str().unwrap().to_string(),
            used: x["used"].as_u64().unwrap(),
        })
        .collect()
}

/// Unlock as the browser does: open the sealed file under `master`.
fn unlock(s: &mut Store, file: &[u8], master: &str) -> Result<usize, String> {
    let opened = unseal(master, file)?;
    let logins = from_json(opened.plain());
    Ok(s.open_with(opened, logins))
}

fn save(s: &Store) -> Vec<u8> {
    s.seal(&to_json(s.logins())).unwrap()
}

fn login(origin: &str, user: &str, pw: &str) -> Login {
    Login { origin: origin.into(), username: user.into(), password: pw.into(), used: 0 }
}

#[test]
fn a_login_survives_lock_and_unlock_and_refuses_the_wrong_master() {
    let mut s = Store::new(PathBuf::from("/tmp/gaze-pw/passwords"));
    s.start("hunter2").unwrap();
    assert_eq!(s.logins().len(), 0);
    let change = s.remember(login("https://www.example.com", "geir", "pw")).unwrap();
    assert_eq!(change, Change::New);
    let file = save(&s);
    s.lock();
    assert!(!s.unlocked());
    assert_eq!(unlock(&mut s, &file, "nope").unwrap_err(), "wrong master password");
    assert_eq!(unlock(&mut s, &file, "hunter2").unwrap(), 1);
    let found = s.for_site("https://example.com/login?next=/");
    assert_eq!(found.len(), 1);
    assert_eq!(found[0].password, "pw");
}

#[test]
fn the_same_password_again_is_no_change_and_a_new_one_updates() {
    let mut s = Store::new(PathBuf::from("/x"));
    s.start("").unwrap();
    assert_eq!(s.remember(login("https://a.no", "u", "one")).unwrap(), Change::New);
    assert_eq!(s.remember(login("https://a.no", "u", "one")).unwrap(), Change::Same);
    assert_eq!(s.remember(login("https://a.no", "u", "two")).unwrap(), Change::Updated);
    assert_eq!(s.logins().len(), 1);
    assert!(s.remove("https://a.no/x", "u").unwrap());
    assert!(s.logins().is_empty());
}

#[test]
fn firefox_csv_imports_and_the_last_used_comes_first() {
    let mut s = Store::new(PathBuf::from("/x"));
    s.start("m").unwrap();
    let csv = "\"url\",\"username\",\"password\",\"httpRealm\",\"formActionOrigin\",\"guid\",\"timeCreated\",\"timeLastUsed\",\"timePasswordChanged\"\n\
               \"https://accounts.example.com\",\"old\",\"p1\",,\"https://accounts.example.com\",\"{1}\",\"1600000000000\",\"1600000000000\",\"1600000000000\"\n\
               \"https://accounts.example.com\",\"new\",\"p,2\"\"q\",,\"https://accounts.example.com\",\"{2}\",\"1700000000000\",\"1700000000000\",\"1700000000000\"\n";
    assert_eq!(s.import_csv(csv).unwrap(), (2, 0));
    let found = s.for_site("https://accounts.example.com/signin");
    assert_eq!(found[0].username, "new");
    assert_eq!(found[0].password, "p,2\"q");
    assert_eq!(s.import_csv(csv).unwrap(), (0, 0));
}

#[test]
fn the_master_password_can_be_changed() {
    let mut s = Store::new(PathBuf::from("/x"));
    s.start("old").unwrap();
    s.remember(login("https://a.no", "u", "p")).unwrap();
    let (change, file) = s.prepare_master("new", &to_json(s.logins())).unwrap();
    s.commit(change);
    s.lock();
    assert!(unlock(&mut s, &file, "old").is_err());
    assert_eq!(unlock(&mut s, &file, "new").unwrap(), 1);
}

#[test]
fn a_locked_store_refuses_and_a_short_file_is_no_password_file() {
    let mut s = Store::new(PathBuf::from("/x"));
    assert_eq!(s.remember(login("https://a.no", "u", "p")), Err("passwords are locked".to_string()));
    assert_eq!(s.seal(b"[]"), Err("passwords are locked".to_string()));
    assert_eq!(unseal("m", b"GAZE1 too short").err(), Some("not a gaze password file".to_string()));
    assert_eq!(unseal("m", &[0u8; 64]).err(), Some("not a gaze password file".to_string()));
}

#[test]
fn a_sealed_file_starts_with_its_magic_and_salt_and_hides_the_text() {
    let mut s = Store::new(PathBuf::from("/x"));
    s.start("m").unwrap();
    let file = s.seal(b"[]").unwrap();
    assert_eq!(&file[..5], b"GAZE1");
    assert_eq!(file.len(), 5 + 16 + 12 + 2 + 16);
    assert!(!file.windows(2).any(|w| w == b"[]"));
    let opened = unseal("m", &file).unwrap();
    assert_eq!(opened.plain(), b"[]");
}

#[test]
fn filling_a_login_puts_it_first() {
    let mut s = Store::new(PathBuf::from("/x"));
    s.start("m").unwrap();
    s.remember(login("https://a.no", "one", "p")).unwrap();
    s.remember(login("https://a.no", "two", "q")).unwrap();
    assert!(s.touch_at("https://a.no/login", "one", u64::MAX));
    assert_eq!(s.for_site("https://a.no")[0].username, "one");
    assert!(!s.touch_at("https://a.no", "nobody", 1));
}

#[test]
fn the_passwords_page_lists_by_site_then_user() {
    let mut s = Store::new(PathBuf::from("/x"));
    s.start("m").unwrap();
    s.remember(login("https://www.b.no/x", "zed", "p")).unwrap();
    s.remember(login("https://a.no", "bob", "p")).unwrap();
    s.remember(login("https://b.no", "amy", "p")).unwrap();
    let rows = s.listing();
    let got: Vec<(&str, &str)> = rows.iter().map(|r| (r.0.as_str(), r.1.as_str())).collect();
    assert_eq!(got, [("https://a.no", "bob"), ("https://b.no", "amy"), ("https://b.no", "zed")]);
}

#[test]
fn only_new_logins_are_offered_for_saving() {
    let mut s = Store::new(PathBuf::from("/x"));
    assert!(s.offer_to_save(&login("https://a.no", "u", "p")));
    assert!(!s.offer_to_save(&login("https://a.no", "u", "")));
    assert!(!s.offer_to_save(&login("null", "u", "p")));
    s.start("m").unwrap();
    s.remember(login("https://a.no", "u", "p")).unwrap();
    assert!(!s.offer_to_save(&login("https://www.a.no/login", "u", "p")));
    assert!(s.offer_to_save(&login("https://a.no", "u", "new")));
}

#[test]
fn an_http_password_dialog_is_answered_https_first() {
    let mut s = Store::new(PathBuf::from("/tmp/gaze-auth/passwords"));
    assert_eq!(s.auth_login("a.no"), None);
    s.start("m").unwrap();
    s.remember_at(login("http://a.no", "plain", "p1"), 1).unwrap();
    assert_eq!(s.auth_login("a.no"), Some(("plain".to_string(), "p1".to_string())));
    s.remember_at(login("https://a.no", "secure", "p2"), 2).unwrap();
    assert_eq!(s.auth_login("a.no"), Some(("secure".to_string(), "p2".to_string())));
    assert_eq!(s.auth_login("b.no"), None);
}
