use edt_down_for_me::config::{default_sites, load, load_from, StoredList, APP_ID};

fn strings(v: &[&str]) -> Vec<String> {
    v.iter().map(|s| s.to_string()).collect()
}

#[test]
fn round_trip() {
    let sites = strings(&["google.com", "1.1.1.1"]);
    assert_eq!(load_from(Some(sites.clone())), sites);
}

#[test]
fn missing_file_returns_defaults() {
    assert_eq!(load_from(None), default_sites());
}

#[test]
fn defaults_are_the_documented_list() {
    assert_eq!(
        default_sites(),
        strings(&["google.com", "github.com", "gitlab.com", "microsoft.com", "okta.com"])
    );
    assert_eq!(APP_ID, "edt-down-for-me");
}

#[test]
fn loaded_entries_are_canonical_and_unique() {
    let raw = strings(&[
        "HTTPS://Example.com/path",
        "example.COM",
        "not a host",
        "[::1]:8080",
        "8.8.8.8:443",
        "-bad",
        "8.8.8.8",
    ]);
    assert_eq!(
        load_from(Some(raw)),
        strings(&["example.com", "[::1]:8080", "8.8.8.8"])
    );
}

#[test]
fn nothing_valid_gives_defaults() {
    assert_eq!(load_from(Some(vec![])), default_sites());
    assert_eq!(load_from(Some(strings(&["", "a b", "http://"]))), default_sites());
}

#[test]
fn load_writes_defaults_only_when_no_file() {
    let first = load(StoredList::Missing);
    assert_eq!(first.sites, default_sites());
    assert!(first.write_defaults);
    let broken = load(StoredList::Unusable);
    assert_eq!(broken.sites, default_sites());
    assert!(!broken.write_defaults);
    let listed = load(StoredList::Listed(strings(&["Okta.com", "okta.com:443"])));
    assert_eq!(listed.sites, strings(&["okta.com"]));
    assert!(!listed.write_defaults);
}

#[test]
fn loading_what_was_loaded_changes_nothing() {
    for file in [
        None,
        Some(strings(&["HTTP://A.com", "b.com:80", "[::ffff:1.2.3.4]", "x y"])),
        Some(strings(&[])),
    ] {
        let once = load_from(file);
        assert_eq!(load_from(Some(once.clone())), once);
    }
}
