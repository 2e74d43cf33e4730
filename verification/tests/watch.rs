use edt_down_for_me::config::load_from;
use edt_down_for_me::status::{STATUS_GREEN, STATUS_GREY, STATUS_RED};
use edt_down_for_me::watch::{rows_to_update, AppState, SiteRow};
use std::time::{Duration, Instant};

fn names(state: &AppState) -> Vec<String> {
    state.display_names()
}

#[test]
fn add_site_parses_and_refuses_repeats() {
    let t0 = Instant::now();
    let mut state = AppState { sites: Vec::new() };
    assert_eq!(state.add_site("https://Example.com/x", t0), Ok(()));
    assert_eq!(state.add_site("EXAMPLE.COM", t0), Err("Already listed".to_string()));
    assert_eq!(state.add_site("   ", t0), Err("Enter a host or IP".to_string()));
    assert_eq!(state.add_site("a b", t0), Err("Invalid host or IP".to_string()));
    assert_eq!(state.add_site("[::1]:8080", t0), Ok(()));
    assert_eq!(names(&state), vec!["example.com".to_string(), "[::1]:8080".to_string()]);
    assert_eq!(state.sites[0].added_at, t0);
    assert!(state.sites[0].last_ok.is_none());
}

#[test]
fn mark_ok_records_the_first_matching_site() {
    let t0 = Instant::now();
    let t1 = t0 + Duration::from_secs(5);
    let mut state = AppState::from_names(
        &vec!["a.com".to_string(), "bad name".to_string(), "b.com".to_string()],
        t0,
    );
    assert_eq!(names(&state), vec!["a.com".to_string(), "b.com".to_string()]);
    state.mark_ok("B.COM", t1);
    assert_eq!(state.sites[1].last_ok, Some(t1));
    assert_eq!(state.sites[0].last_ok, None);
    state.mark_ok("c.com", t1);
    assert_eq!(state.sites[0].last_ok, None);
    let rows = state.rows(t1 + Duration::from_secs(1));
    assert_eq!(rows[0].host, "a.com");
    assert_eq!(rows[0].status, STATUS_GREY);
    assert_eq!(rows[1].status, STATUS_GREEN);
    let later = state.rows(t0 + Duration::from_secs(120));
    assert_eq!(later[0].status, STATUS_RED);
    assert_eq!(later[1].status, STATUS_RED);
}

#[test]
fn remove_site_ignores_bad_indices() {
    let t0 = Instant::now();
    let mut state =
        AppState::from_names(&vec!["a.com".to_string(), "b.com".to_string()], t0);
    state.remove_site(5);
    assert_eq!(names(&state).len(), 2);
    state.remove_site(0);
    assert_eq!(names(&state), vec!["b.com".to_string()]);
    let targets = state.targets();
    assert_eq!(targets.len(), 1);
    assert_eq!(targets[0].host, "b.com");
}

fn row(host: &str, status: i32) -> SiteRow {
    SiteRow { host: host.to_string(), status }
}

#[test]
fn only_changed_rows_are_updated() {
    let shown = vec![row("a.com", 0), row("b.com", 1), row("c.com", 2)];
    let now = vec![row("a.com", 0), row("b.com", 3), row("d.com", 2)];
    assert_eq!(rows_to_update(&shown, &now), Some(vec![1, 2]));
    assert_eq!(rows_to_update(&shown, &shown), Some(vec![]));
    assert_eq!(rows_to_update(&shown, &now[..2].iter().map(|r| row(&r.host, r.status)).collect()), None);
}

#[test]
fn the_loaded_list_is_saved_back_unchanged() {
    let t0 = Instant::now();
    for file in [
        None,
        Some(vec!["HTTPS://Example.com/x".to_string(), "[::1]:80".to_string(), "?".to_string()]),
    ] {
        let loaded = load_from(file);
        let state = AppState::from_names(&loaded, t0);
        assert_eq!(state.display_names(), loaded);
    }
}
