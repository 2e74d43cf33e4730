use edt_down_for_me::status::{status_for, STATUS_GREEN, STATUS_GREY, STATUS_RED, STATUS_YELLOW};
use std::time::{Duration, Instant};

#[test]
fn grey_at_start() {
    let t0 = Instant::now();
    assert_eq!(status_for(t0, t0, None), STATUS_GREY);
    assert_eq!(
        status_for(t0 + Duration::from_secs(59), t0, None),
        STATUS_GREY
    );
}

#[test]
fn green_when_recent() {
    let t0 = Instant::now();
    let last = t0;
    assert_eq!(
        status_for(t0 + Duration::from_secs(11), t0, Some(last)),
        STATUS_GREEN
    );
}

#[test]
fn yellow_after_twelve_including_thirty_six() {
    let t0 = Instant::now();
    let last = t0;
    assert_eq!(
        status_for(t0 + Duration::from_secs(12), t0, Some(last)),
        STATUS_YELLOW
    );
    assert_eq!(
        status_for(t0 + Duration::from_secs(36), t0, Some(last)),
        STATUS_YELLOW
    );
    assert_eq!(
        status_for(t0 + Duration::from_secs(59), t0, Some(last)),
        STATUS_YELLOW
    );
}

#[test]
fn red_after_sixty() {
    let t0 = Instant::now();
    assert_eq!(
        status_for(t0 + Duration::from_secs(60), t0, Some(t0)),
        STATUS_RED
    );
    assert_eq!(
        status_for(t0 + Duration::from_secs(60), t0, None),
        STATUS_RED
    );
}

#[test]
fn boundaries_to_the_nanosecond() {
    let t0 = Instant::now();
    let just_under = t0 + Duration::from_secs(12) - Duration::from_nanos(1);
    assert_eq!(status_for(just_under, t0, Some(t0)), STATUS_GREEN);
    let just_under_red = t0 + Duration::from_secs(60) - Duration::from_nanos(1);
    assert_eq!(status_for(just_under_red, t0, Some(t0)), STATUS_YELLOW);
    assert_eq!(status_for(just_under_red, t0, None), STATUS_GREY);
}

#[test]
fn a_success_in_the_future_counts_as_fresh() {
    let t0 = Instant::now();
    let later = t0 + Duration::from_secs(100);
    assert_eq!(status_for(t0, t0, Some(later)), STATUS_GREEN);
    assert_eq!(status_for(t0, later, None), STATUS_GREY);
}
