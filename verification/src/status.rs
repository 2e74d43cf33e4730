//! The traffic-light status of a watched site, from the time of its last
//! successful probe.
//!
//! - Grey: no successful probe yet, and fewer than 60 seconds since the site
//!   was added.
//! - Green: the latest success is younger than 12 seconds.
//! - Yellow: the latest success is 12 seconds old or older, but younger than
//!   60 seconds (this covers "responded within 36 seconds").
//! - Red: no success for 60 seconds (including never, 60 seconds after the
//!   site was added).

use vstd::prelude::*;
use std::time::{Duration, Instant};

verus! {

/// Grey: no successful probe yet.
pub const STATUS_GREY: i32 = 0;

/// Green: responded within the last 12 seconds.
pub const STATUS_GREEN: i32 = 1;

/// Yellow: last success was 12 to 60 seconds ago (stale, including the 36 s
/// window).
pub const STATUS_YELLOW: i32 = 2;

/// Red: no success in at least 60 seconds.
pub const STATUS_RED: i32 = 3;

/// A success younger than this many seconds is green.
pub const GREEN_WINDOW_SECS: u64 = 12;

/// The stale-but-alive window that yellow covers, in seconds.
pub const YELLOW_WINDOW_SECS: u64 = 36;

/// After this many seconds without a success a site is red.
pub const RED_AFTER_SECS: u64 = 60;

/// The green window in nanoseconds.
pub const GREEN_WINDOW_NANOS: u128 = 12_000_000_000;

/// The red threshold in nanoseconds.
pub const RED_AFTER_NANOS: u128 = 60_000_000_000;

#[verifier::external_type_specification]
#[verifier::external_body]
pub struct ExInstant(Instant);

/// The status of a site whose latest success is `age` nanoseconds old.
pub open spec fn status_since_success(age: nat) -> i32 {
    if age < GREEN_WINDOW_NANOS {
        STATUS_GREEN
    } else if age < RED_AFTER_NANOS {
        STATUS_YELLOW
    } else {
        STATUS_RED
    }
}

/// The status of a site that has never answered and was added `age`
/// nanoseconds ago.
pub open spec fn status_without_success(age: nat) -> i32 {
    if age >= RED_AFTER_NANOS {
        STATUS_RED
    } else {
        STATUS_GREY
    }
}

/// How bad a status is: grey and green 0, yellow 1, red 2.
pub open spec fn severity(status: i32) -> int {
    if status == STATUS_RED {
        2
    } else if status == STATUS_YELLOW {
        1
    } else {
        0
    }
}

/// The status after a success `age_nanos` nanoseconds ago.
pub fn status_after_success(age_nanos: u128) -> (r: i32)
    ensures
        r == status_since_success(age_nanos as nat),
{
    if age_nanos < GREEN_WINDOW_NANOS {
        STATUS_GREEN
    } else if age_nanos < RED_AFTER_NANOS {
        STATUS_YELLOW
    } else {
        STATUS_RED
    }
}

/// The status of a site never seen answering, added `age_nanos` nanoseconds
/// ago.
pub fn status_before_success(age_nanos: u128) -> (r: i32)
    ensures
        r == status_without_success(age_nanos as nat),
{
    if age_nanos >= RED_AFTER_NANOS {
        STATUS_RED
    } else {
        STATUS_GREY
    }
}

/// What `Instant::saturating_duration_since` gives for `now` and `earlier`.
pub uninterp spec fn elapsed_between(now: Instant, earlier: Instant) -> Duration;

/// What `Duration::as_nanos` gives for a duration.
pub uninterp spec fn duration_nanos(d: Duration) -> u128;

/// `Instant::saturating_duration_since`: the time from `earlier` to `now`, or
/// zero when `earlier` is the later one. The contract names the result as a
/// function of the two instants, and claims that the time from an instant to
/// itself is zero nanoseconds long. How two different instants compare is
/// left unsaid: instants are opaque here.
#[verifier::external_body]
fn saturating_duration_since(now: &Instant, earlier: &Instant) -> (d: Duration)
    ensures
        d == elapsed_between(*now, *earlier),
        *now == *earlier ==> duration_nanos(d) == 0,
{
    now.saturating_duration_since(*earlier)
}

/// `Duration::as_nanos`: the whole duration in nanoseconds, named as a
/// function of the duration.
#[verifier::external_body]
fn as_nanos(d: &Duration) -> (n: u128)
    ensures
        n == duration_nanos(*d),
{
    d.as_nanos()
}

/// The nanoseconds from `earlier` to `now`, zero when `earlier` is later.
pub open spec fn nanos_since(now: Instant, earlier: Instant) -> nat {
    duration_nanos(elapsed_between(now, earlier)) as nat
}

/// The status of a site at `now`: with a success, from the age of the latest
/// success; without one, from the time since the site was added.
pub open spec fn status_at(now: Instant, added_at: Instant, last_ok: Option<Instant>) -> i32 {
    match last_ok {
        Some(t) => status_since_success(nanos_since(now, t)),
        None => status_without_success(nanos_since(now, added_at)),
    }
}

/// Computes the indicator for a site.
///
/// With a success, the age of the latest success picks green, yellow or red;
/// without one, the time since the site was added picks grey or red.
pub fn status_for(now: Instant, added_at: Instant, last_ok: Option<Instant>) -> (r: i32)
    ensures
        r == status_at(now, added_at, last_ok),
        last_ok is None && now == added_at ==> r == STATUS_GREY,
{
    match last_ok {
        Some(t) => {
            let age = as_nanos(&saturating_duration_since(&now, &t));
            status_after_success(age)
        },
        None => {
            let age = as_nanos(&saturating_duration_since(&now, &added_at));
            status_before_success(age)
        },
    }
}

// ---------------------------------------------------------------------------
// Laws
// ---------------------------------------------------------------------------

/// As time passes without a new success, a site's status never gets better:
/// green turns yellow, yellow turns red, grey turns red, and red stays red.
pub proof fn law_status_never_improves_with_time(earlier: nat, later: nat)
    requires
        earlier <= later,
    ensures
        severity(status_since_success(earlier)) <= severity(status_since_success(later)),
        severity(status_without_success(earlier)) <= severity(status_without_success(later)),
        status_since_success(earlier) == STATUS_RED ==> status_since_success(later) == STATUS_RED,
        status_without_success(earlier) == STATUS_RED ==> status_without_success(later)
            == STATUS_RED,
{
}

/// Sixty seconds without a success is red, whether or not the site ever
/// answered.
pub proof fn law_red_after_sixty_seconds(age: nat)
    requires
        age >= RED_AFTER_NANOS,
    ensures
        status_since_success(age) == STATUS_RED,
        status_without_success(age) == STATUS_RED,
{
}

/// A site that answered is never grey; a site that never answered is never
/// green or yellow.
pub proof fn law_grey_only_before_first_success(age: nat)
    ensures
        status_since_success(age) != STATUS_GREY,
        status_without_success(age) == STATUS_GREY || status_without_success(age) == STATUS_RED,
{
}

/// Yellow is exactly the window from 12 up to 60 seconds after the latest
/// success, which contains the 36-second mark.
pub proof fn law_yellow_window(age: nat)
    ensures
        status_since_success(age) == STATUS_YELLOW <==> GREEN_WINDOW_NANOS <= age
            < RED_AFTER_NANOS,
        status_since_success(YELLOW_WINDOW_SECS as nat * 1_000_000_000) == STATUS_YELLOW,
{
}

/// Once a site has answered, only the time of its latest success matters:
/// when it was added does not.
pub proof fn law_added_at_matters_only_before_success(
    now: Instant,
    a1: Instant,
    a2: Instant,
    t: Instant,
)
    ensures
        status_at(now, a1, Some(t)) == status_at(now, a2, Some(t)),
{
}

/// As the time measured for a site grows (the time since its latest success,
/// or since it was added when it never answered), its status never gets
/// better.
pub proof fn law_status_at_never_improves(
    now1: Instant,
    now2: Instant,
    added_at: Instant,
    last_ok: Option<Instant>,
)
    requires
        match last_ok {
            Some(t) => nanos_since(now1, t) <= nanos_since(now2, t),
            None => nanos_since(now1, added_at) <= nanos_since(now2, added_at),
        },
    ensures
        severity(status_at(now1, added_at, last_ok)) <= severity(status_at(now2, added_at, last_ok)),
{
}

/// A more recent success never gives a worse status.
pub proof fn law_recent_success_never_worse(now: Instant, added_at: Instant, t1: Instant, t2: Instant)
    requires
        nanos_since(now, t2) <= nanos_since(now, t1),
    ensures
        severity(status_at(now, added_at, Some(t2))) <= severity(status_at(now, added_at, Some(t1))),
{
}

/// The colour of a site that has answered, by the age of its latest
/// success: green under 12 seconds, yellow from 12 up to 60 seconds, red from
/// 60 seconds on; and of a site that never answered, by the time since it was
/// added: grey under 60 seconds, red from then on.
pub proof fn law_status_colours(age: nat)
    ensures
        age < 12_000_000_000 ==> status_since_success(age) == 1i32,
        12_000_000_000 <= age < 60_000_000_000 ==> status_since_success(age) == 2i32,
        age >= 60_000_000_000 ==> status_since_success(age) == 3i32,
        age < 60_000_000_000 ==> status_without_success(age) == 0i32,
        age >= 60_000_000_000 ==> status_without_success(age) == 3i32,
{
}

/// A site whose latest success is younger than 12 seconds is green, whenever
/// it was added.
pub proof fn law_green_after_recent_success(now: Instant, added_at: Instant, t: Instant)
    requires
        nanos_since(now, t) < 12_000_000_000,
    ensures
        status_at(now, added_at, Some(t)) == STATUS_GREEN,
        STATUS_GREEN == 1i32,
{
}

} // verus!
