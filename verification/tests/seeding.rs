use drift::seeding::{should_stop, SeedFacts};

fn facts(uploaded: u64, total: u64, completed_at: Option<i64>, now_ms: i64, forced: bool) -> SeedFacts {
    SeedFacts { uploaded, total, completed_at, now_ms, forced }
}

/// The caller's floating-point ratio check, then the verified decision.
fn stop(f: &SeedFacts, ratio_limit: f64, time_limit_mins: u32) -> bool {
    let reached = ratio_limit > 0.0 && f.total > 0 && (f.uploaded as f64 / f.total as f64) >= ratio_limit;
    should_stop(f, reached, time_limit_mins)
}

#[test]
fn unlimited_never_stops() {
    assert!(!stop(&facts(u64::MAX, 1, Some(0), i64::MAX, false), 0.0, 0));
}

#[test]
fn ratio_at_limit_stops() {
    assert!(stop(&facts(200, 100, None, 0, false), 2.0, 0));
}

#[test]
fn ratio_below_limit_keeps_seeding() {
    assert!(!stop(&facts(199, 100, None, 0, false), 2.0, 0));
}

#[test]
fn ratio_above_limit_stops() {
    assert!(stop(&facts(201, 100, None, 0, false), 2.0, 0));
}

#[test]
fn zero_total_never_trips_ratio() {
    assert!(!stop(&facts(500, 0, None, 0, false), 2.0, 0));
}

#[test]
fn time_at_limit_stops() {
    assert!(stop(&facts(0, 100, Some(0), 30 * 60_000, false), 0.0, 30));
}

#[test]
fn time_below_limit_keeps_seeding() {
    assert!(!stop(&facts(0, 100, Some(0), 30 * 60_000 - 1, false), 0.0, 30));
}

#[test]
fn missing_completed_at_never_trips_time() {
    assert!(!stop(&facts(0, 100, None, i64::MAX, false), 0.0, 1));
}

#[test]
fn forced_bypasses_both_limits() {
    assert!(!stop(&facts(u64::MAX, 1, Some(0), i64::MAX, true), 0.1, 1));
}

#[test]
fn either_limit_suffices() {
    assert!(stop(&facts(0, 100, Some(0), 60 * 60_000, false), 5.0, 30));
    assert!(stop(&facts(500, 100, Some(0), 1, false), 2.0, 999));
}

#[test]
fn ratio_flag_ignored_for_empty_torrent() {
    assert!(!should_stop(&facts(5, 0, None, 0, false), true, 0));
    assert!(should_stop(&facts(5, 1, None, 0, false), true, 0));
}

#[test]
fn clock_extremes_do_not_overflow() {
    assert!(should_stop(&facts(0, 1, Some(i64::MIN), i64::MAX, false), false, 1));
    assert!(!should_stop(&facts(0, 1, Some(i64::MAX), i64::MIN, false), false, 1));
}
