//! Automatic seeding limits: when a seeding torrent should stop.

use vstd::prelude::*;

verus! {

/// Facts about a seeding torrent, as of `now_ms`.
#[derive(Debug)]
pub struct SeedFacts {
    pub uploaded: u64,
    pub total: u64,
    /// When the torrent first finished downloading (ms since the epoch);
    /// `None` when unknown, in which case the time limit never applies.
    pub completed_at: Option<i64>,
    pub now_ms: i64,
    /// Force-started torrents are exempt.
    pub forced: bool,
}

/// Stop seeding: never for a forced torrent; otherwise when the ratio limit is
/// set and reached (only for a torrent of non-zero size), or when the time
/// limit (minutes, 0 = unlimited) has passed since completion.
pub open spec fn should_stop_spec(facts: SeedFacts, ratio_reached: bool, time_limit_mins: u32) -> bool {
    if facts.forced {
        false
    } else if ratio_reached && facts.total > 0 {
        true
    } else if time_limit_mins > 0 && facts.completed_at is Some {
        facts.now_ms - facts.completed_at->0 >= time_limit_mins as int * 60_000
    } else {
        false
    }
}

/// With neither limit set (no ratio limit, a time limit of 0) a torrent
/// seeds on for ever.
pub proof fn lemma_no_limits_never_stop(facts: SeedFacts)
    ensures
        !should_stop_spec(facts, false, 0),
{
}

/// A force-started torrent never stops seeding, whatever the limits.
pub proof fn lemma_forced_never_stops(facts: SeedFacts, ratio_reached: bool, time_limit_mins: u32)
    requires
        facts.forced,
    ensures
        !should_stop_spec(facts, ratio_reached, time_limit_mins),
{
}

/// An empty torrent never trips the ratio limit: without a time limit it
/// seeds on.
pub proof fn lemma_empty_torrent_ignores_ratio(facts: SeedFacts, ratio_reached: bool)
    requires
        facts.total == 0,
    ensures
        !should_stop_spec(facts, ratio_reached, 0),
{
}

/// Whether a seeding torrent has met a seeding limit. `ratio_reached` says
/// whether a ratio limit is set and uploaded / total has reached it (the
/// ratio is compared in floating point by the caller).
pub fn should_stop(facts: &SeedFacts, ratio_reached: bool, time_limit_mins: u32) -> (stop: bool)
    ensures
        stop == should_stop_spec(*facts, ratio_reached, time_limit_mins),
{
    if facts.forced {
        return false;
    }
    if ratio_reached && facts.total > 0 {
        return true;
    }
    if time_limit_mins > 0 {
        if let Some(t) = facts.completed_at {
            let elapsed: i128 = facts.now_ms as i128 - t as i128;
            let limit: i128 = time_limit_mins as i128 * 60_000;
            if elapsed >= limit {
                return true;
            }
        }
    }
    false
}

} // verus!
