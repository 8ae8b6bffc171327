use drift::progress::{frees_slot, state_for_label, LabelMemo, StallTracker, STALL_AFTER_NANOS};
use drift::state::TorrentState;

#[test]
fn live_unfinished_is_downloading_until_it_stalls() {
    let mut t = StallTracker::new();
    assert_eq!(t.observe("ih", false, "live", 100, 1_000), "downloading");
    assert_eq!(t.observe("ih", false, "live", 100, 1_000 + STALL_AFTER_NANOS - 1), "downloading");
    assert_eq!(t.observe("ih", false, "live", 100, 1_000 + STALL_AFTER_NANOS), "stalled");
}

#[test]
fn growth_resets_the_stall_clock() {
    let mut t = StallTracker::new();
    t.observe("ih", false, "live", 100, 0);
    assert_eq!(t.observe("ih", false, "live", 200, STALL_AFTER_NANOS), "downloading");
    assert_eq!(t.observe("ih", false, "live", 200, 2 * STALL_AFTER_NANOS - 1), "downloading");
    assert_eq!(t.observe("ih", false, "live", 200, 2 * STALL_AFTER_NANOS), "stalled");
}

#[test]
fn stall_clocks_are_per_torrent() {
    let mut t = StallTracker::new();
    t.observe("a", false, "live", 1, 0);
    assert_eq!(t.observe("b", false, "live", 1, STALL_AFTER_NANOS), "downloading");
    assert_eq!(t.observe("a", false, "live", 1, STALL_AFTER_NANOS), "stalled");
}

#[test]
fn leaving_live_forgets_the_stall_clock() {
    let mut t = StallTracker::new();
    t.observe("ih", false, "live", 100, 0);
    assert_eq!(t.observe("ih", false, "paused", 100, 10), "paused");
    assert_eq!(t.observe("ih", false, "live", 100, STALL_AFTER_NANOS), "downloading");
}

#[test]
fn finished_torrents_seed_or_complete() {
    let mut t = StallTracker::new();
    assert_eq!(t.observe("ih", true, "live", 100, 0), "seeding");
    assert_eq!(t.observe("ih", true, "paused", 100, 0), "completed");
    assert_eq!(t.observe("ih", false, "error", 0, 0), "error");
}

#[test]
fn labels_map_to_persisted_states() {
    assert_eq!(state_for_label("downloading", TorrentState::Queued), Some(TorrentState::Downloading));
    assert_eq!(state_for_label("seeding", TorrentState::Downloading), Some(TorrentState::Seeding));
    assert_eq!(state_for_label("paused", TorrentState::Queued), Some(TorrentState::Queued));
    assert_eq!(state_for_label("paused", TorrentState::Downloading), Some(TorrentState::Paused));
    assert_eq!(state_for_label("stalled", TorrentState::Downloading), Some(TorrentState::Stalled));
    assert_eq!(state_for_label("completed", TorrentState::Seeding), Some(TorrentState::Completed));
    assert_eq!(state_for_label("initializing", TorrentState::Downloading), None);
}

#[test]
fn finishing_frees_a_slot() {
    assert!(frees_slot("seeding"));
    assert!(frees_slot("completed"));
    assert!(!frees_slot("downloading"));
}

#[test]
fn label_memo_reports_only_changes() {
    let mut m = LabelMemo::new();
    assert!(m.changed("a", "downloading"));
    assert!(!m.changed("a", "downloading"));
    assert!(m.changed("b", "downloading"));
    assert!(m.changed("a", "seeding"));
    assert!(!m.changed("a", "seeding"));
    assert!(!m.changed("b", "downloading"));
}
