use drift::queue::Desired;
use drift::state::{build_items, plan_reconcile, PersistedState, StateStore, TorrentRecord, TorrentState};

fn rec(ih: &str, state: TorrentState, pos: u32) -> TorrentRecord {
    TorrentRecord {
        infohash: ih.into(),
        display_name: ih.into(),
        save_path: "C:/".into(),
        state,
        added_at: 0,
        total_size: 0,
        selected_files: None,
        queue_position: pos,
        forced: false,
        dl_limit: 0,
        ul_limit: 0,
    }
}

#[test]
fn upsert_appends_new_and_keeps_order() {
    let mut s = StateStore::new();
    s.upsert(rec("aaa", TorrentState::Downloading, 0));
    s.upsert(rec("bbb", TorrentState::Downloading, 1));
    s.upsert(rec("aaa", TorrentState::Paused, 0));
    let t = s.snapshot().torrents;
    assert_eq!(t.len(), 2);
    assert_eq!(t[0].infohash, "aaa");
    assert_eq!(t[0].state, TorrentState::Paused);
    assert_eq!(t[1].infohash, "bbb");
}

#[test]
fn upsert_then_find_gives_the_record_back() {
    let mut s = StateStore::new();
    s.upsert(rec("aaa", TorrentState::Seeding, 4));
    let r = s.find("aaa").unwrap();
    assert_eq!(r.state, TorrentState::Seeding);
    assert_eq!(r.queue_position, 4);
    assert!(s.find("zzz").is_none());
}

#[test]
fn remove_keeps_the_others() {
    let mut s = StateStore::new();
    s.upsert(rec("aaa", TorrentState::Downloading, 0));
    s.upsert(rec("bbb", TorrentState::Downloading, 1));
    s.remove("aaa");
    assert!(!s.contains("aaa"));
    assert!(s.contains("bbb"));
    s.remove("missing");
    assert_eq!(s.snapshot().torrents.len(), 1);
}

#[test]
fn next_queue_position_appends_after_the_highest() {
    let mut s = StateStore::new();
    assert_eq!(s.next_queue_position(), 0);
    s.upsert(rec("aaa", TorrentState::Downloading, 3));
    s.upsert(rec("bbb", TorrentState::Downloading, 7));
    s.upsert(rec("ccc", TorrentState::Downloading, 1));
    assert_eq!(s.next_queue_position(), 8);
}

#[test]
fn set_state_and_selection_change_one_record() {
    let mut s = StateStore::new();
    s.upsert(rec("aaa", TorrentState::Downloading, 0));
    s.upsert(rec("bbb", TorrentState::Downloading, 1));
    assert!(s.set_state("bbb", TorrentState::Queued));
    assert!(!s.set_state("ccc", TorrentState::Queued));
    assert!(s.set_selected_files("aaa", vec![0, 2]));
    let t = s.snapshot().torrents;
    assert_eq!(t[0].state, TorrentState::Downloading);
    assert_eq!(t[0].selected_files, Some(vec![0, 2]));
    assert_eq!(t[1].state, TorrentState::Queued);
    assert_eq!(t.len(), 2);
}

#[test]
fn queue_items_follow_the_records() {
    let s = StateStore::from_state(PersistedState {
        torrents: vec![
            rec("p", TorrentState::Paused, 0),
            rec("s", TorrentState::Seeding, 1),
            rec("d", TorrentState::Stalled, 2),
            rec("q", TorrentState::Queued, 3),
        ],
    });
    let items = build_items(&s);
    assert_eq!(items.len(), 4);
    assert_eq!(items[0].desired, Desired::Pause);
    assert!(items[1].finished);
    assert!(items[2].running_now && !items[2].finished);
    assert_eq!(items[3].desired, Desired::Run);
    assert!(!items[3].running_now);
    assert_eq!(items[3].position, 3);
}

#[test]
fn reconcile_plan_resumes_queued_within_the_cap() {
    let s = StateStore::from_state(PersistedState {
        torrents: vec![
            rec("run", TorrentState::Downloading, 0),
            rec("wait1", TorrentState::Queued, 1),
            rec("wait2", TorrentState::Queued, 2),
            rec("done", TorrentState::Seeding, 3),
        ],
    });
    let plan = plan_reconcile(&s, 2);
    assert_eq!(plan.to_start, vec!["wait1"]);
    assert!(plan.to_pause.is_empty());
    let plan = plan_reconcile(&s, 0);
    assert_eq!(plan.to_start, vec!["wait1", "wait2"]);
}

#[test]
fn state_labels() {
    assert_eq!(TorrentState::Queued.label(), "queued");
    assert_eq!(TorrentState::Downloading.label(), "downloading");
    assert_eq!(TorrentState::Completed.label(), "completed");
}
