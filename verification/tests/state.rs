use drift::state::{StateStore, TorrentRecord, TorrentState};

fn rec(ih: &str) -> TorrentRecord {
    TorrentRecord {
        infohash: ih.into(),
        display_name: "x".into(),
        save_path: "C:/".into(),
        state: TorrentState::Downloading,
        added_at: 0,
        total_size: 0,
        selected_files: None,
        queue_position: 0,
        forced: false,
        dl_limit: 0,
        ul_limit: 0,
    }
}

#[test]
fn upsert_replaces() {
    let mut s = StateStore::new();
    s.upsert(rec("aaa"));
    let mut r2 = rec("aaa");
    r2.display_name = "updated".into();
    s.upsert(r2);
    assert_eq!(s.snapshot().torrents.len(), 1);
    assert_eq!(s.snapshot().torrents[0].display_name, "updated");
}

#[test]
fn remove_works() {
    let mut s = StateStore::new();
    s.upsert(rec("aaa"));
    s.remove("aaa");
    assert!(s.snapshot().torrents.is_empty());
}

#[test]
fn contains_check() {
    let mut s = StateStore::new();
    s.upsert(rec("aaa"));
    assert!(s.contains("aaa"));
    assert!(!s.contains("bbb"));
}
