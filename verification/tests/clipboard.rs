use drift::clipboard::ClipboardWatcher;
use drift::state::{StateStore, TorrentRecord, TorrentState};

const LINK: &str = "magnet:?xt=urn:btih:c12fe1c06bba254a9dc9f519b335aa7c1367a88a&dn=Ubuntu+ISO";

fn record(ih: &str) -> TorrentRecord {
    TorrentRecord {
        infohash: ih.into(),
        display_name: "x".into(),
        save_path: "C:/".into(),
        state: TorrentState::Downloading,
        added_at: 0,
        total_size: 0,
        selected_files: None,
        queue_position: 0,
        forced: false,
        dl_limit: 0,
        ul_limit: 0,
    }
}

#[test]
fn new_magnet_is_offered_once() {
    let store = StateStore::new();
    let mut w = ClipboardWatcher::new();
    let d = w.observe(LINK.to_string(), &store).unwrap();
    assert_eq!(d.infohash, "c12fe1c06bba254a9dc9f519b335aa7c1367a88a");
    assert_eq!(d.name, "Ubuntu ISO");
    assert_eq!(d.uri, LINK);
    assert!(w.observe(LINK.to_string(), &store).is_none());
    assert_eq!(w.last_text.as_deref(), Some(LINK));
}

#[test]
fn known_torrent_is_not_offered() {
    let mut store = StateStore::new();
    store.upsert(record("c12fe1c06bba254a9dc9f519b335aa7c1367a88a"));
    let mut w = ClipboardWatcher::new();
    assert!(w.observe(LINK.to_string(), &store).is_none());
}

#[test]
fn other_text_is_not_offered() {
    let store = StateStore::new();
    let mut w = ClipboardWatcher::new();
    assert!(w.observe("hello".to_string(), &store).is_none());
    assert!(w.observe("magnet:?dn=nohash".to_string(), &store).is_none());
    assert_eq!(w.last_text.as_deref(), Some("magnet:?dn=nohash"));
}

#[test]
fn nameless_magnet_is_named_by_its_hash() {
    let store = StateStore::new();
    let mut w = ClipboardWatcher::new();
    let d = w.observe("magnet:?xt=urn:btih:C12FE1C06BBA254A9DC9F519B335AA7C1367A88A".to_string(), &store).unwrap();
    assert_eq!(d.name, "c12fe1c06bba254a9dc9f519b335aa7c1367a88a");
}
