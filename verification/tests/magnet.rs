use drift::magnet::parse;

#[test]
fn parses_basic_magnet() {
    let m = parse("magnet:?xt=urn:btih:c12fe1c06bba254a9dc9f519b335aa7c1367a88a&dn=Ubuntu+ISO").unwrap();
    assert_eq!(m.infohash.as_str(), "c12fe1c06bba254a9dc9f519b335aa7c1367a88a");
    assert_eq!(m.display_name.as_deref(), Some("Ubuntu ISO"));
}

#[test]
fn parses_with_trackers() {
    let m = parse("magnet:?xt=urn:btih:c12fe1c06bba254a9dc9f519b335aa7c1367a88a&tr=udp%3A%2F%2Ftracker.example%3A80").unwrap();
    assert_eq!(m.trackers, vec!["udp://tracker.example:80"]);
}

#[test]
fn rejects_non_magnet() {
    assert!(parse("https://example.com").is_err());
}

#[test]
fn rejects_missing_xt() {
    assert!(parse("magnet:?dn=foo").is_err());
}

#[test]
fn rejects_wrong_length_hash() {
    assert!(parse("magnet:?xt=urn:btih:deadbeef").is_err());
}

#[test]
fn infohash_lowercased() {
    let m = parse("magnet:?xt=urn:btih:C12FE1C06BBA254A9DC9F519B335AA7C1367A88A").unwrap();
    assert_eq!(m.infohash.as_str(), "c12fe1c06bba254a9dc9f519b335aa7c1367a88a");
}
