use drift::commands::magnet_link;
use drift::magnet::{hex, parse, urldecode, MagnetError};

#[test]
fn error_variants() {
    assert_eq!(parse("https://example.com").unwrap_err(), MagnetError::NotMagnet);
    assert_eq!(parse("magnet:?dn=foo").unwrap_err(), MagnetError::MissingInfohash);
    assert_eq!(parse("magnet:?xt=urn:btih:deadbeef").unwrap_err(), MagnetError::WrongLength(8));
}

#[test]
fn base32_length_hash_is_accepted() {
    let m = parse("magnet:?xt=urn:btih:ABCDEFGHIJKLMNOPQRSTUVWXYZ234567").unwrap();
    assert_eq!(m.infohash.as_str(), "abcdefghijklmnopqrstuvwxyz234567");
    assert_eq!(m.display_name, None);
    assert!(m.trackers.is_empty());
}

#[test]
fn surrounding_white_space_is_ignored() {
    let m = parse("  magnet:?xt=urn:btih:c12fe1c06bba254a9dc9f519b335aa7c1367a88a\n").unwrap();
    assert_eq!(m.infohash.as_str(), "c12fe1c06bba254a9dc9f519b335aa7c1367a88a");
}

#[test]
fn later_parameters_win_and_trackers_accumulate() {
    let m = parse(
        "magnet:?dn=first&xt=urn:btih:c12fe1c06bba254a9dc9f519b335aa7c1367a88a&dn=second&tr=a&junk&tr=b&x=y",
    )
    .unwrap();
    assert_eq!(m.display_name.as_deref(), Some("second"));
    assert_eq!(m.trackers, vec!["a", "b"]);
}

#[test]
fn urldecode_plus_and_percent() {
    assert_eq!(urldecode("a+b"), "a b");
    assert_eq!(urldecode("a%41"), "aA");
    assert_eq!(urldecode("%3a%2F"), ":/");
}

#[test]
fn urldecode_keeps_malformed_escapes() {
    assert_eq!(urldecode("%4"), "%4");
    assert_eq!(urldecode("%zz"), "%zz");
    assert_eq!(urldecode("100%"), "100%");
}

#[test]
fn urldecode_replaces_invalid_utf8() {
    assert_eq!(urldecode("%FF"), "\u{FFFD}");
    assert_eq!(urldecode("%C3%A9"), "é");
}

#[test]
fn hex_digits() {
    assert_eq!(hex(b'0'), Some(0));
    assert_eq!(hex(b'9'), Some(9));
    assert_eq!(hex(b'a'), Some(10));
    assert_eq!(hex(b'F'), Some(15));
    assert_eq!(hex(b'g'), None);
}

#[test]
fn magnet_link_encodes_the_name() {
    let link = magnet_link("c12fe1c06bba254a9dc9f519b335aa7c1367a88a", "Ubuntu ISO/β");
    assert_eq!(link, "magnet:?xt=urn:btih:c12fe1c06bba254a9dc9f519b335aa7c1367a88a&dn=Ubuntu%20ISO%2F%CE%B2");
}

#[test]
fn magnet_link_parses_back() {
    let link = magnet_link("c12fe1c06bba254a9dc9f519b335aa7c1367a88a", "My Film (2024) & more");
    let m = parse(&link).unwrap();
    assert_eq!(m.infohash.as_str(), "c12fe1c06bba254a9dc9f519b335aa7c1367a88a");
    assert_eq!(m.display_name.as_deref(), Some("My Film (2024) & more"));
}
