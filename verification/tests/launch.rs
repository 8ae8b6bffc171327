use drift::launch::{dropped_source, names_source, source_from_args};

fn args(v: &[&str]) -> Vec<String> {
    v.iter().map(|s| s.to_string()).collect()
}

#[test]
fn sources_are_magnets_and_torrent_files() {
    assert!(names_source("magnet:?xt=urn:btih:abc"));
    assert!(names_source("C:/x/a.torrent"));
    assert!(!names_source("--minimized"));
    assert!(!names_source("a.TORRENT"));
}

#[test]
fn first_source_after_the_program_name() {
    let a = args(&["drift.exe", "--flag", "a.torrent", "magnet:?x"]);
    assert_eq!(source_from_args(&a), Some("a.torrent".to_string()));
}

#[test]
fn program_name_itself_is_never_the_source() {
    let a = args(&["x.torrent"]);
    assert_eq!(source_from_args(&a), None);
    assert_eq!(source_from_args(&[]), None);
}

#[test]
fn dropped_torrent_file_preferred() {
    let p = args(&["C:/a/notes.txt", "C:/a/B.Torrent", "C:/a/c.torrent"]);
    assert_eq!(dropped_source(&p), Some(1));
}

#[test]
fn dropped_without_torrent_takes_first() {
    let p = args(&["C:/a/notes.txt", "C:/a/x.zip"]);
    assert_eq!(dropped_source(&p), Some(0));
    assert_eq!(dropped_source(&[]), None);
}
