//! What the user interface receives and sends.

use vstd::prelude::*;
use crate::engine::ProgressUpdate;
use crate::state::{state_label_spec, TorrentRecord, TorrentState};

verus! {

/// One row of the torrent list.
#[derive(Debug)]
pub struct TorrentDto {
    pub infohash: String,
    pub name: String,
    pub downloaded: u64,
    pub total: u64,
    pub uploaded: u64,
    pub down_bps: u64,
    pub up_bps: u64,
    pub peers: u32,
    pub added_at: i64,
    pub state_label: String,
}

/// A request to add a torrent.
#[derive(Debug)]
pub struct AddRequest {
    /// Either a magnet link or the path of a `.torrent` file.
    pub source: String,
    pub override_path: Option<String>,
    pub selected_files: Option<Vec<usize>>,
}

/// A notification for the toast window.
#[derive(Debug)]
pub struct ToastEvent {
    /// "info" | "error"
    pub kind: String,
    pub message: String,
}

impl TorrentDto {
    /// The row for a persisted record before any progress is known: no
    /// bytes moved, no speed, no peers, the size as recorded and the label of
    /// its state.
    pub fn from_record(r: &TorrentRecord) -> (d: Self)
        ensures
            d.infohash@ == r.infohash@,
            d.name@ == r.display_name@,
            d.downloaded == 0,
            d.total == r.total_size,
            d.uploaded == 0,
            d.down_bps == 0,
            d.up_bps == 0,
            d.peers == 0,
            d.added_at == r.added_at,
            d.state_label@ == state_label_spec(r.state),
    {
        TorrentDto {
            infohash: r.infohash.clone(),
            name: r.display_name.clone(),
            downloaded: 0,
            total: r.total_size,
            uploaded: 0,
            down_bps: 0,
            up_bps: 0,
            peers: 0,
            added_at: r.added_at,
            state_label: r.state.label().to_owned(),
        }
    }

    /// The row for a progress report: its figures and label, with the name
    /// and the time added taken from the torrent's record when there is one
    /// (empty name and 0 otherwise).
    pub fn from_progress(u: &ProgressUpdate, rec: Option<&TorrentRecord>) -> (d: Self)
        ensures
            d.infohash@ == u.infohash.0@,
            d.name@ == (match rec {
                Some(r) => r.display_name@,
                None => Seq::<char>::empty(),
            }),
            d.added_at == (match rec {
                Some(r) => r.added_at,
                None => 0,
            }),
            d.downloaded == u.downloaded,
            d.total == u.total,
            d.uploaded == u.uploaded,
            d.down_bps == u.down_bps,
            d.up_bps == u.up_bps,
            d.peers == u.peers,
            d.state_label@ == u.state_label@,
    {
        let (name, added_at) = match rec {
            Some(r) => (r.display_name.clone(), r.added_at),
            None => (String::new(), 0),
        };
        TorrentDto {
            infohash: u.infohash.0.clone(),
            name,
            downloaded: u.downloaded,
            total: u.total,
            uploaded: u.uploaded,
            down_bps: u.down_bps,
            up_bps: u.up_bps,
            peers: u.peers,
            added_at,
            state_label: u.state_label.clone(),
        }
    }
}

} // verus!
