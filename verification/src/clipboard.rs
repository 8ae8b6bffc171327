//! Deciding what a clipboard change means: a newly copied magnet link that
//! is not in the torrent list yet is offered for adding.

use vstd::prelude::*;
use crate::magnet::{parse, parse_spec};
use crate::state::{has_hash, StateStore};
use crate::text::{chars_of, chars_start_with, starts_with, str_eq};

verus! {

/// A magnet link found on the clipboard, as the toast window shows it.
#[derive(Debug)]
pub struct MagnetDetected {
    pub infohash: String,
    /// The link's display name, or its infohash when it has none.
    pub name: String,
    /// The clipboard text itself.
    pub uri: String,
}

/// The clipboard watcher's memory: the text it saw last.
pub struct ClipboardWatcher {
    pub last_text: Option<String>,
}

/// Offer a magnet link when the text differs from the last one seen, starts
/// with `magnet:?`, parses, and its infohash is not in the list.
pub open spec fn offer_spec(last: Option<Seq<char>>, text: Seq<char>, records: Seq<crate::state::RecordView>) -> Option<(Seq<char>, Seq<char>, Seq<char>)> {
    if last == Some(text) || !starts_with(text, "magnet:?"@) {
        None
    } else {
        match parse_spec(text) {
            Err(_) => None,
            Ok(m) => if has_hash(records, m.infohash) {
                None
            } else {
                Some((m.infohash, match m.display_name { Some(d) => d, None => m.infohash }, text))
            },
        }
    }
}

impl ClipboardWatcher {
    /// Nothing seen yet.
    pub fn new() -> (w: Self)
        ensures
            w.last_text is None,
    {
        ClipboardWatcher { last_text: None }
    }

    /// One reading of the clipboard text. The text becomes the last one seen;
    /// the result is the magnet link to offer, if any.
    pub fn observe(&mut self, text: String, state: &StateStore) -> (offer: Option<MagnetDetected>)
        ensures
            final(self).last_text is Some,
            final(self).last_text->0@ == text@,
            match offer {
                Some(d) => offer_spec(
                    match old(self).last_text { Some(l) => Some(l@), None => None },
                    text@,
                    state@,
                ) == Some((d.infohash@, d.name@, d.uri@)),
                None => offer_spec(
                    match old(self).last_text { Some(l) => Some(l@), None => None },
                    text@,
                    state@,
                ) is None,
            },
    {
        let same = match &self.last_text {
            Some(l) => str_eq(l.as_str(), text.as_str()),
            None => false,
        };
        if same {
            return None;
        }
        self.last_text = Some(text.clone());
        let cs = chars_of(text.as_str());
        let prefix = chars_of("magnet:?");
        if !chars_start_with(cs.as_slice(), prefix.as_slice()) {
            return None;
        }
        match parse(text.as_str()) {
            Err(_) => None,
            Ok(parsed) => {
                if state.contains(parsed.infohash.as_str()) {
                    return None;
                }
                let name = match &parsed.display_name {
                    Some(d) => d.clone(),
                    None => parsed.infohash.0.clone(),
                };
                Some(MagnetDetected { infohash: parsed.infohash.0.clone(), name, uri: text })
            },
        }
    }
}

/// Copying the same text again offers nothing: a magnet link copied twice in
/// a row is offered at most once.
pub proof fn lemma_same_text_offered_once(text: Seq<char>, records: Seq<crate::state::RecordView>)
    ensures
        offer_spec(Some(text), text, records) is None,
{
}

/// A text that differs from the last one seen is judged afresh, as if
/// nothing had been seen: copying B and then A again offers A again.
pub proof fn lemma_changed_text_judged_afresh(
    last: Seq<char>,
    text: Seq<char>,
    records: Seq<crate::state::RecordView>,
)
    requires
        last != text,
    ensures
        offer_spec(Some(last), text, records) == offer_spec(None, text, records),
{
}

/// Where the magnet toast goes on a screen of this size: its top-left corner
/// 360 + 16 pixels from the right edge and 120 + 56 from the bottom (room
/// for the taskbar).
pub fn toast_position(screen_width: u32, screen_height: u32) -> (pos: (i32, i32))
    requires
        screen_width <= i32::MAX,
        screen_height <= i32::MAX,
    ensures
        pos.0 == screen_width - 360 - 16,
        pos.1 == screen_height - 120 - 56,
{
    (screen_width as i32 - 360 - 16, screen_height as i32 - 120 - 56)
}

} // verus!
