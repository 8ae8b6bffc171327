//! The decisions of the once-a-second progress loop: which label a torrent
//! gets (with stall detection) and which persisted state a label means.

use vstd::prelude::*;
use crate::state::{change_first, find_spec, has_hash, with_state, RecordView, StateStore, TorrentState};
use crate::text::{chars_of, str_eq};

verus! {

/// A live download whose byte count has not grown for this long is stalled.
pub const STALL_AFTER_NANOS: u64 = 30_000_000_000;

/// When a live, unfinished torrent last made progress.
struct StallEntry {
    infohash: String,
    last_downloaded: u64,
    since_nanos: u64,
}

/// Stall tracking, keyed by infohash: the byte count last seen growing and
/// when (in nanoseconds of a monotonic clock).
pub struct StallTracker {
    entries: Vec<StallEntry>,
}

/// The label a torrent gets: finished torrents are "seeding" while live and
/// "completed" otherwise; unfinished live ones are "downloading" or
/// "stalled"; any other engine state is reported as the engine names it.
pub open spec fn label_spec(finished: bool, raw_state: Seq<char>, stalled: bool) -> Seq<char> {
    if finished {
        if raw_state == "live"@ { "seeding"@ } else { "completed"@ }
    } else if raw_state == "live"@ {
        if stalled { "stalled"@ } else { "downloading"@ }
    } else {
        raw_state
    }
}

/// The stall entry after one observation of a live, unfinished torrent:
/// created at the first observation, reset whenever the byte count grows.
pub open spec fn next_entry(prev: Option<(u64, u64)>, downloaded: u64, now: u64) -> (u64, u64) {
    match prev {
        None => (downloaded, now),
        Some((last, since)) => if downloaded > last { (downloaded, now) } else { (last, since) },
    }
}

/// Stalled: no growth for at least `STALL_AFTER_NANOS` (time running
/// backwards counts as no time).
pub open spec fn is_stalled(entry: (u64, u64), now: u64) -> bool {
    now >= entry.1 && now - entry.1 >= STALL_AFTER_NANOS
}

impl StallTracker {
    #[verifier::type_invariant]
    spec fn keys_unique(&self) -> bool {
        forall|a: int, b: int|
            0 <= a < b < self.entries@.len() ==> self.entries@[a].infohash@ != self.entries@[b].infohash@
    }

    /// The stall entries, by infohash.
    pub closed spec fn stall_map(&self) -> Map<Seq<char>, (u64, u64)> {
        Map::new(
            |k: Seq<char>| exists|i: int| 0 <= i < self.entries@.len() && self.entries@[i].infohash@ == k,
            |k: Seq<char>| {
                let i = choose|i: int| 0 <= i < self.entries@.len() && self.entries@[i].infohash@ == k;
                (self.entries@[i].last_downloaded, self.entries@[i].since_nanos)
            },
        )
    }

    /// No stall entries.
    pub fn new() -> (t: Self)
        ensures
            t.stall_map() == Map::<Seq<char>, (u64, u64)>::empty(),
    {
        let t = StallTracker { entries: Vec::new() };
        assert(t.stall_map() =~= Map::<Seq<char>, (u64, u64)>::empty());
        t
    }

    fn position(&self, ih: &str) -> (p: Option<usize>)
        ensures
            match p {
                Some(i) => i < self.entries@.len() && self.entries@[i as int].infohash@ == ih@,
                None => forall|i: int| 0 <= i < self.entries@.len() ==> self.entries@[i].infohash@ != ih@,
            },
    {
        for i in 0..self.entries.len()
            invariant
                forall|j: int| 0 <= j < i ==> self.entries@[j].infohash@ != ih@,
        {
            if str_eq(self.entries[i].infohash.as_str(), ih) {
                return Some(i);
            }
        }
        None
    }

    proof fn lemma_lookup(&self, i: int)
        requires
            0 <= i < self.entries@.len(),
            self.keys_unique(),
        ensures
            self.stall_map().contains_key(self.entries@[i].infohash@),
            self.stall_map()[self.entries@[i].infohash@] == (self.entries@[i].last_downloaded, self.entries@[i].since_nanos),
    {
        let k = self.entries@[i].infohash@;
        let j = choose|j: int| 0 <= j < self.entries@.len() && self.entries@[j].infohash@ == k;
        if j != i {
            if j < i {
                assert(self.entries@[j].infohash@ != self.entries@[i].infohash@);
            } else {
                assert(self.entries@[i].infohash@ != self.entries@[j].infohash@);
            }
        }
    }

    /// Stop tracking a torrent.
    fn forget(&mut self, ih: &str)
        ensures
            final(self).stall_map() == old(self).stall_map().remove(ih@),
    {
        proof {
            use_type_invariant(&*self);
        }
        match self.position(ih) {
            None => {
                assert(self.stall_map() =~= self.stall_map().remove(ih@));
            },
            Some(i) => {
                let ghost before = *self;
                let mut entries: Vec<StallEntry> = Vec::new();
                std::mem::swap(&mut entries, &mut self.entries);
                let _ = entries.remove(i);
                let ghost after = entries@;
                assert forall|a: int, b: int| 0 <= a < b < after.len() implies after[a].infohash@ != after[b].infohash@ by {
                    let oa = if a < i { a } else { a + 1 };
                    let ob = if b < i { b } else { b + 1 };
                    assert(after[a] == before.entries@[oa]);
                    assert(after[b] == before.entries@[ob]);
                }
                self.entries = entries;
                assert forall|k: Seq<char>| #![auto] self.stall_map().dom().contains(k) == before.stall_map().remove(ih@).dom().contains(k) by {
                    if self.stall_map().dom().contains(k) {
                        let j = choose|j: int| 0 <= j < after.len() && after[j].infohash@ == k;
                        let oj = if j < i { j } else { j + 1 };
                        assert(before.entries@[oj].infohash@ == k);
                        if k == ih@ {
                            assert(before.entries@[i as int].infohash@ == ih@);
                        }
                    }
                    if before.stall_map().remove(ih@).dom().contains(k) {
                        let j = choose|j: int| 0 <= j < before.entries@.len() && before.entries@[j].infohash@ == k;
                        assert(j != i);
                        let nj = if j < i { j } else { j - 1 };
                        assert(after[nj].infohash@ == k);
                    }
                }
                assert forall|k: Seq<char>| #![auto] self.stall_map().dom().contains(k) implies self.stall_map()[k] == before.stall_map()[k] by {
                    let j = choose|j: int| 0 <= j < after.len() && after[j].infohash@ == k;
                    let oj = if j < i { j } else { j + 1 };
                    self.lemma_lookup(j);
                    before.lemma_lookup(oj);
                }
                assert(self.stall_map() =~= before.stall_map().remove(ih@));
            },
        }
    }

    /// Record an observation of a live, unfinished torrent; returns the
    /// stall entry after it.
    fn touch(&mut self, ih: &str, downloaded: u64, now: u64) -> (e: (u64, u64))
        ensures
            e == next_entry(
                if old(self).stall_map().contains_key(ih@) { Some(old(self).stall_map()[ih@]) } else { None },
                downloaded,
                now,
            ),
            final(self).stall_map() == old(self).stall_map().insert(ih@, e),
    {
        proof {
            use_type_invariant(&*self);
        }
        let ghost before = *self;
        match self.position(ih) {
            None => {
                assert(!before.stall_map().contains_key(ih@));
                let ghost old_entries = self.entries@;
                let entry = StallEntry { infohash: ih.to_owned(), last_downloaded: downloaded, since_nanos: now };
                let mut entries: Vec<StallEntry> = Vec::new();
                std::mem::swap(&mut entries, &mut self.entries);
                entries.push(entry);
                let ghost after = entries@;
                assert forall|a: int, b: int| 0 <= a < b < after.len() implies after[a].infohash@ != after[b].infohash@ by {
                    if b == after.len() - 1 {
                        assert(old_entries[a].infohash@ != ih@);
                    }
                }
                self.entries = entries;
                let n = self.entries.len();
                proof {
                    self.lemma_lookup(n - 1);
                    assert forall|k: Seq<char>| #![auto] self.stall_map().dom().contains(k) == before.stall_map().insert(ih@, (downloaded, now)).dom().contains(k) by {
                        if self.stall_map().dom().contains(k) && k != ih@ {
                            let j = choose|j: int| 0 <= j < after.len() && after[j].infohash@ == k;
                            assert(old_entries[j].infohash@ == k);
                        }
                        if before.stall_map().dom().contains(k) {
                            let j = choose|j: int| 0 <= j < old_entries.len() && old_entries[j].infohash@ == k;
                            assert(after[j].infohash@ == k);
                        }
                    }
                    assert forall|k: Seq<char>| #![auto] self.stall_map().dom().contains(k) && k != ih@ implies self.stall_map()[k] == before.stall_map()[k] by {
                        let j = choose|j: int| 0 <= j < after.len() && after[j].infohash@ == k;
                        self.lemma_lookup(j);
                        before.lemma_lookup(j);
                    }
                    assert(self.stall_map() =~= before.stall_map().insert(ih@, (downloaded, now)));
                }
                (downloaded, now)
            },
            Some(i) => {
                proof {
                    before.lemma_lookup(i as int);
                }
                let last = self.entries[i].last_downloaded;
                let since = self.entries[i].since_nanos;
                if downloaded > last {
                    let ghost old_entries = self.entries@;
                    let mut entries: Vec<StallEntry> = Vec::new();
                    std::mem::swap(&mut entries, &mut self.entries);
                    let name = entries[i].infohash.clone();
                    entries.set(i, StallEntry { infohash: name, last_downloaded: downloaded, since_nanos: now });
                    let ghost after = entries@;
                    assert forall|a: int, b: int| 0 <= a < b < after.len() implies after[a].infohash@ != after[b].infohash@ by {
                        assert(after[a].infohash@ == old_entries[a].infohash@);
                        assert(after[b].infohash@ == old_entries[b].infohash@);
                    }
                    self.entries = entries;
                    proof {
                        self.lemma_lookup(i as int);
                        assert forall|k: Seq<char>| #![auto] self.stall_map().dom().contains(k) == before.stall_map().dom().contains(k) by {
                            if self.stall_map().dom().contains(k) {
                                let j = choose|j: int| 0 <= j < after.len() && after[j].infohash@ == k;
                                assert(old_entries[j].infohash@ == k);
                            }
                            if before.stall_map().dom().contains(k) {
                                let j = choose|j: int| 0 <= j < old_entries.len() && old_entries[j].infohash@ == k;
                                assert(after[j].infohash@ == k);
                            }
                        }
                        assert forall|k: Seq<char>| #![auto] self.stall_map().dom().contains(k) && k != ih@ implies self.stall_map()[k] == before.stall_map()[k] by {
                            let j = choose|j: int| 0 <= j < after.len() && after[j].infohash@ == k;
                            self.lemma_lookup(j);
                            before.lemma_lookup(j);
                        }
                        assert(self.stall_map() =~= before.stall_map().insert(ih@, (downloaded, now)));
                    }
                    (downloaded, now)
                } else {
                    assert(before.stall_map() =~= before.stall_map().insert(ih@, (last, since)));
                    (last, since)
                }
            },
        }
    }

    /// One progress tick for one torrent: update stall tracking and return
    /// its label. `now` is a monotonic clock reading in nanoseconds.
    pub fn observe(&mut self, ih: &str, finished: bool, raw_state: &str, downloaded: u64, now: u64) -> (label: String)
        ensures
            ({
                let prev = if old(self).stall_map().contains_key(ih@) {
                    Some(old(self).stall_map()[ih@])
                } else {
                    None
                };
                let live = raw_state@ == "live"@;
                &&& (finished || !live) ==> final(self).stall_map() == old(self).stall_map().remove(ih@)
                &&& (!finished && live) ==> final(self).stall_map() == old(self).stall_map().insert(
                    ih@,
                    next_entry(prev, downloaded, now),
                )
                &&& label@ == label_spec(
                    finished,
                    raw_state@,
                    !finished && live && is_stalled(next_entry(prev, downloaded, now), now),
                )
            }),
    {
        let live_text = chars_of("live");
        let raw = chars_of(raw_state);
        let live = crate::text::chars_eq(raw.as_slice(), live_text.as_slice());
        if finished {
            self.forget(ih);
            if live {
                "seeding".to_owned()
            } else {
                "completed".to_owned()
            }
        } else if live {
            let entry = self.touch(ih, downloaded, now);
            if now >= entry.1 && now - entry.1 >= STALL_AFTER_NANOS {
                "stalled".to_owned()
            } else {
                "downloading".to_owned()
            }
        } else {
            self.forget(ih);
            raw_state.to_owned()
        }
    }
}

/// The persisted state a reported label means, given the record's current
/// state: the engine reports "paused" for both user-paused and queued
/// torrents, so a queued record stays queued; labels without a persisted
/// meaning ("initializing", "error", …) change nothing.
pub open spec fn state_for_label_spec(label: Seq<char>, current: TorrentState) -> Option<TorrentState> {
    if label == "downloading"@ {
        Some(TorrentState::Downloading)
    } else if label == "seeding"@ {
        Some(TorrentState::Seeding)
    } else if label == "paused"@ {
        Some(if current == TorrentState::Queued { TorrentState::Queued } else { TorrentState::Paused })
    } else if label == "stalled"@ {
        Some(TorrentState::Stalled)
    } else if label == "completed"@ {
        Some(TorrentState::Completed)
    } else {
        None
    }
}

/// The persisted state a progress label means for a record in `current`.
pub fn state_for_label(label: &str, current: TorrentState) -> (st: Option<TorrentState>)
    ensures
        st == state_for_label_spec(label@, current),
{
    if str_eq(label, "downloading") {
        Some(TorrentState::Downloading)
    } else if str_eq(label, "seeding") {
        Some(TorrentState::Seeding)
    } else if str_eq(label, "paused") {
        Some(
            match current {
                TorrentState::Queued => TorrentState::Queued,
                _ => TorrentState::Paused,
            },
        )
    } else if str_eq(label, "stalled") {
        Some(TorrentState::Stalled)
    } else if str_eq(label, "completed") {
        Some(TorrentState::Completed)
    } else {
        None
    }
}

/// A finished download frees a queue slot: "seeding" and "completed" labels
/// call for a new queue decision.
pub fn frees_slot(label: &str) -> (b: bool)
    ensures
        b == (label@ == "seeding"@ || label@ == "completed"@),
{
    str_eq(label, "seeding") || str_eq(label, "completed")
}

/// The last label reported for each torrent, so that only changes are acted on.
pub struct LabelMemo {
    labels: Vec<(String, String)>,
}

impl LabelMemo {
    #[verifier::type_invariant]
    spec fn keys_unique(&self) -> bool {
        forall|a: int, b: int| 0 <= a < b < self.labels@.len() ==> self.labels@[a].0@ != self.labels@[b].0@
    }

    /// The remembered label of each torrent.
    pub closed spec fn remembered(&self) -> Map<Seq<char>, Seq<char>> {
        Map::new(
            |k: Seq<char>| exists|i: int| 0 <= i < self.labels@.len() && self.labels@[i].0@ == k,
            |k: Seq<char>| {
                let i = choose|i: int| 0 <= i < self.labels@.len() && self.labels@[i].0@ == k;
                self.labels@[i].1@
            },
        )
    }

    /// Nothing remembered.
    pub fn new() -> (m: Self)
        ensures
            m.remembered() == Map::<Seq<char>, Seq<char>>::empty(),
    {
        let m = LabelMemo { labels: Vec::new() };
        assert(m.remembered() =~= Map::<Seq<char>, Seq<char>>::empty());
        m
    }

    proof fn lemma_lookup(&self, i: int)
        requires
            0 <= i < self.labels@.len(),
            self.keys_unique(),
        ensures
            self.remembered().contains_key(self.labels@[i].0@),
            self.remembered()[self.labels@[i].0@] == self.labels@[i].1@,
    {
        let k = self.labels@[i].0@;
        let j = choose|j: int| 0 <= j < self.labels@.len() && self.labels@[j].0@ == k;
        if j != i {
            if j < i {
                assert(self.labels@[j].0@ != self.labels@[i].0@);
            } else {
                assert(self.labels@[i].0@ != self.labels@[j].0@);
            }
        }
    }

    /// Whether `label` differs from the one remembered for `ih` (or none is);
    /// the new label is remembered either way.
    pub fn changed(&mut self, ih: &str, label: &str) -> (c: bool)
        ensures
            c == !(old(self).remembered().contains_key(ih@) && old(self).remembered()[ih@] == label@),
            final(self).remembered() == old(self).remembered().insert(ih@, label@),
    {
        proof {
            use_type_invariant(&*self);
        }
        let ghost before = *self;
        let n = self.labels.len();
        let mut i: usize = 0;
        while i < n
            invariant
                n == self.labels@.len(),
                *self == before,
                *old(self) == before,
                before.keys_unique(),
                i <= n,
                forall|j: int| 0 <= j < i ==> self.labels@[j].0@ != ih@,
            decreases n - i,
        {
            if str_eq(self.labels[i].0.as_str(), ih) {
                proof {
                    before.lemma_lookup(i as int);
                }
                let same = str_eq(self.labels[i].1.as_str(), label);
                let ghost old_labels = self.labels@;
                let mut labels: Vec<(String, String)> = Vec::new();
                std::mem::swap(&mut labels, &mut self.labels);
                let key = labels[i].0.clone();
                labels.set(i, (key, label.to_owned()));
                let ghost after = labels@;
                assert forall|a: int, b: int| 0 <= a < b < after.len() implies after[a].0@ != after[b].0@ by {
                    assert(after[a].0@ == old_labels[a].0@);
                    assert(after[b].0@ == old_labels[b].0@);
                }
                self.labels = labels;
                proof {
                    self.lemma_lookup(i as int);
                    assert forall|k: Seq<char>| #![auto] self.remembered().dom().contains(k) == before.remembered().dom().contains(k) by {
                        if self.remembered().dom().contains(k) {
                            let j = choose|j: int| 0 <= j < after.len() && after[j].0@ == k;
                            assert(old_labels[j].0@ == k);
                        }
                        if before.remembered().dom().contains(k) {
                            let j = choose|j: int| 0 <= j < old_labels.len() && old_labels[j].0@ == k;
                            assert(after[j].0@ == k);
                        }
                    }
                    assert forall|k: Seq<char>| #![auto] self.remembered().dom().contains(k) && k != ih@ implies self.remembered()[k] == before.remembered()[k] by {
                        let j = choose|j: int| 0 <= j < after.len() && after[j].0@ == k;
                        self.lemma_lookup(j);
                        before.lemma_lookup(j);
                    }
                    assert(self.remembered() =~= before.remembered().insert(ih@, label@));
                }
                return !same;
            }
            i = i + 1;
        }
        proof {
            if before.remembered().contains_key(ih@) {
                let j = choose|j: int| 0 <= j < before.labels@.len() && before.labels@[j].0@ == ih@;
            }
        }
        let ghost old_labels = self.labels@;
        let mut labels: Vec<(String, String)> = Vec::new();
        std::mem::swap(&mut labels, &mut self.labels);
        labels.push((ih.to_owned(), label.to_owned()));
        let ghost after = labels@;
        assert forall|a: int, b: int| 0 <= a < b < after.len() implies after[a].0@ != after[b].0@ by {
            if b == after.len() - 1 {
                assert(old_labels[a].0@ != ih@);
            }
        }
        self.labels = labels;
        proof {
            self.lemma_lookup(n as int);
            assert forall|k: Seq<char>| #![auto] self.remembered().dom().contains(k) == before.remembered().insert(ih@, label@).dom().contains(k) by {
                if self.remembered().dom().contains(k) && k != ih@ {
                    let j = choose|j: int| 0 <= j < after.len() && after[j].0@ == k;
                    assert(old_labels[j].0@ == k);
                }
                if before.remembered().dom().contains(k) {
                    let j = choose|j: int| 0 <= j < old_labels.len() && old_labels[j].0@ == k;
                    assert(after[j].0@ == k);
                }
            }
            assert forall|k: Seq<char>| #![auto] self.remembered().dom().contains(k) && k != ih@ implies self.remembered()[k] == before.remembered()[k] by {
                let j = choose|j: int| 0 <= j < after.len() && after[j].0@ == k;
                self.lemma_lookup(j);
                before.lemma_lookup(j);
            }
            assert(self.remembered() =~= before.remembered().insert(ih@, label@));
        }
        true
    }
}

/// A live torrent whose byte count grew since it was last seen (or that is
/// seen for the first time) is not stalled.
pub proof fn lemma_growth_is_not_stalled(prev: Option<(u64, u64)>, downloaded: u64, now: u64)
    requires
        prev matches Some(e) ==> downloaded > e.0,
    ensures
        !is_stalled(next_entry(prev, downloaded, now), now),
{
}

/// A live, unfinished torrent whose byte count has not grown since an
/// observation at least `STALL_AFTER_NANOS` ago is labelled "stalled",
/// whatever its byte count (none at all included); one observed again within
/// that time, or whose count grew, is labelled "downloading".
pub proof fn lemma_no_growth_stalls(last: u64, since: u64, downloaded: u64, now: u64)
    ensures
        downloaded <= last && now >= since + STALL_AFTER_NANOS ==> label_spec(
            false,
            "live"@,
            is_stalled(next_entry(Some((last, since)), downloaded, now), now),
        ) == "stalled"@,
        downloaded <= last && now < since + STALL_AFTER_NANOS ==> label_spec(
            false,
            "live"@,
            is_stalled(next_entry(Some((last, since)), downloaded, now), now),
        ) == "downloading"@,
        downloaded > last ==> label_spec(
            false,
            "live"@,
            is_stalled(next_entry(Some((last, since)), downloaded, now), now),
        ) == "downloading"@,
{
}

/// A label reported again right after it was acted on is not acted on
/// again: only changes count.
pub proof fn lemma_repeated_label_is_no_change(remembered: Map<Seq<char>, Seq<char>>, ih: Seq<char>, label: Seq<char>)
    ensures
        remembered.insert(ih, label).contains_key(ih) && remembered.insert(ih, label)[ih] == label,
{
}

/// The list after a new label for `ih`: the first record with that infohash
/// takes the state the label means, when the label means one and it differs
/// from the record's.
pub open spec fn relabeled(records: Seq<RecordView>, ih: Seq<char>, label: Seq<char>) -> Seq<RecordView> {
    match find_spec(records, ih) {
        Some(r) => match state_for_label_spec(label, r.state) {
            Some(s) => if s != r.state {
                change_first(records, ih, with_state(r, s))
            } else {
                records
            },
            None => records,
        },
        None => records,
    }
}

/// Act on one progress report's label. Only a label that differs from the
/// last one reported for the torrent is acted on: the state it means is
/// stored for a torrent in the list, and when such a torrent has just
/// finished ("seeding" or "completed") a queue decision is due, which the
/// result says.
pub fn apply_label(memo: &mut LabelMemo, store: &mut StateStore, ih: &str, label: &str) -> (reconcile: bool)
    ensures
        ({
            let fresh = !(old(memo).remembered().contains_key(ih@) && old(memo).remembered()[ih@] == label@);
            &&& final(memo).remembered() == old(memo).remembered().insert(ih@, label@)
            &&& final(store)@ == (if fresh { relabeled(old(store)@, ih@, label@) } else { old(store)@ })
            &&& reconcile == (fresh && has_hash(old(store)@, ih@) && (label@ == "seeding"@ || label@ == "completed"@))
        }),
{
    let fresh = memo.changed(ih, label);
    if !fresh {
        return false;
    }
    match store.find(ih) {
        None => false,
        Some(r) => {
            match state_for_label(label, r.state) {
                Some(s) => {
                    if s != r.state {
                        store.set_state(ih, s);
                    }
                },
                None => {},
            }
            frees_slot(label)
        },
    }
}

} // verus!
