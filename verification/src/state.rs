//! The persisted torrent list: one record per torrent, keyed by infohash.
//! Reading and writing `state.json` happens around this store; the store
//! itself holds the list and the rules for changing it.

use vstd::prelude::*;
use crate::queue::{decide, decide_spec, eligible, Desired, QueueItem, QueuePlan};
use crate::queue_laws::lemma_plan_names_only_eligible;
use crate::text::str_eq;

verus! {

/// Lifecycle state of a torrent as persisted.
#[derive(Debug, Clone, Copy, PartialEq, Eq, Structural)]
pub enum TorrentState {
    Downloading,
    Seeding,
    Paused,
    Completed,
    Stalled,
    Queued,
}

/// The label of a persisted state, as the torrent list shows it.
pub open spec fn state_label_spec(st: TorrentState) -> Seq<char> {
    match st {
        TorrentState::Downloading => "downloading"@,
        TorrentState::Seeding => "seeding"@,
        TorrentState::Paused => "paused"@,
        TorrentState::Completed => "completed"@,
        TorrentState::Stalled => "stalled"@,
        TorrentState::Queued => "queued"@,
    }
}

impl TorrentState {
    /// The label the torrent list shows for this state.
    pub fn label(self) -> (s: &'static str)
        ensures
            s@ == state_label_spec(self),
    {
        match self {
            TorrentState::Downloading => "downloading",
            TorrentState::Seeding => "seeding",
            TorrentState::Paused => "paused",
            TorrentState::Completed => "completed",
            TorrentState::Stalled => "stalled",
            TorrentState::Queued => "queued",
        }
    }
}

/// One torrent in the persisted list.
#[derive(Debug)]
pub struct TorrentRecord {
    pub infohash: String,
    pub display_name: String,
    /// Where the torrent's files are written.
    pub save_path: String,
    pub state: TorrentState,
    pub added_at: i64,
    pub total_size: u64,
    pub selected_files: Option<Vec<usize>>,
    pub queue_position: u32,
    pub forced: bool,
    pub dl_limit: u32,
    pub ul_limit: u32,
}

/// What a record holds, as plain values.
pub struct RecordView {
    pub infohash: Seq<char>,
    pub display_name: Seq<char>,
    pub save_path: Seq<char>,
    pub state: TorrentState,
    pub added_at: i64,
    pub total_size: u64,
    pub selected_files: Option<Seq<usize>>,
    pub queue_position: u32,
    pub forced: bool,
    pub dl_limit: u32,
    pub ul_limit: u32,
}

impl View for TorrentRecord {
    type V = RecordView;

    open spec fn view(&self) -> RecordView {
        RecordView {
            infohash: self.infohash@,
            display_name: self.display_name@,
            save_path: self.save_path@,
            state: self.state,
            added_at: self.added_at,
            total_size: self.total_size,
            selected_files: match self.selected_files {
                Some(v) => Some(v@),
                None => None,
            },
            queue_position: self.queue_position,
            forced: self.forced,
            dl_limit: self.dl_limit,
            ul_limit: self.ul_limit,
        }
    }
}

impl DeepView for TorrentRecord {
    type V = RecordView;

    open spec fn deep_view(&self) -> RecordView {
        self@
    }
}

/// The whole persisted list.
#[derive(Debug)]
pub struct PersistedState {
    pub torrents: Vec<TorrentRecord>,
}

/// A copy of a list of file indices.
pub fn copy_indices(v: &Vec<usize>) -> (r: Vec<usize>)
    ensures
        r@ == v@,
{
    let mut r: Vec<usize> = Vec::new();
    for i in 0..v.len()
        invariant
            r@ == v@.take(i as int),
    {
        r.push(v[i]);
        assert(r@ =~= v@.take(i + 1));
    }
    assert(r@ =~= v@);
    r
}

impl Clone for TorrentRecord {
    fn clone(&self) -> (r: Self)
        ensures
            r@ == self@,
    {
        let selected_files = match &self.selected_files {
            Some(v) => Some(copy_indices(v)),
            None => None,
        };
        TorrentRecord {
            infohash: self.infohash.clone(),
            display_name: self.display_name.clone(),
            save_path: self.save_path.clone(),
            state: self.state,
            added_at: self.added_at,
            total_size: self.total_size,
            selected_files,
            queue_position: self.queue_position,
            forced: self.forced,
            dl_limit: self.dl_limit,
            ul_limit: self.ul_limit,
        }
    }
}

/// A copy of a list of records.
fn copy_records(v: &Vec<TorrentRecord>) -> (r: Vec<TorrentRecord>)
    ensures
        r.deep_view() == v.deep_view(),
{
    let mut r: Vec<TorrentRecord> = Vec::new();
    for i in 0..v.len()
        invariant
            r.deep_view() == v.deep_view().take(i as int),
    {
        assert(r.deep_view().len() == r@.len());
        assert(v.deep_view().take(i as int).len() == i);
        assert(r@.len() == i);
        let ghost prev = r@;
        let c = v[i].clone();
        assert(c@ == v@[i as int]@);
        r.push(c);
        assert(r@.len() == i + 1);
        assert(r@ == prev.push(r@[i as int]));
        assert(r@[i as int]@ == v@[i as int]@);
        assert(r.deep_view() =~= v.deep_view().take(i + 1));
    }
    assert(r.deep_view() =~= v.deep_view());
    r
}

impl Clone for PersistedState {
    fn clone(&self) -> (r: Self)
        ensures
            r.torrents.deep_view() == self.torrents.deep_view(),
    {
        PersistedState { torrents: copy_records(&self.torrents) }
    }
}

impl Default for PersistedState {
    fn default() -> (r: Self)
        ensures
            r.torrents.deep_view() == Seq::<RecordView>::empty(),
    {
        PersistedState { torrents: Vec::new() }
    }
}

/// Some record in `records` has infohash `ih`.
pub open spec fn has_hash(records: Seq<RecordView>, ih: Seq<char>) -> bool {
    exists|i: int| 0 <= i < records.len() && #[trigger] records[i].infohash == ih
}

/// `i` is the index of the first record with infohash `ih`.
pub open spec fn is_first_with_hash(records: Seq<RecordView>, ih: Seq<char>, i: int) -> bool {
    &&& 0 <= i < records.len()
    &&& records[i].infohash == ih
    &&& forall|j: int| 0 <= j < i ==> #[trigger] records[j].infohash != ih
}

/// The index of the first record with infohash `ih` (meaningful when `has_hash`).
pub open spec fn first_with_hash(records: Seq<RecordView>, ih: Seq<char>) -> int {
    choose|i: int| is_first_with_hash(records, ih, i)
}

/// The first record with infohash `ih`, if any.
pub open spec fn find_spec(records: Seq<RecordView>, ih: Seq<char>) -> Option<RecordView> {
    if has_hash(records, ih) {
        Some(records[first_with_hash(records, ih)])
    } else {
        None
    }
}

/// The list after `upsert`: the first record with the same infohash is
/// replaced, or the record is appended when there is none.
pub open spec fn upsert_spec(records: Seq<RecordView>, rec: RecordView) -> Seq<RecordView> {
    if has_hash(records, rec.infohash) {
        records.update(first_with_hash(records, rec.infohash), rec)
    } else {
        records.push(rec)
    }
}

/// The list without any record whose infohash is `ih`, order kept.
pub open spec fn without_hash(records: Seq<RecordView>, ih: Seq<char>) -> Seq<RecordView>
    decreases records.len(),
{
    if records.len() == 0 {
        records
    } else {
        let rest = without_hash(records.drop_last(), ih);
        if records.last().infohash == ih {
            rest
        } else {
            rest.push(records.last())
        }
    }
}

/// The highest queue position plus one, or 0 for an empty list.
pub open spec fn next_position_spec(records: Seq<RecordView>) -> int
    decreases records.len(),
{
    if records.len() == 0 {
        0
    } else {
        let rest = next_position_spec(records.drop_last());
        let here = records.last().queue_position + 1;
        if here > rest { here } else { rest }
    }
}

/// Every first match has the stated properties.
proof fn lemma_first_with_hash(records: Seq<RecordView>, ih: Seq<char>)
    requires
        has_hash(records, ih),
    ensures
        is_first_with_hash(records, ih, first_with_hash(records, ih)),
    decreases records.len(),
{
    let w = choose|i: int| 0 <= i < records.len() && #[trigger] records[i].infohash == ih;
    lemma_least_match(records, ih, w);
}

proof fn lemma_least_match(records: Seq<RecordView>, ih: Seq<char>, w: int)
    requires
        0 <= w < records.len(),
        records[w].infohash == ih,
    ensures
        exists|i: int| is_first_with_hash(records, ih, i),
    decreases w,
{
    if exists|j: int| 0 <= j < w && #[trigger] records[j].infohash == ih {
        let j = choose|j: int| 0 <= j < w && #[trigger] records[j].infohash == ih;
        lemma_least_match(records, ih, j);
    } else {
        assert(is_first_with_hash(records, ih, w));
    }
}

/// Only one index is the first match.
proof fn lemma_first_unique(records: Seq<RecordView>, ih: Seq<char>, a: int, b: int)
    requires
        is_first_with_hash(records, ih, a),
        is_first_with_hash(records, ih, b),
    ensures
        a == b,
{
    if a < b {
        assert(records[a].infohash != ih);
    } else if b < a {
        assert(records[b].infohash != ih);
    }
}

/// `q` carries the queue-relevant facts of record `r`: a user-paused record
/// is `Pause`, seeding/completed ones are finished, downloading/stalled ones
/// occupy a slot.
pub open spec fn item_of(q: QueueItem, r: RecordView) -> bool {
    &&& q.infohash@ == r.infohash
    &&& q.desired == (if r.state == TorrentState::Paused { Desired::Pause } else { Desired::Run })
    &&& q.forced == r.forced
    &&& q.position == r.queue_position
    &&& q.finished == (r.state == TorrentState::Seeding || r.state == TorrentState::Completed)
    &&& q.running_now == (r.state == TorrentState::Downloading || r.state == TorrentState::Stalled)
}

/// A record with its state replaced.
pub open spec fn with_state(r: RecordView, st: TorrentState) -> RecordView {
    RecordView { state: st, ..r }
}

/// A record with its file selection replaced.
pub open spec fn with_selection(r: RecordView, files: Seq<usize>) -> RecordView {
    RecordView { selected_files: Some(files), ..r }
}

/// The list with the first record of infohash `ih` replaced by `new_rec`;
/// unchanged when there is none.
pub open spec fn change_first(records: Seq<RecordView>, ih: Seq<char>, new_rec: RecordView) -> Seq<RecordView> {
    if has_hash(records, ih) {
        records.update(first_with_hash(records, ih), new_rec)
    } else {
        records
    }
}

/// The view of an optional record.
pub open spec fn opt_view(r: Option<TorrentRecord>) -> Option<RecordView> {
    match r {
        Some(x) => Some(x@),
        None => None,
    }
}

/// The in-memory torrent list.
pub struct StateStore {
    state: PersistedState,
}

impl View for StateStore {
    type V = Seq<RecordView>;

    closed spec fn view(&self) -> Seq<RecordView> {
        self.state.torrents.deep_view()
    }
}

impl StateStore {
    /// An empty store.
    pub fn new() -> (s: Self)
        ensures
            s@ == Seq::<RecordView>::empty(),
    {
        StateStore { state: PersistedState { torrents: Vec::new() } }
    }

    /// A store holding a loaded list.
    pub fn from_state(state: PersistedState) -> (s: Self)
        ensures
            s@ == state.torrents.deep_view(),
    {
        StateStore { state }
    }

    /// A copy of the whole list.
    pub fn snapshot(&self) -> (s: PersistedState)
        ensures
            s.torrents.deep_view() == self@,
    {
        self.state.clone()
    }

    /// Replace the first record with the same infohash, or append it.
    pub fn upsert(&mut self, rec: TorrentRecord)
        ensures
            final(self)@ == upsert_spec(old(self)@, rec@),
    {
        let ghost old_records = self@;
        let n = self.state.torrents.len();
        assert(self@.len() == n);
        let mut i: usize = 0;
        while i < n
            invariant
                n == self.state.torrents@.len(),
                self@ == old_records,
                old(self)@ == old_records,
                i <= n,
                forall|j: int| 0 <= j < i ==> #[trigger] old_records[j].infohash != rec@.infohash,
            decreases n - i,
        {
            assert(old_records[i as int] == self.state.torrents@[i as int]@);
            if self.state.torrents[i].infohash == rec.infohash {
                proof {
                    assert(is_first_with_hash(old_records, rec@.infohash, i as int));
                    lemma_first_with_hash(old_records, rec@.infohash);
                    lemma_first_unique(old_records, rec@.infohash, i as int, first_with_hash(old_records, rec@.infohash));
                }
                let ghost rv = rec@;
                self.state.torrents.set(i, rec);
                assert(self@ =~= old_records.update(i as int, rv));
                assert(has_hash(old_records, rv.infohash));
                assert(first_with_hash(old_records, rv.infohash) == i);
                return;
            }
            i = i + 1;
        }
        let ghost rv = rec@;
        self.state.torrents.push(rec);
        assert(self@ =~= old_records.push(rv));
    }

    /// Drop every record with this infohash.
    pub fn remove(&mut self, infohash: &str)
        ensures
            final(self)@ == without_hash(old(self)@, infohash@),
    {
        let mut kept: Vec<TorrentRecord> = Vec::new();
        let n = self.state.torrents.len();
        assert(self@.len() == n);
        for i in 0..n
            invariant
                n == self@.len(),
                kept.deep_view() == without_hash(self@.take(i as int), infohash@),
        {
            assert(self@[i as int] == self.state.torrents@[i as int]@);
            let ghost pk = kept.deep_view();
            if !str_eq(self.state.torrents[i].infohash.as_str(), infohash) {
                kept.push(self.state.torrents[i].clone());
                assert(kept.deep_view() =~= pk.push(self@[i as int]));
            }
            assert(self@.take(i + 1).drop_last() =~= self@.take(i as int));
        }
        assert(self@.take(n as int) =~= self@);
        self.state.torrents = kept;
    }

    /// Whether some record has this infohash.
    pub fn contains(&self, infohash: &str) -> (b: bool)
        ensures
            b == has_hash(self@, infohash@),
    {
        let n = self.state.torrents.len();
        assert(self@.len() == n);
        for i in 0..n
            invariant
                n == self@.len(),
                forall|j: int| 0 <= j < i ==> #[trigger] self@[j].infohash != infohash@,
        {
            assert(self@[i as int] == self.state.torrents@[i as int]@);
            if str_eq(self.state.torrents[i].infohash.as_str(), infohash) {
                assert(self@[i as int].infohash == infohash@);
                return true;
            }
        }
        false
    }

    /// Highest existing queue position + 1 (0 if empty): new torrents join
    /// the end of the queue.
    pub fn next_queue_position(&self) -> (p: u32)
        requires
            forall|i: int| 0 <= i < self@.len() ==> #[trigger] self@[i].queue_position < u32::MAX,
        ensures
            p == next_position_spec(self@),
    {
        let n = self.state.torrents.len();
        assert(self@.len() == n);
        let mut best: u32 = 0;
        for i in 0..n
            invariant
                n == self@.len(),
                forall|j: int| 0 <= j < self@.len() ==> #[trigger] self@[j].queue_position < u32::MAX,
                best == next_position_spec(self@.take(i as int)),
        {
            assert(self@[i as int] == self.state.torrents@[i as int]@);
            assert(self@[i as int].queue_position < u32::MAX);
            let here = self.state.torrents[i].queue_position + 1;
            if here > best {
                best = here;
            }
            assert(self@.take(i + 1).drop_last() =~= self@.take(i as int));
        }
        assert(self@.take(n as int) =~= self@);
        best
    }

    /// Set the state of the first record with this infohash (the find-then-
    /// upsert step after the engine accepted a pause or resume). Returns
    /// whether such a record exists.
    pub fn set_state(&mut self, infohash: &str, st: TorrentState) -> (found: bool)
        ensures
            found == has_hash(old(self)@, infohash@),
            final(self)@ == change_first(
                old(self)@,
                infohash@,
                with_state(old(self)@[first_with_hash(old(self)@, infohash@)], st),
            ),
    {
        match self.find(infohash) {
            Some(mut r) => {
                proof {
                    lemma_first_with_hash(self@, infohash@);
                }
                r.state = st;
                self.upsert(r);
                true
            },
            None => false,
        }
    }

    /// Record a new file selection on the first record with this infohash.
    /// Returns whether such a record exists.
    pub fn set_selected_files(&mut self, infohash: &str, files: Vec<usize>) -> (found: bool)
        ensures
            found == has_hash(old(self)@, infohash@),
            final(self)@ == change_first(
                old(self)@,
                infohash@,
                with_selection(old(self)@[first_with_hash(old(self)@, infohash@)], files@),
            ),
    {
        match self.find(infohash) {
            Some(mut r) => {
                proof {
                    lemma_first_with_hash(self@, infohash@);
                }
                r.selected_files = Some(files);
                self.upsert(r);
                true
            },
            None => false,
        }
    }

    /// The first record with this infohash, if any.
    pub fn find(&self, infohash: &str) -> (r: Option<TorrentRecord>)
        ensures
            opt_view(r) == find_spec(self@, infohash@),
    {
        let n = self.state.torrents.len();
        assert(self@.len() == n);
        for i in 0..n
            invariant
                n == self@.len(),
                forall|j: int| 0 <= j < i ==> #[trigger] self@[j].infohash != infohash@,
        {
            assert(self@[i as int] == self.state.torrents@[i as int]@);
            if str_eq(self.state.torrents[i].infohash.as_str(), infohash) {
                proof {
                    assert(is_first_with_hash(self@, infohash@, i as int));
                    lemma_first_with_hash(self@, infohash@);
                    lemma_first_unique(self@, infohash@, i as int, first_with_hash(self@, infohash@));
                }
                return Some(self.state.torrents[i].clone());
            }
        }
        None
    }
}


/// The queue's view of the persisted list, one item per record in order.
pub fn build_items(state: &StateStore) -> (items: Vec<QueueItem>)
    ensures
        items@.len() == state@.len(),
        forall|i: int| 0 <= i < items@.len() ==> item_of(#[trigger] items@[i], state@[i]),
{
    let snap = state.snapshot();
    let recs = &snap.torrents;
    let mut items: Vec<QueueItem> = Vec::new();
    let n = recs.len();
    assert(recs.deep_view().len() == n);
    for i in 0..n
        invariant
            n == recs@.len(),
            recs.deep_view() == state@,
            items@.len() == i,
            forall|j: int| 0 <= j < i ==> item_of(#[trigger] items@[j], state@[j]),
    {
        let r = &recs[i];
        assert(state@[i as int] == r@);
        let desired = match r.state {
            TorrentState::Paused => Desired::Pause,
            _ => Desired::Run,
        };
        let finished = match r.state {
            TorrentState::Seeding | TorrentState::Completed => true,
            _ => false,
        };
        let running_now = match r.state {
            TorrentState::Downloading | TorrentState::Stalled => true,
            _ => false,
        };
        items.push(
            QueueItem {
                infohash: r.infohash.clone(),
                desired,
                forced: r.forced,
                position: r.queue_position,
                finished,
                running_now,
            },
        );
    }
    items
}

/// The queue plan for the persisted list under a cap (`0` = unlimited): what
/// the reconcile step applies through the engine.
pub fn plan_reconcile(state: &StateStore, max_active: u32) -> (plan: QueuePlan)
    ensures
        exists|items: Seq<QueueItem>|
            items.len() == state@.len() && (forall|i: int| 0 <= i < items.len() ==> item_of(#[trigger] items[i], state@[i]))
                && plan.view_pair() == decide_spec(items, max_active),
{
    let items = build_items(state);
    decide(items.as_slice(), max_active)
}

/// The infohashes of the records to resume at startup: every record the
/// user has not paused, in list order.
pub open spec fn resumable_spec(records: Seq<RecordView>) -> Seq<Seq<char>>
    decreases records.len(),
{
    if records.len() == 0 {
        seq![]
    } else {
        let prev = resumable_spec(records.drop_last());
        if records.last().state == TorrentState::Paused {
            prev
        } else {
            prev.push(records.last().infohash)
        }
    }
}

/// The infohashes of the torrents to resume at startup.
pub fn resumable(state: &StateStore) -> (hashes: Vec<String>)
    ensures
        hashes.deep_view() == resumable_spec(state@),
{
    let snap = state.snapshot();
    let recs = &snap.torrents;
    let n = recs.len();
    let mut hashes: Vec<String> = Vec::new();
    assert(recs.deep_view().len() == n);
    for i in 0..n
        invariant
            n == recs@.len(),
            recs.deep_view() == state@,
            hashes.deep_view() == resumable_spec(state@.take(i as int)),
    {
        let r = &recs[i];
        assert(state@[i as int] == r@);
        assert(state@.take(i + 1).drop_last() =~= state@.take(i as int));
        let ghost prev = hashes.deep_view();
        match r.state {
            TorrentState::Paused => {},
            _ => {
                hashes.push(r.infohash.clone());
                assert(hashes.deep_view() =~= prev.push(r.infohash@));
            },
        }
    }
    assert(state@.take(n as int) =~= state@);
    hashes
}

/// After an upsert the record is found under its infohash (a read gives back
/// the write).
pub proof fn lemma_upsert_then_find(records: Seq<RecordView>, rec: RecordView)
    ensures
        has_hash(upsert_spec(records, rec), rec.infohash),
        find_spec(upsert_spec(records, rec), rec.infohash) == Some(rec),
{
    let after = upsert_spec(records, rec);
    if has_hash(records, rec.infohash) {
        lemma_first_with_hash(records, rec.infohash);
        let i = first_with_hash(records, rec.infohash);
        assert(is_first_with_hash(after, rec.infohash, i));
        lemma_first_with_hash(after, rec.infohash);
        lemma_first_unique(after, rec.infohash, i, first_with_hash(after, rec.infohash));
    } else {
        let i = records.len() as int;
        assert(after[i] == rec);
        assert(is_first_with_hash(after, rec.infohash, i));
        lemma_first_with_hash(after, rec.infohash);
        lemma_first_unique(after, rec.infohash, i, first_with_hash(after, rec.infohash));
    }
}

/// Upserting a record leaves what is found under every other infohash as it was.
pub proof fn lemma_upsert_keeps_others(records: Seq<RecordView>, rec: RecordView, ih: Seq<char>)
    requires
        ih != rec.infohash,
    ensures
        has_hash(upsert_spec(records, rec), ih) == has_hash(records, ih),
        find_spec(upsert_spec(records, rec), ih) == find_spec(records, ih),
{
    let after = upsert_spec(records, rec);
    if has_hash(records, rec.infohash) {
        lemma_first_with_hash(records, rec.infohash);
    }
    if has_hash(records, ih) {
        lemma_first_with_hash(records, ih);
        let i = first_with_hash(records, ih);
        assert(after[i] == records[i]);
        assert(is_first_with_hash(after, ih, i));
        lemma_first_with_hash(after, ih);
        lemma_first_unique(after, ih, i, first_with_hash(after, ih));
    }
    if has_hash(after, ih) {
        let j = choose|j: int| 0 <= j < after.len() && #[trigger] after[j].infohash == ih;
        assert(records[j].infohash == ih);
    }
}

/// Upserting the same record twice is the same as once.
pub proof fn lemma_upsert_idempotent(records: Seq<RecordView>, rec: RecordView)
    ensures
        upsert_spec(upsert_spec(records, rec), rec) == upsert_spec(records, rec),
{
    let once = upsert_spec(records, rec);
    lemma_upsert_then_find(records, rec);
    lemma_first_with_hash(once, rec.infohash);
    let i = first_with_hash(once, rec.infohash);
    assert(once[i] == rec);
    assert(once.update(i, rec) =~= once);
}

/// After a remove no record has that infohash, and every other infohash is
/// still present exactly when it was.
pub proof fn lemma_remove_then_absent(records: Seq<RecordView>, ih: Seq<char>, other: Seq<char>)
    requires
        other != ih,
    ensures
        !has_hash(without_hash(records, ih), ih),
        has_hash(without_hash(records, ih), other) == has_hash(records, other),
    decreases records.len(),
{
    if records.len() > 0 {
        let init = records.drop_last();
        lemma_remove_then_absent(init, ih, other);
        let rest = without_hash(init, ih);
        let after = without_hash(records, ih);
        if has_hash(after, ih) {
            let j = choose|j: int| 0 <= j < after.len() && #[trigger] after[j].infohash == ih;
            if records.last().infohash != ih && j == rest.len() {
            } else {
                assert(rest[j].infohash == ih);
            }
        }
        if has_hash(records, other) {
            let j = choose|j: int| 0 <= j < records.len() && #[trigger] records[j].infohash == other;
            if j == records.len() - 1 {
                assert(after[rest.len() as int].infohash == other);
            } else {
                assert(init[j].infohash == other);
                let m = choose|m: int| 0 <= m < rest.len() && #[trigger] rest[m].infohash == other;
                assert(after[m].infohash == other);
            }
        }
        if has_hash(after, other) {
            let j = choose|j: int| 0 <= j < after.len() && #[trigger] after[j].infohash == other;
            if j < rest.len() {
                assert(rest[j].infohash == other);
                let m = choose|m: int| 0 <= m < init.len() && #[trigger] init[m].infohash == other;
                assert(records[m].infohash == other);
            } else {
                assert(records[records.len() - 1].infohash == other);
            }
        }
    }
}

/// A new torrent's queue position comes after every existing one.
pub proof fn lemma_next_position_is_last(records: Seq<RecordView>, i: int)
    requires
        0 <= i < records.len(),
    ensures
        records[i].queue_position < next_position_spec(records),
    decreases records.len(),
{
    if i < records.len() - 1 {
        lemma_next_position_is_last(records.drop_last(), i);
    }
}

/// Reconciling never resumes a torrent the user paused, nor pauses or starts
/// one that has finished: with one record per infohash, such a record's
/// infohash is in neither list of the plan for its queue items.
pub proof fn lemma_reconcile_leaves_paused_and_finished(
    records: Seq<RecordView>,
    items: Seq<QueueItem>,
    max_active: u32,
    i: int,
)
    requires
        items.len() == records.len(),
        forall|k: int| 0 <= k < items.len() ==> item_of(#[trigger] items[k], records[k]),
        forall|a: int, b: int| 0 <= a < b < records.len() ==> records[a].infohash != records[b].infohash,
        0 <= i < records.len(),
        records[i].state == TorrentState::Paused || records[i].state == TorrentState::Seeding
            || records[i].state == TorrentState::Completed,
    ensures
        !decide_spec(items, max_active).0.contains(records[i].infohash),
        !decide_spec(items, max_active).1.contains(records[i].infohash),
{
    let x = records[i].infohash;
    let plan = decide_spec(items, max_active);
    if plan.0.contains(x) || plan.1.contains(x) {
        lemma_plan_names_only_eligible(items, max_active, x);
        let j = choose|j: int| 0 <= j < items.len() && eligible(#[trigger] items[j]) && items[j].infohash@ == x;
        assert(item_of(items[j], records[j]));
        assert(item_of(items[i], records[i]));
        if j < i {
            assert(records[j].infohash != records[i].infohash);
        } else if i < j {
            assert(records[i].infohash != records[j].infohash);
        }
    }
}

/// No two records share an infohash.
pub open spec fn unique_hashes(records: Seq<RecordView>) -> bool {
    forall|a: int, b: int| 0 <= a < b < records.len() ==> records[a].infohash != records[b].infohash
}

/// Upserting keeps infohashes unique: a list with one record per infohash
/// still has one per infohash afterwards.
pub proof fn lemma_upsert_keeps_unique(records: Seq<RecordView>, rec: RecordView)
    requires
        unique_hashes(records),
    ensures
        unique_hashes(upsert_spec(records, rec)),
{
    let after = upsert_spec(records, rec);
    if has_hash(records, rec.infohash) {
        lemma_first_with_hash(records, rec.infohash);
        let f = first_with_hash(records, rec.infohash);
        assert forall|a: int, b: int| 0 <= a < b < after.len() implies after[a].infohash != after[b].infohash by {
            assert(after[a].infohash == records[a].infohash);
            assert(after[b].infohash == records[b].infohash);
        }
    } else {
        assert forall|a: int, b: int| 0 <= a < b < after.len() implies after[a].infohash != after[b].infohash by {
            if b == records.len() {
                assert(records[a].infohash != rec.infohash);
            }
        }
    }
}

/// The list after upserting `recs` one after another into `records`.
pub open spec fn upsert_all(records: Seq<RecordView>, recs: Seq<RecordView>) -> Seq<RecordView>
    decreases recs.len(),
{
    if recs.len() == 0 {
        records
    } else {
        upsert_spec(upsert_all(records, recs.drop_last()), recs.last())
    }
}

/// Upserting records with distinct infohashes into an empty list, one after
/// another, gives exactly those records in that order. So a store made by
/// `StateStore::new` that then upserts `r1`, ..., `rn` (each `upsert` takes
/// its list `l` to `upsert_spec(l, r)`) holds `upsert_all(empty, [r1, ..., rn])`,
/// and its `snapshot` gives back `[r1, ..., rn]`.
pub proof fn lemma_upserts_in_order(recs: Seq<RecordView>)
    requires
        unique_hashes(recs),
    ensures
        upsert_all(Seq::empty(), recs) == recs,
    decreases recs.len(),
{
    if recs.len() > 0 {
        let init = recs.drop_last();
        assert(unique_hashes(init));
        lemma_upserts_in_order(init);
        if has_hash(init, recs.last().infohash) {
            let j = choose|j: int| 0 <= j < init.len() && #[trigger] init[j].infohash == recs.last().infohash;
            assert(recs[j].infohash != recs[recs.len() - 1].infohash);
        }
        assert(init.push(recs.last()) =~= recs);
    }
}

/// The startup resume list holds the infohash of every record the user has
/// not paused (downloading, stalled, queued, seeding or completed), and
/// nothing but infohashes of such records.
pub proof fn lemma_resumable_members(records: Seq<RecordView>)
    ensures
        forall|i: int|
            0 <= i < records.len() && records[i].state != TorrentState::Paused ==> #[trigger] resumable_spec(
                records,
            ).contains(records[i].infohash),
        forall|x: Seq<char>|
            #[trigger] resumable_spec(records).contains(x) ==> exists|i: int|
                0 <= i < records.len() && records[i].state != TorrentState::Paused && records[i].infohash == x,
    decreases records.len(),
{
    if records.len() > 0 {
        let init = records.drop_last();
        let last = records.last();
        lemma_resumable_members(init);
        let prev = resumable_spec(init);
        let cur = resumable_spec(records);
        assert forall|i: int|
            0 <= i < records.len() && records[i].state != TorrentState::Paused implies #[trigger] cur.contains(
            records[i].infohash,
        ) by {
            if i < records.len() - 1 {
                assert(init[i] == records[i]);
                assert(prev.contains(init[i].infohash));
                let j = choose|j: int| 0 <= j < prev.len() && prev[j] == init[i].infohash;
                if last.state != TorrentState::Paused {
                    assert(cur[j] == prev[j]);
                }
            } else {
                assert(cur[prev.len() as int] == last.infohash);
            }
        }
        assert forall|x: Seq<char>| #[trigger] cur.contains(x) implies exists|i: int|
            0 <= i < records.len() && records[i].state != TorrentState::Paused && records[i].infohash == x by {
            let j = choose|j: int| 0 <= j < cur.len() && cur[j] == x;
            if j < prev.len() {
                assert(prev[j] == x);
                assert(prev.contains(x));
                let i = choose|i: int| 0 <= i < init.len() && init[i].state != TorrentState::Paused && init[i].infohash == x;
                assert(records[i] == init[i]);
            } else {
                assert(records[records.len() - 1] == last);
            }
        }
    }
}

} // verus!
