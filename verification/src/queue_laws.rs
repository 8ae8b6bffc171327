//! What every queue plan satisfies, proved over `decide_spec`.

use vstd::prelude::*;
use crate::queue::{
    count_forced, count_unforced, decide_spec, eligible, free_slots, gets_slot, hash_at, is_queue_order,
    lemma_queue_order_exists, lemma_queue_order_unique, pause_list, precedes, queue_order, start_list,
    wants_run, QueueItem,
};

verus! {

/// Membership in the first `k` entries' start list.
proof fn lemma_start_list_members(items: Seq<QueueItem>, o: Seq<int>, max_active: u32, k: int)
    requires
        0 <= k <= o.len(),
    ensures
        forall|x: Seq<char>| #[trigger] start_list(items, o, max_active, k).contains(x) ==> exists|j: int|
            0 <= j < k && hash_at(items, o, j) == x && wants_run(items, o, max_active, j)
                && !items[o[j]].running_now,
        forall|j: int| 0 <= j < k && wants_run(items, o, max_active, j) && !items[o[j]].running_now
            ==> start_list(items, o, max_active, k).contains(#[trigger] hash_at(items, o, j)),
    decreases k,
{
    if k > 0 {
        lemma_start_list_members(items, o, max_active, k - 1);
        let prev = start_list(items, o, max_active, k - 1);
        let cur = start_list(items, o, max_active, k);
        assert forall|x: Seq<char>| #[trigger] cur.contains(x) implies exists|j: int|
            0 <= j < k && hash_at(items, o, j) == x && wants_run(items, o, max_active, j)
                && !items[o[j]].running_now by {
            if cur != prev {
                let m = choose|m: int| 0 <= m < cur.len() && cur[m] == x;
                if m < prev.len() {
                    assert(prev.contains(x));
                } else {
                    assert(hash_at(items, o, k - 1) == x);
                }
            } else {
                assert(prev.contains(x));
            }
        }
        assert forall|j: int| 0 <= j < k && wants_run(items, o, max_active, j) && !items[o[j]].running_now
            implies cur.contains(#[trigger] hash_at(items, o, j)) by {
            if j < k - 1 {
                let m = choose|m: int| 0 <= m < prev.len() && prev[m] == hash_at(items, o, j);
                assert(cur[m] == prev[m]);
            } else {
                assert(cur[prev.len() as int] == hash_at(items, o, j));
            }
        }
    }
}

/// Membership in the first `k` entries' pause list.
proof fn lemma_pause_list_members(items: Seq<QueueItem>, o: Seq<int>, max_active: u32, k: int)
    requires
        0 <= k <= o.len(),
    ensures
        forall|x: Seq<char>| #[trigger] pause_list(items, o, max_active, k).contains(x) ==> exists|j: int|
            0 <= j < k && hash_at(items, o, j) == x && !wants_run(items, o, max_active, j)
                && items[o[j]].running_now,
        forall|j: int| 0 <= j < k && !wants_run(items, o, max_active, j) && items[o[j]].running_now
            ==> pause_list(items, o, max_active, k).contains(#[trigger] hash_at(items, o, j)),
    decreases k,
{
    if k > 0 {
        lemma_pause_list_members(items, o, max_active, k - 1);
        let prev = pause_list(items, o, max_active, k - 1);
        let cur = pause_list(items, o, max_active, k);
        assert forall|x: Seq<char>| #[trigger] cur.contains(x) implies exists|j: int|
            0 <= j < k && hash_at(items, o, j) == x && !wants_run(items, o, max_active, j)
                && items[o[j]].running_now by {
            if cur != prev {
                let m = choose|m: int| 0 <= m < cur.len() && cur[m] == x;
                if m < prev.len() {
                    assert(prev.contains(x));
                } else {
                    assert(hash_at(items, o, k - 1) == x);
                }
            } else {
                assert(prev.contains(x));
            }
        }
        assert forall|j: int| 0 <= j < k && !wants_run(items, o, max_active, j) && items[o[j]].running_now
            implies cur.contains(#[trigger] hash_at(items, o, j)) by {
            if j < k - 1 {
                let m = choose|m: int| 0 <= m < prev.len() && prev[m] == hash_at(items, o, j);
                assert(cur[m] == prev[m]);
            } else {
                assert(cur[prev.len() as int] == hash_at(items, o, j));
            }
        }
    }
}

/// Entries with the same infohash agree on whether they should run.
proof fn lemma_wants_by_hash(items: Seq<QueueItem>, o: Seq<int>, max_active: u32, a: int, b: int)
    requires
        hash_at(items, o, a) == hash_at(items, o, b),
    ensures
        wants_run(items, o, max_active, a) == wants_run(items, o, max_active, b),
{
    if wants_run(items, o, max_active, a) {
        let l = choose|l: int| 0 <= l < o.len() && #[trigger] gets_slot(items, o, max_active, l)
            && hash_at(items, o, l) == hash_at(items, o, a);
        assert(gets_slot(items, o, max_active, l));
    }
    if wants_run(items, o, max_active, b) {
        let l = choose|l: int| 0 <= l < o.len() && #[trigger] gets_slot(items, o, max_active, l)
            && hash_at(items, o, l) == hash_at(items, o, b);
        assert(gets_slot(items, o, max_active, l));
    }
}

/// A plan only names torrents the queue manages: every infohash it lists
/// belongs to an eligible (not finished, not user-paused) torrent.
pub proof fn lemma_plan_names_only_eligible(items: Seq<QueueItem>, max_active: u32, x: Seq<char>)
    requires
        decide_spec(items, max_active).0.contains(x) || decide_spec(items, max_active).1.contains(x),
    ensures
        exists|i: int| 0 <= i < items.len() && eligible(#[trigger] items[i]) && items[i].infohash@ == x,
{
    let o = queue_order(items);
    lemma_queue_order_exists(items);
    lemma_start_list_members(items, o, max_active, o.len() as int);
    lemma_pause_list_members(items, o, max_active, o.len() as int);
    let j = if decide_spec(items, max_active).0.contains(x) {
        choose|j: int| 0 <= j < o.len() && hash_at(items, o, j) == x && wants_run(items, o, max_active, j)
            && !items[o[j]].running_now
    } else {
        choose|j: int| 0 <= j < o.len() && hash_at(items, o, j) == x && !wants_run(items, o, max_active, j)
            && items[o[j]].running_now
    };
    assert(eligible(items[o[j]]));
}

/// No torrent is both started and paused by the same plan.
pub proof fn lemma_plan_start_pause_disjoint(items: Seq<QueueItem>, max_active: u32, x: Seq<char>)
    ensures
        !(decide_spec(items, max_active).0.contains(x) && decide_spec(items, max_active).1.contains(x)),
{
    let o = queue_order(items);
    lemma_start_list_members(items, o, max_active, o.len() as int);
    lemma_pause_list_members(items, o, max_active, o.len() as int);
    if decide_spec(items, max_active).0.contains(x) && decide_spec(items, max_active).1.contains(x) {
        let a = choose|j: int| 0 <= j < o.len() && hash_at(items, o, j) == x && wants_run(items, o, max_active, j)
            && !items[o[j]].running_now;
        let b = choose|j: int| 0 <= j < o.len() && hash_at(items, o, j) == x && !wants_run(items, o, max_active, j)
            && items[o[j]].running_now;
        lemma_wants_by_hash(items, o, max_active, a, b);
    }
}


/// No two torrents in the list share an infohash (as the persisted list keeps it).
pub open spec fn distinct_hashes(items: Seq<QueueItem>) -> bool {
    forall|a: int, b: int| 0 <= a < b < items.len() ==> items[a].infohash@ != items[b].infohash@
}

/// Torrent `i` should be downloading once the plan is applied.
pub open spec fn runs_after_plan(items: Seq<QueueItem>, max_active: u32, i: int) -> bool {
    let o = queue_order(items);
    eligible(items[i]) && exists|l: int|
        0 <= l < o.len() && #[trigger] gets_slot(items, o, max_active, l) && hash_at(items, o, l)
            == items[i].infohash@
}

/// The torrent list after the plan is applied: managed torrents run exactly
/// when they should, the others are untouched.
pub open spec fn apply_plan(items: Seq<QueueItem>, max_active: u32) -> Seq<QueueItem> {
    Seq::new(
        items.len(),
        |i: int|
            QueueItem {
                infohash: items[i].infohash,
                desired: items[i].desired,
                forced: items[i].forced,
                position: items[i].position,
                finished: items[i].finished,
                running_now: if eligible(items[i]) {
                    runs_after_plan(items, max_active, i)
                } else {
                    items[i].running_now
                },
            },
    )
}

/// Number of the first `k` queue entries that should run after the plan.
pub open spec fn count_running(items: Seq<QueueItem>, o: Seq<int>, max_active: u32, k: int) -> nat
    decreases k,
{
    if k <= 0 {
        0
    } else {
        count_running(items, o, max_active, k - 1) + if wants_run(items, o, max_active, k - 1) {
            1nat
        } else {
            0nat
        }
    }
}

/// Number of the first `k` queue entries that get a slot.
spec fn count_slotted(items: Seq<QueueItem>, o: Seq<int>, max_active: u32, k: int) -> nat
    decreases k,
{
    if k <= 0 {
        0
    } else {
        count_slotted(items, o, max_active, k - 1) + if gets_slot(items, o, max_active, k - 1) {
            1nat
        } else {
            0nat
        }
    }
}

/// A forced torrent is never queued, and is started when it is not running.
pub proof fn lemma_forced_always_runs(items: Seq<QueueItem>, max_active: u32, i: int)
    requires
        0 <= i < items.len(),
        eligible(items[i]),
        items[i].forced,
    ensures
        !decide_spec(items, max_active).1.contains(items[i].infohash@),
        !items[i].running_now ==> decide_spec(items, max_active).0.contains(items[i].infohash@),
{
    let o = queue_order(items);
    lemma_queue_order_exists(items);
    let k = choose|k: int| 0 <= k < o.len() && o[k] == i;
    assert(gets_slot(items, o, max_active, k));
    assert(wants_run(items, o, max_active, k));
    lemma_start_list_members(items, o, max_active, o.len() as int);
    lemma_pause_list_members(items, o, max_active, o.len() as int);
    if decide_spec(items, max_active).1.contains(items[i].infohash@) {
        let j = choose|j: int| 0 <= j < o.len() && hash_at(items, o, j) == items[i].infohash@
            && !wants_run(items, o, max_active, j) && items[o[j]].running_now;
        lemma_wants_by_hash(items, o, max_active, j, k);
    }
    if !items[i].running_now {
        assert(start_list(items, o, max_active, o.len() as int).contains(hash_at(items, o, k)));
    }
}

/// With no cap (`max_active == 0`) nothing is queued and every managed torrent
/// that is not running is started.
pub proof fn lemma_unlimited_runs_all(items: Seq<QueueItem>, i: int)
    requires
        0 <= i < items.len(),
        eligible(items[i]),
    ensures
        decide_spec(items, 0).1 == Seq::<Seq<char>>::empty(),
        !items[i].running_now ==> decide_spec(items, 0).0.contains(items[i].infohash@),
{
    let o = queue_order(items);
    lemma_queue_order_exists(items);
    lemma_start_list_members(items, o, 0, o.len() as int);
    lemma_pause_list_members(items, o, 0, o.len() as int);
    let pl = decide_spec(items, 0).1;
    if pl.len() > 0 {
        assert(pl.contains(pl[0]));
        let j = choose|j: int| 0 <= j < o.len() && hash_at(items, o, j) == pl[0] && !wants_run(items, o, 0, j)
            && items[o[j]].running_now;
        assert(gets_slot(items, o, 0, j));
    }
    assert(pl =~= Seq::<Seq<char>>::empty());
    let k = choose|k: int| 0 <= k < o.len() && o[k] == i;
    assert(gets_slot(items, o, 0, k));
    if !items[i].running_now {
        assert(start_list(items, o, 0, o.len() as int).contains(hash_at(items, o, k)));
    }
}

/// With distinct infohashes, an entry should run exactly when it gets a slot.
proof fn lemma_wants_is_slot(items: Seq<QueueItem>, o: Seq<int>, max_active: u32, k: int)
    requires
        is_queue_order(items, o),
        distinct_hashes(items),
        0 <= k < o.len(),
    ensures
        wants_run(items, o, max_active, k) == gets_slot(items, o, max_active, k),
{
    if wants_run(items, o, max_active, k) {
        let l = choose|l: int| 0 <= l < o.len() && #[trigger] gets_slot(items, o, max_active, l)
            && hash_at(items, o, l) == hash_at(items, o, k);
        if l != k {
            if l < k {
                assert(precedes(items, o[l], o[k]));
            } else {
                assert(precedes(items, o[k], o[l]));
            }
            assert(o[l] != o[k]);
            if o[l] < o[k] {
                assert(items[o[l]].infohash@ != items[o[k]].infohash@);
            } else {
                assert(items[o[k]].infohash@ != items[o[l]].infohash@);
            }
        }
    } else {
        if gets_slot(items, o, max_active, k) {
            assert(wants_run(items, o, max_active, k));
        }
    }
}

proof fn lemma_count_unforced_monotone(items: Seq<QueueItem>, o: Seq<int>, a: int, b: int)
    requires
        0 <= a <= b,
    ensures
        count_unforced(items, o, a) <= count_unforced(items, o, b),
    decreases b - a,
{
    if a < b {
        lemma_count_unforced_monotone(items, o, a, b - 1);
    }
}

/// Priority is respected: among torrents that are neither forced nor sharing an
/// infohash, one that should run never waits behind one ahead of it in the queue
/// (lower position, or equal position and listed earlier).
pub proof fn lemma_priority_respected(items: Seq<QueueItem>, max_active: u32, i: int, j: int)
    requires
        distinct_hashes(items),
        0 <= i < items.len(),
        0 <= j < items.len(),
        eligible(items[i]),
        eligible(items[j]),
        !items[i].forced,
        !items[j].forced,
        precedes(items, i, j),
        runs_after_plan(items, max_active, j),
    ensures
        runs_after_plan(items, max_active, i),
{
    let o = queue_order(items);
    lemma_queue_order_exists(items);
    let ki = choose|k: int| 0 <= k < o.len() && o[k] == i;
    let kj = choose|k: int| 0 <= k < o.len() && o[k] == j;
    assert(wants_run(items, o, max_active, kj));
    lemma_wants_is_slot(items, o, max_active, kj);
    if kj < ki {
        assert(precedes(items, o[kj], o[ki]));
    }
    if ki != kj {
        lemma_count_unforced_monotone(items, o, ki + 1, kj);
        assert(count_unforced(items, o, ki + 1) == count_unforced(items, o, ki) + 1);
    }
    assert(gets_slot(items, o, max_active, ki));
}

proof fn lemma_count_running_is_slotted(items: Seq<QueueItem>, o: Seq<int>, max_active: u32, k: int)
    requires
        is_queue_order(items, o),
        distinct_hashes(items),
        0 <= k <= o.len(),
    ensures
        count_running(items, o, max_active, k) == count_slotted(items, o, max_active, k),
    decreases k,
{
    if k > 0 {
        lemma_count_running_is_slotted(items, o, max_active, k - 1);
        lemma_wants_is_slot(items, o, max_active, k - 1);
    }
}

proof fn lemma_count_slotted_formula(items: Seq<QueueItem>, o: Seq<int>, max_active: u32, k: int)
    requires
        max_active > 0,
        0 <= k <= o.len(),
    ensures
        count_slotted(items, o, max_active, k) == count_forced(items, o, k) + if count_unforced(items, o, k)
            < free_slots(items, o, max_active) {
            count_unforced(items, o, k) as int
        } else if free_slots(items, o, max_active) > 0 {
            free_slots(items, o, max_active)
        } else {
            0
        },
    decreases k,
{
    if k > 0 {
        lemma_count_slotted_formula(items, o, max_active, k - 1);
    }
}

proof fn lemma_count_forced_bound(items: Seq<QueueItem>, o: Seq<int>, k: int)
    requires
        0 <= k,
    ensures
        count_forced(items, o, k) <= k,
    decreases k,
{
    if k > 0 {
        lemma_count_forced_bound(items, o, k - 1);
    }
}

/// The cap is honored: with a cap set, the torrents downloading after the plan
/// are at most the cap, or the forced torrents alone when they outnumber it.
pub proof fn lemma_cap_respected(items: Seq<QueueItem>, max_active: u32)
    requires
        max_active > 0,
        distinct_hashes(items),
        items.len() <= u32::MAX,
    ensures
        ({
            let o = queue_order(items);
            let running = count_running(items, o, max_active, o.len() as int);
            let forced = count_forced(items, o, o.len() as int);
            running <= max_active || running == forced
        }),
{
    let o = queue_order(items);
    lemma_queue_order_exists(items);
    lemma_count_running_is_slotted(items, o, max_active, o.len() as int);
    lemma_count_slotted_formula(items, o, max_active, o.len() as int);
    lemma_count_forced_bound(items, o, o.len() as int);
    assert(o.len() <= items.len()) by {
        lemma_order_len_bound(items, o);
    }
}

proof fn lemma_order_len_bound(items: Seq<QueueItem>, o: Seq<int>)
    requires
        is_queue_order(items, o),
    ensures
        o.len() <= items.len(),
{
    let s = o.to_set();
    assert forall|x: int| s.contains(x) implies vstd::set_lib::set_int_range(0, items.len() as int).contains(x) by {
        let k = choose|k: int| 0 <= k < o.len() && o[k] == x;
    }
    vstd::set_lib::lemma_int_range(0, items.len() as int);
    vstd::set_lib::lemma_len_subset(s, vstd::set_lib::set_int_range(0, items.len() as int));
    assert forall|a: int, b: int| 0 <= a < o.len() && 0 <= b < o.len() && a != b implies o[a] != o[b] by {
        if a < b {
            assert(precedes(items, o[a], o[b]));
        } else {
            assert(precedes(items, o[b], o[a]));
        }
    }
    assert(o.no_duplicates());
    o.unique_seq_to_set();
}

proof fn lemma_counts_follow_forced(items: Seq<QueueItem>, other: Seq<QueueItem>, o: Seq<int>, k: int)
    requires
        0 <= k <= o.len(),
        forall|m: int| 0 <= m < o.len() ==> items[#[trigger] o[m]].forced == other[o[m]].forced,
    ensures
        count_forced(items, o, k) == count_forced(other, o, k),
        count_unforced(items, o, k) == count_unforced(other, o, k),
    decreases k,
{
    if k > 0 {
        lemma_counts_follow_forced(items, other, o, k - 1);
    }
}

/// Deciding again after the plan is applied changes nothing: the plan leads
/// to a state where the queue is already correct.
pub proof fn lemma_plan_is_idempotent(items: Seq<QueueItem>, max_active: u32)
    ensures
        decide_spec(apply_plan(items, max_active), max_active) == (
            Seq::<Seq<char>>::empty(),
            Seq::<Seq<char>>::empty(),
        ),
{
    let after = apply_plan(items, max_active);
    let o = queue_order(items);
    lemma_queue_order_exists(items);
    assert forall|x: int| 0 <= x < items.len() implies eligible(#[trigger] after[x]) == eligible(items[x])
        && after[x].position == items[x].position && after[x].forced == items[x].forced
        && after[x].infohash@ == items[x].infohash@ by {
    }
    assert(is_queue_order(after, o)) by {
        assert forall|k: int, l: int| 0 <= k < l < o.len() implies precedes(after, #[trigger] o[k], #[trigger] o[l]) by {
            assert(precedes(items, o[k], o[l]));
        }
        assert forall|x: int| 0 <= x < after.len() && eligible(#[trigger] after[x]) implies o.contains(x) by {
            assert(eligible(items[x]));
        }
    }
    lemma_queue_order_exists(after);
    lemma_queue_order_unique(after, o, queue_order(after));
    lemma_counts_follow_forced(items, after, o, o.len() as int);
    assert forall|k: int| 0 <= k < o.len() implies gets_slot(after, o, max_active, k) == gets_slot(items, o, max_active, k)
        && #[trigger] hash_at(after, o, k) == hash_at(items, o, k) by {
        lemma_counts_follow_forced(items, after, o, k);
    }
    assert forall|k: int| 0 <= k < o.len() implies #[trigger] wants_run(after, o, max_active, k) == wants_run(items, o, max_active, k)
        && after[o[k]].running_now == wants_run(items, o, max_active, k) by {
        if wants_run(items, o, max_active, k) {
            let l = choose|l: int| 0 <= l < o.len() && #[trigger] gets_slot(items, o, max_active, l)
                && hash_at(items, o, l) == hash_at(items, o, k);
            assert(hash_at(after, o, l) == hash_at(items, o, l));
            assert(hash_at(after, o, k) == hash_at(items, o, k));
            assert(gets_slot(after, o, max_active, l));
            assert(runs_after_plan(items, max_active, o[k]));
        }
        if wants_run(after, o, max_active, k) {
            let l = choose|l: int| 0 <= l < o.len() && #[trigger] gets_slot(after, o, max_active, l)
                && hash_at(after, o, l) == hash_at(after, o, k);
            assert(hash_at(after, o, l) == hash_at(items, o, l));
            assert(hash_at(after, o, k) == hash_at(items, o, k));
            assert(gets_slot(items, o, max_active, l));
        }
        if runs_after_plan(items, max_active, o[k]) {
            let l = choose|l: int| 0 <= l < o.len() && #[trigger] gets_slot(items, o, max_active, l)
                && hash_at(items, o, l) == items[o[k]].infohash@;
            assert(wants_run(items, o, max_active, k));
        }
    }
    lemma_start_list_members(after, o, max_active, o.len() as int);
    lemma_pause_list_members(after, o, max_active, o.len() as int);
    let sl = start_list(after, o, max_active, o.len() as int);
    let pl = pause_list(after, o, max_active, o.len() as int);
    if sl.len() > 0 {
        assert(sl.contains(sl[0]));
    }
    if pl.len() > 0 {
        assert(pl.contains(pl[0]));
    }
    assert(sl =~= Seq::<Seq<char>>::empty());
    assert(pl =~= Seq::<Seq<char>>::empty());
}

/// With no cap (`max_active == 0`) a plan pauses nothing.
pub proof fn lemma_unlimited_pauses_nothing(items: Seq<QueueItem>)
    ensures
        decide_spec(items, 0).1 == Seq::<Seq<char>>::empty(),
{
    let o = queue_order(items);
    lemma_queue_order_exists(items);
    lemma_pause_list_members(items, o, 0, o.len() as int);
    let pl = decide_spec(items, 0).1;
    if pl.len() > 0 {
        assert(pl.contains(pl[0]));
        let j = choose|j: int| 0 <= j < o.len() && hash_at(items, o, j) == pl[0] && !wants_run(items, o, 0, j)
            && items[o[j]].running_now;
        assert(gets_slot(items, o, 0, j));
    }
    assert(pl =~= Seq::<Seq<char>>::empty());
}

/// A larger cap asks for no less: with caps `1 <= m1 <= m2`, every torrent
/// the smaller cap starts is started under the larger one, and every torrent
/// the larger cap pauses is paused under the smaller one.
pub proof fn lemma_cap_monotone(items: Seq<QueueItem>, m1: u32, m2: u32, x: Seq<char>)
    requires
        1 <= m1 <= m2,
    ensures
        decide_spec(items, m1).0.contains(x) ==> decide_spec(items, m2).0.contains(x),
        decide_spec(items, m2).1.contains(x) ==> decide_spec(items, m1).1.contains(x),
{
    let o = queue_order(items);
    lemma_queue_order_exists(items);
    assert forall|l: int| 0 <= l < o.len() && #[trigger] gets_slot(items, o, m1, l) implies gets_slot(
        items,
        o,
        m2,
        l,
    ) by {}
    lemma_start_list_members(items, o, m1, o.len() as int);
    lemma_start_list_members(items, o, m2, o.len() as int);
    lemma_pause_list_members(items, o, m1, o.len() as int);
    lemma_pause_list_members(items, o, m2, o.len() as int);
    if decide_spec(items, m1).0.contains(x) {
        let j = choose|j: int| 0 <= j < o.len() && hash_at(items, o, j) == x && wants_run(items, o, m1, j)
            && !items[o[j]].running_now;
        let l = choose|l: int| 0 <= l < o.len() && #[trigger] gets_slot(items, o, m1, l) && hash_at(items, o, l)
            == hash_at(items, o, j);
        assert(gets_slot(items, o, m2, l));
        assert(wants_run(items, o, m2, j));
        assert(start_list(items, o, m2, o.len() as int).contains(hash_at(items, o, j)));
    }
    if decide_spec(items, m2).1.contains(x) {
        let j = choose|j: int| 0 <= j < o.len() && hash_at(items, o, j) == x && !wants_run(items, o, m2, j)
            && items[o[j]].running_now;
        if wants_run(items, o, m1, j) {
            let l = choose|l: int| 0 <= l < o.len() && #[trigger] gets_slot(items, o, m1, l) && hash_at(items, o, l)
                == hash_at(items, o, j);
            assert(gets_slot(items, o, m2, l));
        }
        assert(pause_list(items, o, m1, o.len() as int).contains(hash_at(items, o, j)));
    }
}

/// The torrent list after a plan is carried out: every torrent whose
/// infohash the plan starts is running, every one it pauses is not, the
/// others are as they were.
pub open spec fn with_plan_applied(items: Seq<QueueItem>, plan: (Seq<Seq<char>>, Seq<Seq<char>>)) -> Seq<QueueItem> {
    Seq::new(
        items.len(),
        |i: int|
            QueueItem {
                infohash: items[i].infohash,
                desired: items[i].desired,
                forced: items[i].forced,
                position: items[i].position,
                finished: items[i].finished,
                running_now: if plan.0.contains(items[i].infohash@) {
                    true
                } else if plan.1.contains(items[i].infohash@) {
                    false
                } else {
                    items[i].running_now
                },
            },
    )
}

/// Once a plan has been carried out, deciding again asks for nothing (with
/// one torrent per infohash).
pub proof fn lemma_decide_again_asks_nothing(items: Seq<QueueItem>, max_active: u32)
    requires
        distinct_hashes(items),
    ensures
        decide_spec(with_plan_applied(items, decide_spec(items, max_active)), max_active) == (
            Seq::<Seq<char>>::empty(),
            Seq::<Seq<char>>::empty(),
        ),
{
    let plan = decide_spec(items, max_active);
    let a = with_plan_applied(items, plan);
    let b = apply_plan(items, max_active);
    let o = queue_order(items);
    lemma_queue_order_exists(items);
    lemma_start_list_members(items, o, max_active, o.len() as int);
    lemma_pause_list_members(items, o, max_active, o.len() as int);
    assert forall|x: int| 0 <= x < items.len() implies #[trigger] a[x] == b[x] by {
        let h = items[x].infohash@;
        if eligible(items[x]) {
            let k = choose|k: int| 0 <= k < o.len() && o[k] == x;
            assert(hash_at(items, o, k) == h);
            if runs_after_plan(items, max_active, x) {
                let l = choose|l: int| 0 <= l < o.len() && #[trigger] gets_slot(items, o, max_active, l)
                    && hash_at(items, o, l) == h;
                assert(wants_run(items, o, max_active, k));
            }
            if wants_run(items, o, max_active, k) {
                let l = choose|l: int| 0 <= l < o.len() && #[trigger] gets_slot(items, o, max_active, l)
                    && hash_at(items, o, l) == hash_at(items, o, k);
                assert(runs_after_plan(items, max_active, x));
            }
            if plan.0.contains(h) {
                let j = choose|j: int| 0 <= j < o.len() && hash_at(items, o, j) == h && wants_run(
                    items,
                    o,
                    max_active,
                    j,
                ) && !items[o[j]].running_now;
                lemma_wants_by_hash(items, o, max_active, j, k);
            } else if plan.1.contains(h) {
                let j = choose|j: int| 0 <= j < o.len() && hash_at(items, o, j) == h && !wants_run(
                    items,
                    o,
                    max_active,
                    j,
                ) && items[o[j]].running_now;
                lemma_wants_by_hash(items, o, max_active, j, k);
            } else {
                if wants_run(items, o, max_active, k) && !items[x].running_now {
                    assert(plan.0.contains(hash_at(items, o, k)));
                }
                if !wants_run(items, o, max_active, k) && items[x].running_now {
                    assert(plan.1.contains(hash_at(items, o, k)));
                }
            }
        } else {
            if plan.0.contains(h) || plan.1.contains(h) {
                lemma_plan_names_only_eligible(items, max_active, h);
                let y = choose|y: int| 0 <= y < items.len() && eligible(#[trigger] items[y]) && items[y].infohash@ == h;
                if y < x {
                    assert(items[y].infohash@ != items[x].infohash@);
                } else if x < y {
                    assert(items[x].infohash@ != items[y].infohash@);
                }
            }
        }
    }
    assert(a =~= b);
    lemma_plan_is_idempotent(items, max_active);
}

/// Torrent `i` downloads once `plan` is carried out: the queue manages it,
/// and the plan starts it, or it was running and the plan does not pause it.
pub open spec fn downloads_after(items: Seq<QueueItem>, plan: (Seq<Seq<char>>, Seq<Seq<char>>), i: int) -> bool {
    &&& eligible(items[i])
    &&& plan.0.contains(items[i].infohash@) || (items[i].running_now && !plan.1.contains(items[i].infohash@))
}

/// Number of the first `k` entries of `o` that download once `plan` is
/// carried out.
pub open spec fn count_downloading(
    items: Seq<QueueItem>,
    o: Seq<int>,
    plan: (Seq<Seq<char>>, Seq<Seq<char>>),
    k: int,
) -> nat
    decreases k,
{
    if k <= 0 {
        0
    } else {
        count_downloading(items, o, plan, k - 1) + if downloads_after(items, plan, o[k - 1]) {
            1nat
        } else {
            0nat
        }
    }
}

/// A managed torrent downloads after the plan exactly when it should run.
proof fn lemma_downloads_after(items: Seq<QueueItem>, max_active: u32, x: int)
    requires
        0 <= x < items.len(),
        eligible(items[x]),
    ensures
        downloads_after(items, decide_spec(items, max_active), x) == runs_after_plan(items, max_active, x),
{
    let plan = decide_spec(items, max_active);
    let o = queue_order(items);
    lemma_queue_order_exists(items);
    lemma_start_list_members(items, o, max_active, o.len() as int);
    lemma_pause_list_members(items, o, max_active, o.len() as int);
    let h = items[x].infohash@;
    let k = choose|k: int| 0 <= k < o.len() && o[k] == x;
    assert(hash_at(items, o, k) == h);
    if runs_after_plan(items, max_active, x) {
        let l = choose|l: int| 0 <= l < o.len() && #[trigger] gets_slot(items, o, max_active, l) && hash_at(
            items,
            o,
            l,
        ) == h;
        assert(wants_run(items, o, max_active, k));
    }
    if wants_run(items, o, max_active, k) {
        let l = choose|l: int| 0 <= l < o.len() && #[trigger] gets_slot(items, o, max_active, l) && hash_at(
            items,
            o,
            l,
        ) == hash_at(items, o, k);
        assert(runs_after_plan(items, max_active, x));
    }
    if plan.0.contains(h) {
        let j = choose|j: int| 0 <= j < o.len() && hash_at(items, o, j) == h && wants_run(items, o, max_active, j)
            && !items[o[j]].running_now;
        lemma_wants_by_hash(items, o, max_active, j, k);
    }
    if plan.1.contains(h) {
        let j = choose|j: int| 0 <= j < o.len() && hash_at(items, o, j) == h && !wants_run(items, o, max_active, j)
            && items[o[j]].running_now;
        lemma_wants_by_hash(items, o, max_active, j, k);
    }
    if wants_run(items, o, max_active, k) && !items[x].running_now {
        assert(plan.0.contains(hash_at(items, o, k)));
    }
    if !wants_run(items, o, max_active, k) && items[x].running_now {
        assert(plan.1.contains(hash_at(items, o, k)));
    }
}

proof fn lemma_count_downloading_is_slotted(items: Seq<QueueItem>, o: Seq<int>, max_active: u32, k: int)
    requires
        o == queue_order(items),
        is_queue_order(items, o),
        distinct_hashes(items),
        0 <= k <= o.len(),
    ensures
        count_downloading(items, o, decide_spec(items, max_active), k) == count_slotted(items, o, max_active, k),
    decreases k,
{
    if k > 0 {
        lemma_count_downloading_is_slotted(items, o, max_active, k - 1);
        lemma_downloads_after(items, max_active, o[k - 1]);
        lemma_wants_is_slot(items, o, max_active, k - 1);
        assert(hash_at(items, o, k - 1) == items[o[k - 1]].infohash@);
        if gets_slot(items, o, max_active, k - 1) {
            assert(runs_after_plan(items, max_active, o[k - 1]));
        }
        if runs_after_plan(items, max_active, o[k - 1]) {
            let l = choose|l: int| 0 <= l < o.len() && #[trigger] gets_slot(items, o, max_active, l) && hash_at(
                items,
                o,
                l,
            ) == items[o[k - 1]].infohash@;
            assert(wants_run(items, o, max_active, k - 1));
        }
    }
}

/// With a cap the cap is filled, not only respected: when the forced
/// managed torrents, `f` of them, are no more than the cap `m`, the managed
/// torrents downloading once the plan is carried out number exactly
/// `min(m, f + u)`, `u` being the non-forced managed ones; forced ones all
/// download, and a non-forced one downloads exactly when fewer than `m - f`
/// non-forced ones come before it in the queue (one torrent per infohash).
pub proof fn lemma_cap_filled(items: Seq<QueueItem>, m: u32)
    requires
        m > 0,
        distinct_hashes(items),
        count_forced(items, queue_order(items), queue_order(items).len() as int) <= m,
    ensures
        ({
            let o = queue_order(items);
            let plan = decide_spec(items, m);
            let f = count_forced(items, o, o.len() as int);
            let u = count_unforced(items, o, o.len() as int);
            &&& count_downloading(items, o, plan, o.len() as int) == if f + u <= m {
                (f + u) as int
            } else {
                m as int
            }
            &&& forall|k: int|
                0 <= k < o.len() ==> (#[trigger] downloads_after(items, plan, o[k]) <==> (items[o[k]].forced
                    || count_unforced(items, o, k) < m - f))
        }),
{
    let o = queue_order(items);
    lemma_queue_order_exists(items);
    let f = count_forced(items, o, o.len() as int);
    lemma_count_downloading_is_slotted(items, o, m, o.len() as int);
    lemma_count_slotted_formula(items, o, m, o.len() as int);
    assert((f as u32) as int == f);
    assert(free_slots(items, o, m) == m - f);
    lemma_forced_unforced_split(items, o, o.len() as int);
    assert forall|k: int| 0 <= k < o.len() implies (#[trigger] downloads_after(items, decide_spec(items, m), o[k])
        <==> (items[o[k]].forced || count_unforced(items, o, k) < m - f)) by {
        lemma_downloads_after(items, m, o[k]);
        lemma_wants_is_slot(items, o, m, k);
        if gets_slot(items, o, m, k) {
            assert(runs_after_plan(items, m, o[k]));
        }
        if runs_after_plan(items, m, o[k]) {
            let l = choose|l: int| 0 <= l < o.len() && #[trigger] gets_slot(items, o, m, l) && hash_at(items, o, l)
                == items[o[k]].infohash@;
            assert(wants_run(items, o, m, k));
        }
    }
}

/// Entries are forced or not.
proof fn lemma_forced_unforced_split(items: Seq<QueueItem>, o: Seq<int>, k: int)
    requires
        0 <= k,
    ensures
        count_forced(items, o, k) + count_unforced(items, o, k) == k,
    decreases k,
{
    if k > 0 {
        lemma_forced_unforced_split(items, o, k - 1);
    }
}

} // verus!
