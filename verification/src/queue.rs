//! Drift's download queue. `decide` is a pure function: given the torrent set
//! and the max-active-downloads cap, it says which torrents should start
//! (unpause) and which should be queued (pause).

use vstd::prelude::*;

verus! {

/// User intent for a torrent.
#[derive(Debug, Clone, Copy, PartialEq, Eq, Structural)]
pub enum Desired {
    Run,
    Pause,
}

/// A torrent's queue-relevant facts, built from its persisted record.
#[derive(Debug)]
pub struct QueueItem {
    pub infohash: String,
    /// `Run` = eligible to download; `Pause` = user-paused (sticky).
    pub desired: Desired,
    /// Bypasses the cap.
    pub forced: bool,
    /// Lower = higher priority.
    pub position: u32,
    /// Seeding/completed: needs no download slot.
    pub finished: bool,
    /// Currently occupying a download slot (downloading or stalled).
    pub running_now: bool,
}

/// Which torrents to unpause and which to pause.
#[derive(Debug, PartialEq, Eq)]
pub struct QueuePlan {
    pub to_start: Vec<String>,
    pub to_pause: Vec<String>,
}

impl Default for QueuePlan {
    fn default() -> (p: Self)
        ensures
            p.to_start@ == Seq::<String>::empty(),
            p.to_pause@ == Seq::<String>::empty(),
    {
        QueuePlan { to_start: Vec::new(), to_pause: Vec::new() }
    }
}

/// Only non-finished torrents the user wants running are managed by the queue.
pub open spec fn eligible(i: QueueItem) -> bool {
    i.desired == Desired::Run && !i.finished
}

/// Queue priority between two item indices: lower position first, and among
/// equal positions the item listed first (the sort is stable).
pub open spec fn precedes(items: Seq<QueueItem>, a: int, b: int) -> bool {
    ||| items[a].position < items[b].position
    ||| (items[a].position == items[b].position && a < b)
}

/// `order` lists the indices of exactly the eligible items, in queue priority.
pub open spec fn is_queue_order(items: Seq<QueueItem>, order: Seq<int>) -> bool {
    &&& forall|k: int| 0 <= k < order.len() ==> 0 <= #[trigger] order[k] < items.len() && eligible(items[order[k]])
    &&& forall|i: int| 0 <= i < items.len() && eligible(#[trigger] items[i]) ==> order.contains(i)
    &&& forall|k: int, l: int| 0 <= k < l < order.len() ==> precedes(items, #[trigger] order[k], #[trigger] order[l])
}

/// The eligible items in queue priority (unique: see `lemma_queue_order_unique`).
pub open spec fn queue_order(items: Seq<QueueItem>) -> Seq<int> {
    choose|order: Seq<int>| is_queue_order(items, order)
}

/// Two orders that both list the eligible items by priority are the same order.
pub proof fn lemma_queue_order_unique(items: Seq<QueueItem>, o1: Seq<int>, o2: Seq<int>)
    requires
        is_queue_order(items, o1),
        is_queue_order(items, o2),
    ensures
        o1 == o2,
{
    assert forall|k: int| 0 <= k < o1.len() && 0 <= k < o2.len() implies o1[k] == o2[k] by {
        lemma_orders_agree_at(items, o1, o2, k);
    }
    if o1.len() < o2.len() {
        let x = o2[o1.len() as int];
        assert(o1.contains(x));
        let m = choose|m: int| 0 <= m < o1.len() && o1[m] == x;
        lemma_orders_agree_at(items, o1, o2, m);
        assert(precedes(items, o2[m], o2[o1.len() as int]));
    } else if o2.len() < o1.len() {
        let x = o1[o2.len() as int];
        assert(o2.contains(x));
        let m = choose|m: int| 0 <= m < o2.len() && o2[m] == x;
        lemma_orders_agree_at(items, o1, o2, m);
        assert(precedes(items, o1[m], o1[o2.len() as int]));
    }
    assert(o1 =~= o2);
}

proof fn lemma_orders_agree_at(items: Seq<QueueItem>, o1: Seq<int>, o2: Seq<int>, k: int)
    requires
        is_queue_order(items, o1),
        is_queue_order(items, o2),
        0 <= k < o1.len(),
        0 <= k < o2.len(),
    ensures
        o1[k] == o2[k],
    decreases k,
{
    assert forall|j: int| 0 <= j < k implies o1[j] == o2[j] by {
        lemma_orders_agree_at(items, o1, o2, j);
    }
    let a = o1[k];
    let b = o2[k];
    assert(o2.contains(a));
    assert(o1.contains(b));
    let m = choose|m: int| 0 <= m < o2.len() && o2[m] == a;
    let mp = choose|m: int| 0 <= m < o1.len() && o1[m] == b;
    if m < k {
        assert(o1[m] == o2[m]);
        assert(precedes(items, o1[m], o1[k]));
    }
    if mp < k {
        assert(o1[mp] == o2[mp]);
        assert(precedes(items, o2[mp], o2[k]));
    }
    if m > k && mp > k {
        assert(precedes(items, o2[k], o2[m]));
        assert(precedes(items, o1[k], o1[mp]));
    }
}

/// `order` lists, by priority, exactly the eligible items among the first `n`.
pub open spec fn is_prefix_queue_order(items: Seq<QueueItem>, order: Seq<int>, n: int) -> bool {
    &&& forall|k: int| 0 <= k < order.len() ==> 0 <= #[trigger] order[k] < n && eligible(items[order[k]])
    &&& forall|i: int| 0 <= i < n && eligible(#[trigger] items[i]) ==> order.contains(i)
    &&& forall|k: int, l: int| 0 <= k < l < order.len() ==> precedes(items, #[trigger] order[k], #[trigger] order[l])
}

/// The first entry at or after `k` whose position exceeds `pos`.
spec fn first_after(items: Seq<QueueItem>, order: Seq<int>, pos: u32, k: int) -> int
    decreases order.len() - k,
{
    if k >= order.len() {
        order.len() as int
    } else if items[order[k]].position > pos {
        k
    } else {
        first_after(items, order, pos, k + 1)
    }
}

proof fn lemma_first_after(items: Seq<QueueItem>, order: Seq<int>, pos: u32, k: int)
    requires
        0 <= k <= order.len(),
        forall|j: int| 0 <= j < k ==> items[#[trigger] order[j]].position <= pos,
    ensures
        k <= first_after(items, order, pos, k) <= order.len(),
        forall|j: int| 0 <= j < first_after(items, order, pos, k) ==> items[#[trigger] order[j]].position <= pos,
        first_after(items, order, pos, k) < order.len() ==> items[order[first_after(items, order, pos, k)]].position
            > pos,
    decreases order.len() - k,
{
    if k < order.len() && items[order[k]].position <= pos {
        lemma_first_after(items, order, pos, k + 1);
    }
}

proof fn lemma_insert_keeps_order(items: Seq<QueueItem>, order: Seq<int>, n: int, p: int)
    requires
        is_prefix_queue_order(items, order, n),
        0 <= n < items.len(),
        eligible(items[n]),
        0 <= p <= order.len(),
        forall|j: int| 0 <= j < p ==> items[#[trigger] order[j]].position <= items[n].position,
        p < order.len() ==> items[order[p]].position > items[n].position,
    ensures
        is_prefix_queue_order(items, order.insert(p, n), n + 1),
{
    let no = order.insert(p, n);
    assert forall|k: int, l: int| 0 <= k < l < no.len() implies precedes(items, #[trigger] no[k], #[trigger] no[l]) by {
        if l < p {
            assert(no[k] == order[k] && no[l] == order[l]);
        } else if l == p {
            assert(no[k] == order[k]);
        } else if k == p {
            assert(no[l] == order[l - 1]);
            if l - 1 > p {
                assert(precedes(items, order[p], order[l - 1]));
            }
        } else if k < p {
            assert(no[k] == order[k] && no[l] == order[l - 1]);
        } else {
            assert(no[k] == order[k - 1] && no[l] == order[l - 1]);
        }
    }
    assert forall|j: int| 0 <= j < n + 1 && eligible(#[trigger] items[j]) implies no.contains(j) by {
        if j < n {
            let m = choose|m: int| 0 <= m < order.len() && order[m] == j;
            if m < p {
                assert(no[m] == j);
            } else {
                assert(no[m + 1] == j);
            }
        } else {
            assert(no[p] == n);
        }
    }
}

proof fn prefix_queue_order(items: Seq<QueueItem>, n: int) -> (order: Seq<int>)
    requires
        0 <= n <= items.len(),
    ensures
        is_prefix_queue_order(items, order, n),
    decreases n,
{
    if n == 0 {
        Seq::empty()
    } else {
        let prev = prefix_queue_order(items, n - 1);
        if eligible(items[n - 1]) {
            lemma_first_after(items, prev, items[n - 1].position, 0);
            let p = first_after(items, prev, items[n - 1].position, 0);
            lemma_insert_keeps_order(items, prev, n - 1, p);
            prev.insert(p, n - 1)
        } else {
            prev
        }
    }
}

/// Every torrent list has a queue order.
pub proof fn lemma_queue_order_exists(items: Seq<QueueItem>)
    ensures
        is_queue_order(items, queue_order(items)),
{
    let o = prefix_queue_order(items, items.len() as int);
    assert(is_queue_order(items, o));
}

/// Indices of the eligible items, in queue priority.
fn eligible_in_priority_order(items: &[QueueItem]) -> (order: Vec<usize>)
    ensures
        is_queue_order(items@, order@.map_values(|i: usize| i as int)),
{
    let mut order: Vec<usize> = Vec::new();
    let n = items.len();
    for i in 0..n
        invariant
            n == items@.len(),
            forall|k: int| 0 <= k < order@.len() ==> #[trigger] order@[k] < i && eligible(items@[order@[k] as int]),
            forall|j: int| 0 <= j < i && eligible(#[trigger] items@[j]) ==> order@.contains(j as usize),
            forall|k: int, l: int| 0 <= k < l < order@.len() ==> precedes(items@, #[trigger] order@[k] as int, #[trigger] order@[l] as int),
    {
        if items[i].desired == Desired::Run && !items[i].finished {
            let pos = items[i].position;
            let mut p: usize = 0;
            while p < order.len() && items[order[p]].position <= pos
                invariant
                    n == items@.len(),
                    i < n,
                    p <= order@.len(),
                    forall|k: int| 0 <= k < order@.len() ==> #[trigger] order@[k] < i && eligible(items@[order@[k] as int]),
                    forall|k: int| 0 <= k < p ==> items@[#[trigger] order@[k] as int].position <= pos,
                decreases order@.len() - p,
            {
                p = p + 1;
            }
            let ghost old_order = order@;
            order.insert(p, i);
            assert forall|k: int, l: int| 0 <= k < l < order@.len() implies precedes(items@, #[trigger] order@[k] as int, #[trigger] order@[l] as int) by {
                if l < p {
                    assert(order@[k] == old_order[k] && order@[l] == old_order[l]);
                } else if l == p {
                    assert(order@[k] == old_order[k]);
                } else if k == p {
                    assert(order@[l] == old_order[l - 1]);
                    if l - 1 > p {
                        assert(precedes(items@, old_order[p as int] as int, old_order[l - 1] as int));
                    }
                } else if k < p {
                    assert(order@[k] == old_order[k] && order@[l] == old_order[l - 1]);
                } else {
                    assert(order@[k] == old_order[k - 1] && order@[l] == old_order[l - 1]);
                }
            }
            assert forall|j: int| 0 <= j < i + 1 && eligible(#[trigger] items@[j]) implies order@.contains(j as usize) by {
                if j < i {
                    let m = choose|m: int| 0 <= m < old_order.len() && old_order[m] == j as usize;
                    if m < p {
                        assert(order@[m] == j as usize);
                    } else {
                        assert(order@[m + 1] == j as usize);
                    }
                } else {
                    assert(order@[p as int] == i);
                }
            }
        }
    }
    let ghost o = order@.map_values(|i: usize| i as int);
    assert forall|i: int| 0 <= i < items@.len() && eligible(#[trigger] items@[i]) implies o.contains(i) by {
        let m = choose|m: int| 0 <= m < order@.len() && order@[m] == i as usize;
        assert(o[m] == i);
    }
    order
}


/// Number of forced items among the first `k` entries of `order`.
pub open spec fn count_forced(items: Seq<QueueItem>, order: Seq<int>, k: int) -> nat
    decreases k,
{
    if k <= 0 {
        0
    } else {
        count_forced(items, order, k - 1) + if items[order[k - 1]].forced { 1nat } else { 0nat }
    }
}

/// Number of non-forced items among the first `k` entries of `order`.
pub open spec fn count_unforced(items: Seq<QueueItem>, order: Seq<int>, k: int) -> nat
    decreases k,
{
    if k <= 0 {
        0
    } else {
        count_unforced(items, order, k - 1) + if items[order[k - 1]].forced { 0nat } else { 1nat }
    }
}

/// Slots left for non-forced torrents: the cap minus the forced eligible
/// torrents (that count taken as a `u32`).
pub open spec fn free_slots(items: Seq<QueueItem>, order: Seq<int>, max_active: u32) -> int {
    max_active as int - (count_forced(items, order, order.len() as int) as u32) as int
}

/// Entry `k` of the queue order gets a download slot: forced torrents always
/// do; the others do while free slots remain (`max_active == 0` = unlimited).
pub open spec fn gets_slot(items: Seq<QueueItem>, order: Seq<int>, max_active: u32, k: int) -> bool {
    ||| items[order[k]].forced
    ||| max_active == 0
    ||| count_unforced(items, order, k) < free_slots(items, order, max_active)
}

/// The infohash of entry `k` of the queue order.
pub open spec fn hash_at(items: Seq<QueueItem>, order: Seq<int>, k: int) -> Seq<char> {
    items[order[k]].infohash@
}

/// Entry `k` should be running: some entry with the same infohash gets a slot.
pub open spec fn wants_run(items: Seq<QueueItem>, order: Seq<int>, max_active: u32, k: int) -> bool {
    exists|l: int|
        0 <= l < order.len() && #[trigger] gets_slot(items, order, max_active, l) && hash_at(items, order, l)
            == hash_at(items, order, k)
}

/// Infohashes among the first `k` entries that should run and are not running.
pub open spec fn start_list(items: Seq<QueueItem>, order: Seq<int>, max_active: u32, k: int) -> Seq<Seq<char>>
    decreases k,
{
    if k <= 0 {
        seq![]
    } else {
        let prev = start_list(items, order, max_active, k - 1);
        if wants_run(items, order, max_active, k - 1) && !items[order[k - 1]].running_now {
            prev.push(hash_at(items, order, k - 1))
        } else {
            prev
        }
    }
}

/// Infohashes among the first `k` entries that should wait but are running.
pub open spec fn pause_list(items: Seq<QueueItem>, order: Seq<int>, max_active: u32, k: int) -> Seq<Seq<char>>
    decreases k,
{
    if k <= 0 {
        seq![]
    } else {
        let prev = pause_list(items, order, max_active, k - 1);
        if !wants_run(items, order, max_active, k - 1) && items[order[k - 1]].running_now {
            prev.push(hash_at(items, order, k - 1))
        } else {
            prev
        }
    }
}

/// What `decide` returns: the torrents to start and those to pause, each in
/// queue priority.
pub open spec fn decide_spec(items: Seq<QueueItem>, max_active: u32) -> (Seq<Seq<char>>, Seq<Seq<char>>) {
    let order = queue_order(items);
    (
        start_list(items, order, max_active, order.len() as int),
        pause_list(items, order, max_active, order.len() as int),
    )
}

impl QueuePlan {
    pub open spec fn view_pair(self) -> (Seq<Seq<char>>, Seq<Seq<char>>) {
        (self.to_start.deep_view(), self.to_pause.deep_view())
    }
}

/// Decide the plan. `max_active == 0` means unlimited.
///
/// Only non-finished torrents that the user wants running are managed. Forced
/// ones always run; the remaining slots (cap minus forced count) go to the
/// others in ascending `position` order; the rest are queued. `to_start` lists
/// those that should run and are not running, `to_pause` those that should
/// wait and are running. Finished and user-paused torrents are never touched.
pub fn decide(items: &[QueueItem], max_active: u32) -> (plan: QueuePlan)
    ensures
        plan.view_pair() == decide_spec(items@, max_active),
{
    let order = eligible_in_priority_order(items);
    let ghost o = order@.map_values(|i: usize| i as int);
    proof {
        lemma_queue_order_unique(items@, o, queue_order(items@));
    }
    let n = order.len();
    let mut forced_count: usize = 0;
    for k in 0..n
        invariant
            n == order@.len(),
            n == o.len(),
            is_queue_order(items@, o),
            o == order@.map_values(|i: usize| i as int),
            forced_count == count_forced(items@, o, k as int),
            forced_count <= k,
    {
        assert(o[k as int] == order@[k as int] as int && 0 <= o[k as int] < items@.len());
        if items[order[k]].forced {
            forced_count = forced_count + 1;
        }
    }
    let slots: i64 = max_active as i64 - (#[verifier::truncate] (forced_count as u32)) as i64;
    let mut slot: Vec<bool> = Vec::new();
    let mut unforced_seen: usize = 0;
    for k in 0..n
        invariant
            n == order@.len(),
            n == o.len(),
            is_queue_order(items@, o),
            o == order@.map_values(|i: usize| i as int),
            slots == free_slots(items@, o, max_active),
            slot@.len() == k,
            forall|j: int| 0 <= j < k ==> slot@[j] == gets_slot(items@, o, max_active, j),
            unforced_seen == count_unforced(items@, o, k as int),
            unforced_seen <= k,
    {
        assert(o[k as int] == order@[k as int] as int && 0 <= o[k as int] < items@.len());
        if items[order[k]].forced {
            slot.push(true);
        } else {
            let r = max_active == 0 || (slots > 0 && unforced_seen < slots as usize);
            slot.push(r);
            unforced_seen = unforced_seen + 1;
        }
    }
    let mut to_start: Vec<String> = Vec::new();
    let mut to_pause: Vec<String> = Vec::new();
    for k in 0..n
        invariant
            n == order@.len(),
            n == o.len(),
            n == slot@.len(),
            is_queue_order(items@, o),
            o == order@.map_values(|i: usize| i as int),
            forall|j: int| 0 <= j < n ==> slot@[j] == gets_slot(items@, o, max_active, j),
            to_start.deep_view() == start_list(items@, o, max_active, k as int),
            to_pause.deep_view() == pause_list(items@, o, max_active, k as int),
    {
        assert(o[k as int] == order@[k as int] as int && 0 <= o[k as int] < items@.len());
        let it = &items[order[k]];
        let mut wants = false;
        let mut l: usize = 0;
        while l < n
            invariant
                n == order@.len(),
                n == o.len(),
                n == slot@.len(),
                k < n,
                l <= n,
                is_queue_order(items@, o),
                o == order@.map_values(|i: usize| i as int),
                *it == items@[o[k as int]],
                forall|j: int| 0 <= j < n ==> slot@[j] == gets_slot(items@, o, max_active, j),
                wants == exists|m: int|
                    0 <= m < l && #[trigger] gets_slot(items@, o, max_active, m) && hash_at(items@, o, m)
                        == hash_at(items@, o, k as int),
            decreases n - l,
        {
            assert(o[l as int] == order@[l as int] as int && 0 <= o[l as int] < items@.len());
            if slot[l] && items[order[l]].infohash == it.infohash {
                wants = true;
            }
            l = l + 1;
        }
        let ghost prev_start = to_start.deep_view();
        let ghost prev_pause = to_pause.deep_view();
        if wants && !it.running_now {
            to_start.push(it.infohash.clone());
            assert(to_start.deep_view() =~= prev_start.push(hash_at(items@, o, k as int)));
        } else if !wants && it.running_now {
            to_pause.push(it.infohash.clone());
            assert(to_pause.deep_view() =~= prev_pause.push(hash_at(items@, o, k as int)));
        }
    }
    QueuePlan { to_start, to_pause }
}

} // verus!
