//! The collections of outside crates that the CDCL search uses: an ordered
//! map as its unit queue (`indexmap`), a priority queue for VSIDS
//! (`priority-queue`) and small sets of indices (`tinyset`).
use vstd::prelude::*;
use indexmap::IndexMap;
use priority_queue::PriorityQueue;
use rustc_hash::FxBuildHasher;
use tinyset::SetUsize;

verus! {

/// The hasher of `rustc-hash`.
#[verifier::external_type_specification]
#[verifier::external_body]
pub struct ExFxBuildHasher(FxBuildHasher);

/// The ordered map of `indexmap`.
#[verifier::external_type_specification]
#[verifier::external_body]
#[verifier::reject_recursive_types(K)]
#[verifier::reject_recursive_types(V)]
#[verifier::reject_recursive_types(S)]
pub struct ExIndexMap<K, V, S>(IndexMap<K, V, S>);

/// The priority queue of `priority-queue`.
#[verifier::external_type_specification]
#[verifier::external_body]
#[verifier::reject_recursive_types(I)]
#[verifier::reject_recursive_types(P)]
#[verifier::reject_recursive_types(H)]
pub struct ExPriorityQueue<I, P, H>(PriorityQueue<I, P, H>);

/// The set of `tinyset`.
#[verifier::external_type_specification]
#[verifier::external_body]
pub struct ExSetUsize(SetUsize);

/// The unit queue of the search: variable -> (sign, reason clause).
pub type UnitQueue = IndexMap<usize, (bool, usize), FxBuildHasher>;

/// The priority queue of VSIDS: literal index -> score.
pub type ScoreQueue = PriorityQueue<usize, usize, FxBuildHasher>;

/// A literal index with its score.
pub type ScorePair = (usize, usize);

/// A queue entry: a variable with its sign and reason clause.
pub type QueueEntry = (usize, (bool, usize));

// ---------------------------------------------------------------------------
// The unit queue: variable -> (sign, reason clause), in insertion order.
// ---------------------------------------------------------------------------

/// The entries of the unit queue in their order.
pub uninterp spec fn queue_entries(q: UnitQueue) -> Seq<QueueEntry>;

/// Some entry has this key.
pub open spec fn has_key(s: Seq<QueueEntry>, k: usize) -> bool {
    exists|i: int| 0 <= i < s.len() && (#[trigger] s[i]).0 == k
}

/// No key occurs twice.
pub open spec fn keys_distinct(s: Seq<QueueEntry>) -> bool {
    forall|a: int, b: int| 0 <= a < b < s.len() ==> (#[trigger] s[a]).0 != (#[trigger] s[b]).0
}

/// `IndexMap::with_capacity_and_hasher`. Claimed: no entry.
#[verifier::external_body]
pub fn queue_new(capacity: usize) -> (r: UnitQueue)
    ensures
        queue_entries(r) == Seq::<(usize, (bool, usize))>::empty(),
{
    IndexMap::with_capacity_and_hasher(capacity, FxBuildHasher::default())
}

/// `IndexMap::insert`. Claimed, as the crate documents: an existing key keeps
/// its place and takes the new value, the old value is returned; a new key is
/// appended last and `None` is returned.
#[verifier::external_body]
pub fn queue_insert(q: &mut UnitQueue, key: usize, value: (bool, usize)) -> (r: Option<(bool, usize)>)
    ensures
        has_key(queue_entries(*old(q)), key) ==> exists|i: int| 0 <= i < queue_entries(*old(q)).len()
            && (#[trigger] queue_entries(*old(q))[i]).0 == key
            && r == Some(queue_entries(*old(q))[i].1)
            && queue_entries(*final(q)) == queue_entries(*old(q)).update(i, (key, value)),
        !has_key(queue_entries(*old(q)), key) ==> r is None
            && queue_entries(*final(q)) == queue_entries(*old(q)).push((key, value)),
        keys_distinct(queue_entries(*old(q))) ==> keys_distinct(queue_entries(*final(q))),
{
    q.insert(key, value)
}

/// `IndexMap::pop`. Claimed: removes and returns the last entry.
#[verifier::external_body]
pub fn queue_pop(q: &mut UnitQueue) -> (r: Option<QueueEntry>)
    ensures
        queue_entries(*old(q)).len() == 0 ==> r is None && queue_entries(*final(q)) == queue_entries(*old(q)),
        queue_entries(*old(q)).len() > 0 ==> r == Some(queue_entries(*old(q)).last())
            && queue_entries(*final(q)) == queue_entries(*old(q)).drop_last(),
{
    q.pop()
}

/// `IndexMap::clear`. Claimed: no entry is left.
#[verifier::external_body]
pub fn queue_clear(q: &mut UnitQueue)
    ensures
        queue_entries(*final(q)) == Seq::<(usize, (bool, usize))>::empty(),
{
    q.clear()
}

// ---------------------------------------------------------------------------
// The priority queue of VSIDS: literal index -> score.
// ---------------------------------------------------------------------------

/// The items of the priority queue with their priorities.
pub uninterp spec fn pq_entries(q: ScoreQueue) -> Map<usize, usize>;

/// No item occurs twice.
pub open spec fn items_distinct(s: Seq<ScorePair>) -> bool {
    forall|a: int, b: int| 0 <= a < b < s.len() ==> (#[trigger] s[a]).0 != (#[trigger] s[b]).0
}

/// No element occurs twice.
pub open spec fn elements_distinct(s: Seq<usize>) -> bool {
    forall|a: int, b: int| 0 <= a < b < s.len() ==> s[a] != s[b]
}

/// The map holds exactly the items of the pairs, with their priorities.
pub open spec fn map_of_pairs(m: Map<usize, usize>, s: Seq<ScorePair>) -> bool {
    &&& forall|k: usize| #[trigger] m.contains_key(k) <==> exists|i: int| 0 <= i < s.len() && (#[trigger] s[i]).0 == k
    &&& forall|i: int| 0 <= i < s.len() ==> m[(#[trigger] s[i]).0] == s[i].1
}

/// `PriorityQueue::from_iter` on pairs with distinct items. Claimed: exactly
/// those items with those priorities.
#[verifier::external_body]
pub fn pq_from_pairs(pairs: Vec<ScorePair>) -> (r: ScoreQueue)
    requires
        items_distinct(pairs@),
    ensures
        pq_entries(r).dom().finite(),
        map_of_pairs(pq_entries(r), pairs@),
{
    pairs.into_iter().collect()
}

/// `PriorityQueue::into_iter`, collected. Claimed: each item once, with its priority.
#[verifier::external_body]
pub fn pq_into_pairs(q: ScoreQueue) -> (r: Vec<ScorePair>)
    ensures
        items_distinct(r@),
        map_of_pairs(pq_entries(q), r@),
{
    q.into_iter().collect()
}

/// `PriorityQueue::push`. Claimed: the item takes the priority; its old
/// priority, if it was present, is returned.
#[verifier::external_body]
pub fn pq_push(q: &mut ScoreQueue, item: usize, priority: usize) -> (r: Option<usize>)
    ensures
        pq_entries(*final(q)) == pq_entries(*old(q)).insert(item, priority),
        r == if pq_entries(*old(q)).contains_key(item) { Some(pq_entries(*old(q))[item]) } else { None },
        pq_entries(*old(q)).dom().finite() ==> pq_entries(*final(q)).dom().finite(),
{
    q.push(item, priority)
}

/// `PriorityQueue::pop`. Claimed: removes and returns an item of greatest
/// priority, `None` when empty; a queue holds finitely many items. Which of
/// several items of equal priority is not stated.
#[verifier::external_body]
pub fn pq_pop(q: &mut ScoreQueue) -> (r: Option<ScorePair>)
    ensures
        match r {
            None => pq_entries(*old(q)).dom().len() == 0 && pq_entries(*final(q)) == pq_entries(*old(q)),
            Some((item, p)) => pq_entries(*old(q)).contains_key(item) && pq_entries(*old(q))[item] == p
                && (forall|k: usize| #[trigger] pq_entries(*old(q)).contains_key(k) ==> pq_entries(*old(q))[k] <= p)
                && pq_entries(*final(q)) == pq_entries(*old(q)).remove(item),
        },
        pq_entries(*old(q)).dom().finite(),
        pq_entries(*final(q)).dom().finite(),
{
    q.pop()
}

// ---------------------------------------------------------------------------
// Sets of indices.
// ---------------------------------------------------------------------------

/// The elements of the set.
pub uninterp spec fn set_elements(s: SetUsize) -> Set<usize>;

/// `SetUsize::new`. Claimed: empty.
#[verifier::external_body]
pub fn set_new() -> (r: SetUsize)
    ensures
        set_elements(r) == Set::<usize>::empty(),
{
    SetUsize::new()
}

/// `SetUsize::insert`. Claimed: the element is in the set afterwards;
/// `true` when it was not before.
#[verifier::external_body]
pub fn set_insert(s: &mut SetUsize, e: usize) -> (r: bool)
    ensures
        set_elements(*final(s)) == set_elements(*old(s)).insert(e),
        r == !set_elements(*old(s)).contains(e),
{
    s.insert(e)
}

/// `SetUsize::contains`. Claimed: membership.
#[verifier::external_body]
pub fn set_contains(s: &SetUsize, e: usize) -> (r: bool)
    ensures
        r == set_elements(*s).contains(e),
{
    s.contains(e)
}

/// `SetUsize::into_iter`, collected. Claimed: each element once.
#[verifier::external_body]
pub fn set_into_vec(s: SetUsize) -> (r: Vec<usize>)
    ensures
        elements_distinct(r@),
        forall|e: usize| #[trigger] r@.contains(e) <==> set_elements(s).contains(e),
{
    s.into_iter().collect()
}

} // verus!
