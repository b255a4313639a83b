//! The per-frame sample queue of a timeline, held in an
//! `indexmap::IndexMap` keyed by [`ActionKey`].

use core::cmp::Ordering;

use hashbrown::DefaultHashBuilder;
use indexmap::IndexMap;
use vstd::prelude::*;

use crate::action::{ActionKey, KeyView};
use crate::time::Duration;
use crate::timeline::QueuedSample;

verus! {

/// The map that a list of pairs with distinct keys describes.
pub open spec fn pairs_map<K, V>(s: Seq<(K, V)>) -> Map<K, V>
    decreases s.len(),
{
    if s.len() == 0 {
        Map::empty()
    } else {
        pairs_map(s.drop_last()).insert(s.last().0, s.last().1)
    }
}

/// No key occurs twice among the pairs.
pub open spec fn pairs_keys_distinct<K, V>(s: Seq<(K, V)>) -> bool {
    forall|i: int, j: int| 0 <= i < j < s.len() ==> s[i].0 != s[j].0
}

/// How far a sample's keyframe lies from the playhead at `target`.
pub open spec fn distance(target: nat, sample: QueuedSample) -> nat {
    if target >= sample.keyframe@ {
        (target - sample.keyframe@) as nat
    } else {
        (sample.keyframe@ - target) as nat
    }
}

/// The samples are ordered farthest from `target` first.
pub open spec fn farthest_first(items: Seq<(KeyView, QueuedSample)>, target: nat) -> bool {
    forall|i: int, j: int|
        0 <= i < j < items.len() ==> distance(target, items[i].1) >= distance(target, items[j].1)
}

/// Queued samples by key, in queue order.
#[verifier::external_body]
pub struct SampleQueue {
    inner: IndexMap<ActionKey, QueuedSample, DefaultHashBuilder>,
}

/// The entries of a [`SampleQueue`], in queue order.
pub uninterp spec fn queue_items(queue: SampleQueue) -> Seq<(KeyView, QueuedSample)>;

/// Calls `IndexMap::default`: an empty queue.
#[verifier::external_body]
pub(crate) fn queue_new() -> (r: SampleQueue)
    ensures
        queue_items(r).len() == 0,
{
    SampleQueue { inner: IndexMap::default() }
}

/// Calls `IndexMap::clear`: the queue is empty.
#[verifier::external_body]
pub(crate) fn queue_clear(queue: &mut SampleQueue)
    ensures
        queue_items(*final(queue)).len() == 0,
{
    queue.inner.clear()
}

/// Calls `IndexMap::insert`: `key` now maps to `sample`, taking the
/// place of its earlier entry if any, else appended; keys stay
/// distinct.
#[verifier::external_body]
pub(crate) fn queue_insert(queue: &mut SampleQueue, key: ActionKey, sample: QueuedSample) -> (r: Option<QueuedSample>)
    ensures
        pairs_keys_distinct(queue_items(*final(queue))),
        pairs_map(queue_items(*final(queue))) == pairs_map(queue_items(*old(queue))).insert(
            key@,
            sample,
        ),
        r is Some <==> pairs_map(queue_items(*old(queue))).contains_key(key@),
{
    queue.inner.insert(key, sample)
}

/// Orders two samples farthest from the playhead at `target` first.
pub(crate) fn farther_first(target: Duration, a: &QueuedSample, b: &QueuedSample) -> (r: Ordering)
    ensures
        (r == Ordering::Less) == (distance(target@, *a) > distance(target@, *b)),
        (r == Ordering::Equal) == (distance(target@, *a) == distance(target@, *b)),
        (r == Ordering::Greater) == (distance(target@, *a) < distance(target@, *b)),
{
    let da = target.abs_diff(a.keyframe);
    let db = target.abs_diff(b.keyframe);
    if db.lt(&da) {
        Ordering::Less
    } else if da.lt(&db) {
        Ordering::Greater
    } else {
        Ordering::Equal
    }
}

/// Calls `IndexMap::sort_unstable_by` with [`farther_first`]: the same
/// entries, now farthest from `target` first; equally far entries in
/// no particular order.
#[verifier::external_body]
pub(crate) fn queue_sort_by_distance(queue: &mut SampleQueue, target: Duration)
    ensures
        queue_items(*final(queue)).to_multiset() == queue_items(*old(queue)).to_multiset(),
        farthest_first(queue_items(*final(queue)), target@),
{
    queue.inner.sort_unstable_by(|_, a, _, b| farther_first(target, a, b))
}

/// Calls `IndexMap::iter` and copies the entries out, in queue order.
#[verifier::external_body]
pub(crate) fn queue_entries(queue: &SampleQueue) -> (r: Vec<(ActionKey, QueuedSample)>)
    ensures
        r@.map_values(|e: (ActionKey, QueuedSample)| (e.0@, e.1)) == queue_items(*queue),
{
    queue.inner.iter().map(|(k, v)| (*k, *v)).collect()
}

/// Each pair of a key-distinct list is found under its key, and every
/// key of the map comes from some pair.
pub proof fn lemma_pairs_index<K, V>(s: Seq<(K, V)>)
    requires
        pairs_keys_distinct(s),
    ensures
        forall|idx: int|
            0 <= idx < s.len() ==> #[trigger] pairs_map(s).contains_key(s[idx].0) && pairs_map(s)[s[idx].0]
                == s[idx].1,
        forall|k: K|
            #[trigger] pairs_map(s).contains_key(k) ==> exists|idx: int| 0 <= idx < s.len() && #[trigger] s[idx].0 == k,
    decreases s.len(),
{
    if s.len() > 0 {
        let dl = s.drop_last();
        assert(pairs_keys_distinct(dl));
        lemma_pairs_index(dl);
        assert forall|idx: int| 0 <= idx < s.len() implies #[trigger] pairs_map(s).contains_key(s[idx].0)
            && pairs_map(s)[s[idx].0] == s[idx].1 by {
            assert(pairs_map(s) == pairs_map(dl).insert(s.last().0, s.last().1));
            if idx < s.len() - 1 {
                assert(dl[idx] == s[idx]);
                assert(s[idx].0 != s.last().0);
                assert(pairs_map(dl).contains_key(dl[idx].0));
            }
        }
        assert forall|k: K| #[trigger] pairs_map(s).contains_key(k) implies exists|idx: int|
            0 <= idx < s.len() && #[trigger] s[idx].0 == k by {
            if k == s.last().0 {
                assert(s[s.len() - 1].0 == k);
            } else {
                assert(pairs_map(dl).contains_key(k));
                let idx = choose|idx: int| 0 <= idx < dl.len() && #[trigger] dl[idx].0 == k;
                assert(s[idx].0 == k);
            }
        }
    }
}

/// Rearranging a key-distinct list of pairs keeps the keys distinct and
/// the map the same.
pub(crate) proof fn lemma_permuted_pairs<K, V>(s1: Seq<(K, V)>, s2: Seq<(K, V)>)
    requires
        s1.to_multiset() == s2.to_multiset(),
        pairs_keys_distinct(s1),
    ensures
        pairs_keys_distinct(s2),
        pairs_map(s2) == pairs_map(s1),
{
    broadcast use vstd::seq_lib::group_to_multiset_ensures;

    assert(s1.len() == s1.to_multiset().len());
    assert(s2.len() == s2.to_multiset().len());
    assert forall|i: int| #![trigger s2[i]] 0 <= i < s2.len() implies exists|j: int|
        #![trigger s1[j]]
        0 <= j < s1.len() && s1[j] == s2[i] by {
        assert(s2.contains(s2[i]));
        assert(s1.to_multiset().count(s2[i]) > 0);
        assert(s1.contains(s2[i]));
    }
    assert forall|j: int| #![trigger s1[j]] 0 <= j < s1.len() implies exists|i: int|
        #![trigger s2[i]]
        0 <= i < s2.len() && s2[i] == s1[j] by {
        assert(s1.contains(s1[j]));
        assert(s2.to_multiset().count(s1[j]) > 0);
        assert(s2.contains(s1[j]));
    }
    assert forall|a: int, b: int| 0 <= a < b < s2.len() implies s2[a].0 != s2[b].0 by {
        let ja = choose|j: int| 0 <= j < s1.len() && #[trigger] s1[j] == s2[a];
        let jb = choose|j: int| 0 <= j < s1.len() && #[trigger] s1[j] == s2[b];
        if ja == jb {
            assert(s2.remove(a).contains(s2[b])) by {
                assert(s2.remove(a)[b - 1] == s2[b]);
            }
            assert(s2.remove(a).to_multiset() =~= s2.to_multiset().remove(s2[a]));
            assert(s2[a] == s2[b]);
            assert(s2.remove(a).to_multiset().count(s2[a]) > 0);
            assert(s2.to_multiset().count(s2[a]) >= 2);
            assert(s1.to_multiset().count(s1[ja]) >= 2);
            let rest = s1.remove(ja);
            assert(rest.to_multiset() =~= s1.to_multiset().remove(s1[ja]));
            assert(rest.to_multiset().count(s1[ja]) >= 1);
            assert(rest.contains(s1[ja]));
            let jc = choose|j: int| 0 <= j < rest.len() && rest[j] == s1[ja];
            let jd = if jc < ja { jc } else { jc + 1 };
            assert(s1[jd] == s1[ja]);
            assert(false);
        } else if ja > jb {
            assert(s1[jb].0 != s1[ja].0);
        }
    }
    lemma_pairs_index(s1);
    lemma_pairs_index(s2);
    let m1 = pairs_map(s1);
    let m2 = pairs_map(s2);
    assert forall|k: K| #[trigger] m1.contains_key(k) == m2.contains_key(k) by {
        if m1.contains_key(k) {
            let j = choose|idx: int| 0 <= idx < s1.len() && #[trigger] s1[idx].0 == k;
            let i = choose|i: int| 0 <= i < s2.len() && #[trigger] s2[i] == s1[j];
            assert(m2.contains_key(s2[i].0));
        }
        if m2.contains_key(k) {
            let i = choose|idx: int| 0 <= idx < s2.len() && #[trigger] s2[idx].0 == k;
            let j = choose|j: int| 0 <= j < s1.len() && #[trigger] s1[j] == s2[i];
            assert(m1.contains_key(s1[j].0));
        }
    }
    assert forall|k: K| #[trigger] m1.contains_key(k) implies m1[k] == m2[k] by {
        let j = choose|idx: int| 0 <= idx < s1.len() && #[trigger] s1[idx].0 == k;
        let i = choose|i: int| 0 <= i < s2.len() && #[trigger] s2[i] == s1[j];
        assert(m1.contains_key(s1[j].0));
        assert(m2.contains_key(s2[i].0));
    }
    assert(m1 =~= m2);
}

} // verus!
