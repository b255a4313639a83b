//! Track fragments and their combinators (`chain`, `all`, `any`,
//! `flow`, `delay`), and the compiled, playback-ready [`Track`].

use core::any::TypeId;

use hashbrown::HashMap;
use vstd::prelude::*;

use crate::action::{ActionClip, ActionKey, FieldKey, KeyView};
use crate::conflict::{report_valid, resolve_conflicts, resolved_lanes, FieldConflict};
use crate::sequence::{delayed_clip, Sequence};
use nonempty::NonEmpty;
use crate::time::{max_nanos, nat_max, nat_min, sat_add, Duration};

verus! {

/// The sequences of a fragment keyed by [`ActionKey`], held in a
/// `hashbrown::HashMap`.
#[verifier::external_body]
pub struct LaneMap {
    inner: HashMap<ActionKey, Sequence>,
}

/// The clips of every lane of a [`LaneMap`], keyed by the key's view.
pub uninterp spec fn lane_items(map: LaneMap) -> Map<KeyView, Seq<ActionClip>>;

/// Calls `hashbrown::HashMap::new`: a map with no lanes.
#[verifier::external_body]
fn lanes_new() -> (r: LaneMap)
    ensures
        lane_items(r) =~= Map::empty(),
{
    LaneMap { inner: HashMap::new() }
}

/// Calls `hashbrown::HashMap::insert`: `key` now maps to `sequence`;
/// the sequence it held before, if any, is returned.
#[verifier::external_body]
fn lanes_insert(map: &mut LaneMap, key: ActionKey, sequence: Sequence) -> (r: Option<Sequence>)
    ensures
        lane_items(*final(map)) == lane_items(*old(map)).insert(key@, sequence@),
        r is Some <==> lane_items(*old(map)).contains_key(key@),
        r matches Some(s) ==> s@ == lane_items(*old(map))[key@],
{
    map.inner.insert(key, sequence)
}

/// Calls `hashbrown::HashMap::remove`: takes out the lane of `key`, if
/// any.
#[verifier::external_body]
fn lanes_remove(map: &mut LaneMap, key: &ActionKey) -> (r: Option<Sequence>)
    ensures
        lane_items(*final(map)) == lane_items(*old(map)).remove(key@),
        r is Some <==> lane_items(*old(map)).contains_key(key@),
        r matches Some(s) ==> s@ == lane_items(*old(map))[key@],
{
    map.inner.remove(key)
}

/// Calls `hashbrown::HashMap::len`.
#[verifier::external_body]
fn lanes_len(map: &LaneMap) -> (r: usize)
    ensures
        r == lane_items(*map).len(),
{
    map.inner.len()
}

/// Calls `hashbrown::HashMap::get` and copies the lane's clips.
#[verifier::external_body]
fn lanes_get(map: &LaneMap, key: &ActionKey) -> (r: Option<Vec<ActionClip>>)
    ensures
        r is Some <==> lane_items(*map).contains_key(key@),
        r matches Some(v) ==> v@ == lane_items(*map)[key@],
{
    map.inner.get(key).map(|s| s.clips.iter().copied().collect())
}

/// Calls `<hashbrown::HashMap as IntoIterator>::into_iter` and collects
/// the lanes into a `Vec`. The order is the map's iteration order, left
/// open here; each key occurs once and the entries hold exactly the
/// map's lanes.
#[verifier::external_body]
fn lanes_into_entries(map: LaneMap) -> (r: Vec<(ActionKey, Sequence)>)
    ensures
        entries_keys_distinct(entry_views(r@)),
        lanes_of_entries(entry_views(r@)) == lane_items(map),
{
    map.inner.into_iter().collect()
}

/// The views of `(key, sequence)` entries.
pub open spec fn entry_views(es: Seq<(ActionKey, Sequence)>) -> Seq<(KeyView, Seq<ActionClip>)> {
    es.map_values(|e: (ActionKey, Sequence)| (e.0@, e.1@))
}

/// No key occurs twice among the entries.
pub open spec fn entries_keys_distinct(es: Seq<(KeyView, Seq<ActionClip>)>) -> bool {
    forall|i: int, j: int| 0 <= i < j < es.len() ==> es[i].0 != es[j].0
}

/// The lanes that a list of entries with distinct keys holds.
pub open spec fn lanes_of_entries(es: Seq<(KeyView, Seq<ActionClip>)>) -> Map<KeyView, Seq<ActionClip>>
    decreases es.len(),
{
    if es.len() == 0 {
        Map::empty()
    } else {
        lanes_of_entries(es.drop_last()).insert(es.last().0, es.last().1)
    }
}

/// Every clip of `clips` moved later by `delay`.
pub open spec fn delayed_clips(clips: Seq<ActionClip>, delay: nat) -> Seq<ActionClip> {
    clips.map_values(|c: ActionClip| delayed_clip(c, delay))
}

/// The lanes of `base` with the lanes of `other`, delayed by `delay`,
/// appended under the same keys; keys only in `other` start new lanes.
pub open spec fn merge_lanes(
    base: Map<KeyView, Seq<ActionClip>>,
    other: Map<KeyView, Seq<ActionClip>>,
    delay: nat,
) -> Map<KeyView, Seq<ActionClip>> {
    Map::new(
        |k: KeyView| base.contains_key(k) || other.contains_key(k),
        |k: KeyView|
            if other.contains_key(k) {
                (if base.contains_key(k) { base[k] } else { Seq::empty() }) + delayed_clips(
                    other[k],
                    delay,
                )
            } else {
                base[k]
            },
    )
}

/// A fragment of a track: the sequences of clips per [`ActionKey`] and
/// the span of time the fragment occupies.
pub struct TrackFragment {
    sequences: LaneMap,
    duration: Duration,
}

impl Default for TrackFragment {
    fn default() -> (r: Self)
        ensures
            r.lanes() =~= Map::empty(),
            r.spec_duration() == 0,
    {
        Self::new()
    }
}

impl TrackFragment {
    /// The clips of each lane, keyed by the key's view.
    pub closed spec fn lanes(self) -> Map<KeyView, Seq<ActionClip>> {
        lane_items(self.sequences)
    }

    /// The span of time the fragment occupies, in nanoseconds.
    pub closed spec fn spec_duration(self) -> nat {
        self.duration@
    }

    /// An empty fragment of zero duration.
    pub fn new() -> (r: Self)
        ensures
            r.lanes() =~= Map::empty(),
            r.spec_duration() == 0,
    {
        Self { sequences: lanes_new(), duration: Duration::zero() }
    }

    /// A fragment holding one clip under `key`, spanning the clip's
    /// duration.
    pub fn single(key: ActionKey, clip: ActionClip) -> (r: Self)
        ensures
            r.lanes() =~= map![key@ => seq![clip]],
            r.spec_duration() == clip.duration@,
    {
        let mut sequences = lanes_new();
        let _ = lanes_insert(&mut sequences, key, Sequence::new(clip));
        Self { sequences, duration: clip.duration }
    }

    /// A fragment with no clips of its own, reserving `duration` of
    /// time - for a slot in the tree nothing resolves into an action
    /// yet.
    pub fn silent(duration: Duration) -> (r: Self)
        ensures
            r.lanes() =~= Map::empty(),
            r.spec_duration() == duration@,
    {
        Self { sequences: lanes_new(), duration }
    }

    /// The span of time the fragment occupies.
    pub fn duration(&self) -> (r: Duration)
        ensures
            r@ == self.spec_duration(),
    {
        self.duration
    }

    /// Overrides the span of time the fragment occupies.
    pub fn set_duration(&mut self, duration: Duration)
        ensures
            final(self).lanes() == old(self).lanes(),
            final(self).spec_duration() == duration@,
    {
        self.duration = duration;
    }

    /// The number of lanes.
    pub fn len(&self) -> (r: usize)
        ensures
            r == self.lanes().len(),
    {
        lanes_len(&self.sequences)
    }

    /// The clips held under `key`, if any.
    pub fn sequence(&self, key: &ActionKey) -> (r: Option<Vec<ActionClip>>)
        ensures
            r is Some <==> self.lanes().contains_key(key@),
            r matches Some(v) ==> v@ == self.lanes()[key@],
    {
        lanes_get(&self.sequences, key)
    }

    /// Updates or inserts a [`Sequence`] in a track.
    ///
    /// If the [`ActionKey`] already exists, this method appends the
    /// clips of the `new_sequence` to the existing sequence.
    /// If the [`ActionKey`] does not exist, a new entry is created
    /// for the `new_sequence`.
    pub fn upsert_sequence(self, key: ActionKey, new_sequence: Sequence) -> (r: Self)
        ensures
            r.lanes() == self.lanes().insert(
                key@,
                if self.lanes().contains_key(key@) {
                    self.lanes()[key@] + new_sequence@
                } else {
                    new_sequence@
                },
            ),
            r.spec_duration() == self.spec_duration(),
    {
        let mut this = self;
        match lanes_remove(&mut this.sequences, &key) {
            Some(mut sequence) => {
                sequence.extend(new_sequence);
                let _ = lanes_insert(&mut this.sequences, key, sequence);
            },
            None => {
                let _ = lanes_insert(&mut this.sequences, key, new_sequence);
            },
        }
        proof {
            assert(lane_items(this.sequences) =~= self.lanes().insert(
                key@,
                if self.lanes().contains_key(key@) {
                    self.lanes()[key@] + new_sequence@
                } else {
                    new_sequence@
                },
            ));
        }
        this
    }

    /// Takes out every lane as `(key, sequence)` entries, in no
    /// particular order, each key once.
    fn into_entries(self) -> (r: Vec<(ActionKey, Sequence)>)
        ensures
            entries_keys_distinct(entry_views(r@)),
            lanes_of_entries(entry_views(r@)) == self.lanes(),
    {
        lanes_into_entries(self.sequences)
    }

    /// Appends every entry's clips, delayed by `delay`, under its key.
    fn absorb(self, entries: Vec<(ActionKey, Sequence)>, delay: Duration) -> (r: Self)
        requires
            entries_keys_distinct(entry_views(entries@)),
        ensures
            r.lanes() == merge_lanes(self.lanes(), lanes_of_entries(entry_views(entries@)), delay@),
            r.spec_duration() == self.spec_duration(),
    {
        let ghost es = entry_views(entries@);
        let ghost base = self.lanes();
        let mut track = self;
        let mut entries = entries;
        let n = entries.len();
        let mut j: usize = 0;
        proof {
            assert(es.take(0) =~= Seq::<(KeyView, Seq<ActionClip>)>::empty());
            assert(merge_lanes(base, lanes_of_entries(es.take(0)), delay@) =~= base);
        }
        while j < n
            invariant
                n == es.len(),
                0 <= j <= n,
                entries_keys_distinct(es),
                entries@.len() == n - j,
                entry_views(entries@) == es.subrange(j as int, n as int),
                track.lanes() == merge_lanes(base, lanes_of_entries(es.take(j as int)), delay@),
                track.spec_duration() == self.spec_duration(),
            decreases n - j,
        {
            let ghost before = entries@;
            let (key, mut sequence) = entries.remove(0);
            proof {
                assert(entry_views(before)[0] == es[j as int]);
                assert forall|i: int| 0 <= i < entries@.len() implies entry_views(entries@)[i]
                    == es.subrange(j + 1, n as int)[i] by {
                    assert(entries@[i] == before[i + 1]);
                    assert(entry_views(before)[i + 1] == es[j + 1 + i]);
                }
                assert(entry_views(entries@) =~= es.subrange(j + 1, n as int));
            }
            let ghost clips = sequence@;
            sequence.delay(delay);
            proof {
                assert(sequence@ =~= delayed_clips(clips, delay@));
            }
            track = track.upsert_sequence(key, sequence);
            proof {
                lemma_merge_step(base, es, j as int, delay@);
            }
            j = j + 1;
        }
        proof {
            assert(es.take(n as int) =~= es);
        }
        track
    }
}

/// The view of a fragment: its lanes and its duration.
pub type FragView = (Map<KeyView, Seq<ActionClip>>, nat);

/// The views of a list of fragments.
pub open spec fn frag_views(tracks: Seq<TrackFragment>) -> Seq<FragView> {
    tracks.map_values(|f: TrackFragment| (f.lanes(), f.spec_duration()))
}

/// The durations of a list of fragments.
pub open spec fn frag_durations(frags: Seq<FragView>) -> Seq<nat> {
    frags.map_values(|f: FragView| f.1)
}

/// The saturating sum of `durs`.
pub open spec fn sat_sum(durs: Seq<nat>) -> nat
    decreases durs.len(),
{
    if durs.len() == 0 {
        0
    } else {
        sat_add(sat_sum(durs.drop_last()), durs.last())
    }
}

/// The largest of `durs`, or zero.
pub open spec fn max_of(durs: Seq<nat>) -> nat
    decreases durs.len(),
{
    if durs.len() == 0 {
        0
    } else {
        nat_max(max_of(durs.drop_last()), durs.last())
    }
}

/// The smallest of `durs`, or zero when there are none.
pub open spec fn min_of(durs: Seq<nat>) -> nat
    decreases durs.len(),
{
    if durs.len() == 0 {
        0
    } else if durs.len() == 1 {
        durs[0]
    } else {
        nat_min(min_of(durs.drop_last()), durs.last())
    }
}

/// The lanes of `frags` laid over each other: the first fragment as it
/// is, each later fragment `i` delayed by `offsets(i)`.
pub open spec fn composed_lanes(frags: Seq<FragView>, offsets: spec_fn(int) -> nat) -> Map<
    KeyView,
    Seq<ActionClip>,
>
    decreases frags.len(),
{
    if frags.len() == 0 {
        Map::empty()
    } else if frags.len() == 1 {
        frags[0].0
    } else {
        merge_lanes(
            composed_lanes(frags.drop_last(), offsets),
            frags.last().0,
            offsets(frags.len() - 1),
        )
    }
}

/// In a chain, fragment `i` starts once all before it have run.
pub open spec fn chain_offset(frags: Seq<FragView>, i: int) -> nat {
    sat_sum(frag_durations(frags.take(i)))
}

/// In a flow, fragment `i` starts `i` delays after the first,
/// saturating.
pub open spec fn flow_offset(delay: nat, i: int) -> nat
    decreases i,
{
    if i <= 0 {
        0
    } else {
        sat_add(flow_offset(delay, i - 1), delay)
    }
}

/// The span of a flow: the latest end among its fragments, each
/// fragment ending its own duration after its offset.
pub open spec fn flow_duration(frags: Seq<FragView>, delay: nat) -> nat
    decreases frags.len(),
{
    if frags.len() == 0 {
        0
    } else if frags.len() == 1 {
        frags[0].1
    } else {
        nat_max(
            flow_duration(frags.drop_last(), delay),
            sat_add(flow_offset(delay, frags.len() - 1), frags.last().1),
        )
    }
}

/// Taking one more fragment merges it in at its offset.
proof fn lemma_composed_step(frags: Seq<FragView>, offsets: spec_fn(int) -> nat, k: int)
    requires
        1 <= k < frags.len(),
    ensures
        composed_lanes(frags.take(k + 1), offsets) == merge_lanes(
            composed_lanes(frags.take(k), offsets),
            frags[k].0,
            offsets(k),
        ),
{
    assert(frags.take(k + 1).drop_last() =~= frags.take(k));
}

/// A prefix of the durations grows by one entry at a time.
proof fn lemma_durations_step(frags: Seq<FragView>, k: int)
    requires
        0 <= k < frags.len(),
    ensures
        frag_durations(frags.take(k + 1)).drop_last() == frag_durations(frags.take(k)),
        frag_durations(frags.take(k + 1)).last() == frags[k].1,
        frag_durations(frags.take(k + 1)).len() == k + 1,
{
    assert(frag_durations(frags.take(k + 1)).drop_last() =~= frag_durations(frags.take(k)));
}

/// Runs all fragments one after another.
pub fn chain(tracks: Vec<TrackFragment>) -> (r: TrackFragment)
    ensures
        r.lanes() == composed_lanes(
            frag_views(tracks@),
            |i: int| chain_offset(frag_views(tracks@), i),
        ),
        r.spec_duration() == sat_sum(frag_durations(frag_views(tracks@))),
{
    let ghost frags = frag_views(tracks@);
    let ghost offsets = |i: int| chain_offset(frags, i);
    let n = tracks.len();
    if n == 0 {
        proof {
            assert(frag_durations(frags) =~= Seq::<nat>::empty());
        }
        return TrackFragment::new();
    }
    let mut rest = tracks;
    let mut track = rest.remove(0);
    let mut chain_duration = track.duration();
    chain_duration.bounded();
    proof {
        lemma_durations_step(frags, 0);
        assert(frags.take(1)[0] == frags[0]);
        assert(frags[0].1 == track.spec_duration());
        assert(frag_durations(frags.take(0)).len() == 0);
        assert(sat_sum(frag_durations(frags.take(0))) == 0);
        assert(sat_sum(frag_durations(frags.take(1))) == sat_add(
            sat_sum(frag_durations(frags.take(1)).drop_last()),
            frag_durations(frags.take(1)).last(),
        ));
        assert(sat_sum(frag_durations(frags.take(1))) == sat_add(0, frags[0].1));
        assert(frag_views(rest@) =~= frags.subrange(1, n as int));
    }
    let mut k: usize = 1;
    while k < n
        invariant
            frags == frag_views(tracks@),
            n == frags.len(),
            1 <= k <= n,
            rest@.len() == n - k,
            frag_views(rest@) == frags.subrange(k as int, n as int),
            track.lanes() == composed_lanes(frags.take(k as int), offsets),
            chain_duration@ == sat_sum(frag_durations(frags.take(k as int))),
            offsets == (|i: int| chain_offset(frags, i)),
        decreases n - k,
    {
        let ghost before = rest@;
        let other = rest.remove(0);
        proof {
            assert(frag_views(before)[0] == frags[k as int]);
            assert forall|i: int| 0 <= i < rest@.len() implies frag_views(rest@)[i]
                == frags.subrange(k + 1, n as int)[i] by {
                assert(rest@[i] == before[i + 1]);
                assert(frag_views(before)[i + 1] == frags[k + 1 + i]);
            }
            assert(frag_views(rest@) =~= frags.subrange(k + 1, n as int));
        }
        let other_duration = other.duration();
        let entries = other.into_entries();
        track = track.absorb(entries, chain_duration);
        chain_duration = chain_duration.saturating_add(other_duration);
        proof {
            lemma_composed_step(frags, offsets, k as int);
            lemma_durations_step(frags, k as int);
        }
        k = k + 1;
    }
    proof {
        assert(frags.take(n as int) =~= frags);
    }
    track.set_duration(chain_duration);
    track
}

/// The views of the remaining fragments after taking the first one.
proof fn lemma_rest_step(
    frags: Seq<FragView>,
    before: Seq<TrackFragment>,
    after: Seq<TrackFragment>,
    k: int,
    n: int,
)
    requires
        0 <= k < n,
        n == frags.len(),
        frag_views(before) == frags.subrange(k, n),
        before.len() == n - k,
        after == before.subrange(1, before.len() as int),
    ensures
        frag_views(before)[0] == frags[k],
        frag_views(after) == frags.subrange(k + 1, n),
        after.len() == n - k - 1,
{
    assert(frag_views(before)[0] == frags.subrange(k, n)[0]);
    assert forall|i: int| 0 <= i < after.len() implies frag_views(after)[i] == frags.subrange(
        k + 1,
        n,
    )[i] by {
        assert(after[i] == before[i + 1]);
        assert(frag_views(before)[i + 1] == frags.subrange(k, n)[i + 1]);
    }
    assert(frag_views(after) =~= frags.subrange(k + 1, n));
}

/// Runs all fragments concurrently and waits for all of them to
/// finish.
pub fn all(tracks: Vec<TrackFragment>) -> (r: TrackFragment)
    ensures
        r.lanes() == composed_lanes(frag_views(tracks@), |i: int| 0nat),
        r.spec_duration() == max_of(frag_durations(frag_views(tracks@))),
{
    let ghost frags = frag_views(tracks@);
    let ghost offsets = |i: int| 0nat;
    let n = tracks.len();
    if n == 0 {
        proof {
            assert(frag_durations(frags) =~= Seq::<nat>::empty());
        }
        return TrackFragment::new();
    }
    let mut rest = tracks;
    let mut track = rest.remove(0);
    let mut max_duration = track.duration();
    proof {
        lemma_durations_step(frags, 0);
        assert(frags[0].1 == track.spec_duration());
        assert(max_of(frag_durations(frags.take(0))) == 0);
        assert(max_of(frag_durations(frags.take(1))) == nat_max(
            max_of(frag_durations(frags.take(1)).drop_last()),
            frag_durations(frags.take(1)).last(),
        ));
        assert(frag_views(rest@) =~= frags.subrange(1, n as int));
    }
    let mut k: usize = 1;
    while k < n
        invariant
            frags == frag_views(tracks@),
            n == frags.len(),
            1 <= k <= n,
            rest@.len() == n - k,
            frag_views(rest@) == frags.subrange(k as int, n as int),
            track.lanes() == composed_lanes(frags.take(k as int), offsets),
            max_duration@ == max_of(frag_durations(frags.take(k as int))),
            offsets == (|i: int| 0nat),
        decreases n - k,
    {
        let ghost before = rest@;
        let other = rest.remove(0);
        proof {
            lemma_rest_step(frags, before, rest@, k as int, n as int);
        }
        max_duration = max_duration.max(other.duration());
        let entries = other.into_entries();
        track = track.absorb(entries, Duration::zero());
        proof {
            lemma_composed_step(frags, offsets, k as int);
            lemma_durations_step(frags, k as int);
        }
        k = k + 1;
    }
    proof {
        assert(frags.take(n as int) =~= frags);
    }
    track.set_duration(max_duration);
    track
}

/// Runs all fragments concurrently and waits for any of them to
/// finish.
pub fn any(tracks: Vec<TrackFragment>) -> (r: TrackFragment)
    ensures
        r.lanes() == composed_lanes(frag_views(tracks@), |i: int| 0nat),
        r.spec_duration() == min_of(frag_durations(frag_views(tracks@))),
{
    let ghost frags = frag_views(tracks@);
    let ghost offsets = |i: int| 0nat;
    let n = tracks.len();
    if n == 0 {
        proof {
            assert(frag_durations(frags) =~= Seq::<nat>::empty());
        }
        return TrackFragment::new();
    }
    let mut rest = tracks;
    let mut track = rest.remove(0);
    let mut min_duration = track.duration();
    proof {
        lemma_durations_step(frags, 0);
        assert(frags[0].1 == track.spec_duration());
        assert(frag_durations(frags.take(1)).len() == 1);
        assert(frag_views(rest@) =~= frags.subrange(1, n as int));
    }
    let mut k: usize = 1;
    while k < n
        invariant
            frags == frag_views(tracks@),
            n == frags.len(),
            1 <= k <= n,
            rest@.len() == n - k,
            frag_views(rest@) == frags.subrange(k as int, n as int),
            track.lanes() == composed_lanes(frags.take(k as int), offsets),
            min_duration@ == min_of(frag_durations(frags.take(k as int))),
            offsets == (|i: int| 0nat),
        decreases n - k,
    {
        let ghost before = rest@;
        let other = rest.remove(0);
        proof {
            lemma_rest_step(frags, before, rest@, k as int, n as int);
        }
        min_duration = min_duration.min(other.duration());
        let entries = other.into_entries();
        track = track.absorb(entries, Duration::zero());
        proof {
            lemma_composed_step(frags, offsets, k as int);
            lemma_durations_step(frags, k as int);
        }
        k = k + 1;
    }
    proof {
        assert(frags.take(n as int) =~= frags);
    }
    track.set_duration(min_duration);
    track
}

/// Runs one fragment after another, each starting a fixed `delay`
/// after the one before it.
pub fn flow(delay: Duration, tracks: Vec<TrackFragment>) -> (r: TrackFragment)
    ensures
        r.lanes() == composed_lanes(frag_views(tracks@), |i: int| flow_offset(delay@, i)),
        r.spec_duration() == flow_duration(frag_views(tracks@), delay@),
{
    let ghost frags = frag_views(tracks@);
    let ghost offsets = |i: int| flow_offset(delay@, i);
    let n = tracks.len();
    if n == 0 {
        return TrackFragment::new();
    }
    let mut rest = tracks;
    let mut track = rest.remove(0);
    let mut flow_delay = Duration::zero();
    let mut final_duration = track.duration();
    proof {
        assert(frags[0].1 == track.spec_duration());
        assert(frags.take(1).len() == 1);
        assert(frags.take(1)[0] == frags[0]);
        assert(frag_views(rest@) =~= frags.subrange(1, n as int));
    }
    let mut k: usize = 1;
    while k < n
        invariant
            frags == frag_views(tracks@),
            n == frags.len(),
            1 <= k <= n,
            rest@.len() == n - k,
            frag_views(rest@) == frags.subrange(k as int, n as int),
            track.lanes() == composed_lanes(frags.take(k as int), offsets),
            flow_delay@ == flow_offset(delay@, k - 1),
            final_duration@ == flow_duration(frags.take(k as int), delay@),
            offsets == (|i: int| flow_offset(delay@, i)),
        decreases n - k,
    {
        let ghost before = rest@;
        let other = rest.remove(0);
        proof {
            lemma_rest_step(frags, before, rest@, k as int, n as int);
        }
        flow_delay = flow_delay.saturating_add(delay);
        final_duration = flow_delay.saturating_add(other.duration()).max(final_duration);
        let entries = other.into_entries();
        track = track.absorb(entries, flow_delay);
        proof {
            lemma_composed_step(frags, offsets, k as int);
            assert(frags.take(k + 1).drop_last() =~= frags.take(k as int));
        }
        k = k + 1;
    }
    proof {
        assert(frags.take(n as int) =~= frags);
    }
    track.set_duration(final_duration);
    track
}

/// Runs a fragment after a fixed delay: every clip moves later by
/// `delay`, and the fragment's span grows by it.
pub fn delay(amount: Duration, track: TrackFragment) -> (r: TrackFragment)
    ensures
        r.lanes() == track.lanes().map_values(|clips: Seq<ActionClip>| delayed_clips(clips, amount@)),
        r.spec_duration() == sat_add(track.spec_duration(), amount@),
{
    let duration = track.duration();
    let ghost lanes = track.lanes();
    let entries = track.into_entries();
    let mut delayed = TrackFragment::new().absorb(entries, amount);
    proof {
        assert(delayed.lanes() =~= lanes.map_values(
            |clips: Seq<ActionClip>| delayed_clips(clips, amount@),
        ));
    }
    delayed.set_duration(duration.saturating_add(amount));
    delayed
}

/// The span of [`all`] is that of its longest fragment: at least each
/// fragment's duration and equal to one of them, zero for no fragment.
pub proof fn lemma_all_lasts_as_long_as_the_longest(frags: Seq<FragView>)
    ensures
        forall|i: int| 0 <= i < frags.len() ==> max_of(frag_durations(frags)) >= #[trigger] frags[i].1,
        frags.len() == 0 ==> max_of(frag_durations(frags)) == 0,
        frags.len() > 0 ==> exists|i: int|
            0 <= i < frags.len() && max_of(frag_durations(frags)) == #[trigger] frags[i].1,
    decreases frags.len(),
{
    if frags.len() > 0 {
        let dl = frags.drop_last();
        lemma_all_lasts_as_long_as_the_longest(dl);
        assert(frag_durations(dl) =~= frag_durations(frags).drop_last());
        assert(frag_durations(frags).last() == frags.last().1);
        assert forall|i: int| 0 <= i < frags.len() implies max_of(frag_durations(frags)) >= #[trigger] frags[i].1 by {
            if i < frags.len() - 1 {
                assert(dl[i] == frags[i]);
            }
        }
        if max_of(frag_durations(frags)) == frags.last().1 {
            assert(frags[frags.len() - 1] == frags.last());
        } else {
            let i = choose|i: int| 0 <= i < dl.len() && max_of(frag_durations(dl)) == #[trigger] dl[i].1;
            assert(dl[i] == frags[i]);
        }
    }
}

/// The span of [`any`] is that of its shortest fragment: at most each
/// fragment's duration and equal to one of them, zero for no fragment.
pub proof fn lemma_any_lasts_as_long_as_the_shortest(frags: Seq<FragView>)
    ensures
        forall|i: int| 0 <= i < frags.len() ==> min_of(frag_durations(frags)) <= #[trigger] frags[i].1,
        frags.len() == 0 ==> min_of(frag_durations(frags)) == 0,
        frags.len() > 0 ==> exists|i: int|
            0 <= i < frags.len() && min_of(frag_durations(frags)) == #[trigger] frags[i].1,
    decreases frags.len(),
{
    if frags.len() > 0 {
        let dl = frags.drop_last();
        lemma_any_lasts_as_long_as_the_shortest(dl);
        assert(frag_durations(dl) =~= frag_durations(frags).drop_last());
        assert(frag_durations(frags).last() == frags.last().1);
        assert(frags[frags.len() - 1] == frags.last());
        if frags.len() == 1 {
            assert(frag_durations(frags)[0] == frags[0].1);
        } else {
            assert forall|i: int| 0 <= i < frags.len() implies min_of(frag_durations(frags)) <= #[trigger] frags[i].1 by {
                if i < frags.len() - 1 {
                    assert(dl[i] == frags[i]);
                }
            }
            if min_of(frag_durations(frags)) != frags.last().1 {
                let i = choose|i: int| 0 <= i < dl.len() && min_of(frag_durations(dl)) == #[trigger] dl[i].1;
                assert(dl[i] == frags[i]);
            }
        }
    }
}

/// In a flow, fragment `i` starts `i` delays after the first, saturating
/// at the largest duration.
pub proof fn lemma_flow_starts_each_a_delay_later(delay: nat, i: int)
    requires
        i >= 0,
    ensures
        flow_offset(delay, i) == nat_min((i * delay) as nat, max_nanos()),
    decreases i,
{
    if i > 0 {
        lemma_flow_starts_each_a_delay_later(delay, i - 1);
        let a: int = (i - 1) * delay;
        assert(i * delay == a + delay) by (nonlinear_arith)
            requires
                a == (i - 1) * delay,
        ;
        assert(a >= 0) by (nonlinear_arith)
            requires
                i >= 1,
                a == (i - 1) * delay,
        ;
        assert(flow_offset(delay, i - 1) == nat_min(a as nat, max_nanos()));
        assert(flow_offset(delay, i) == sat_add(flow_offset(delay, i - 1), delay));
        assert((i * delay) as nat == (a + delay) as nat);
        if a <= max_nanos() {
            assert(flow_offset(delay, i - 1) == a);
        } else {
            assert(flow_offset(delay, i - 1) == max_nanos());
            assert(a + delay > max_nanos());
        }
    } else {
        assert(i == 0);
        assert(i * delay == 0);
    }
}

/// A flow lasts until its last fragment to end has ended: at least each
/// fragment's start (`i` delays, saturating) plus its duration, and equal
/// to one of these ends.
pub proof fn lemma_flow_lasts_until_the_last_end(frags: Seq<FragView>, delay: nat)
    requires
        frags.len() >= 1,
        forall|i: int| 0 <= i < frags.len() ==> #[trigger] frags[i].1 <= max_nanos(),
    ensures
        forall|i: int|
            0 <= i < frags.len() ==> flow_duration(frags, delay) >= sat_add(
                nat_min((i * delay) as nat, max_nanos()),
                #[trigger] frags[i].1,
            ),
        exists|i: int|
            0 <= i < frags.len() && flow_duration(frags, delay) == sat_add(
                nat_min((i * delay) as nat, max_nanos()),
                #[trigger] frags[i].1,
            ),
    decreases frags.len(),
{
    let n = frags.len() as int;
    lemma_flow_starts_each_a_delay_later(delay, n - 1);
    lemma_flow_starts_each_a_delay_later(delay, 0);
    assert(0 * delay == 0);
    assert(frags[n - 1] == frags.last());
    if n == 1 {
        assert(sat_add(nat_min((0 * delay) as nat, max_nanos()), frags[0].1) == frags[0].1);
    } else {
        let dl = frags.drop_last();
        assert forall|i: int| 0 <= i < dl.len() implies #[trigger] dl[i].1 <= max_nanos() by {
            assert(dl[i] == frags[i]);
        }
        lemma_flow_lasts_until_the_last_end(dl, delay);
        assert forall|i: int| 0 <= i < frags.len() implies flow_duration(frags, delay) >= sat_add(
            nat_min((i * delay) as nat, max_nanos()),
            #[trigger] frags[i].1,
        ) by {
            if i < n - 1 {
                assert(dl[i] == frags[i]);
            }
        }
        if flow_duration(frags, delay) != sat_add(
            nat_min(((n - 1) * delay) as nat, max_nanos()),
            frags[n - 1].1,
        ) {
            let i = choose|i: int|
                0 <= i < dl.len() && flow_duration(dl, delay) == sat_add(
                    nat_min((i * delay) as nat, max_nanos()),
                    #[trigger] dl[i].1,
                );
            assert(dl[i] == frags[i]);
        }
    }
}

/// Saturating addition regroups freely.
proof fn lemma_sat_add_assoc(x: nat, b: nat, a: nat)
    ensures
        sat_add(sat_add(x, b), a) == sat_add(x, sat_add(b, a)),
{
}

/// Delaying a fragment twice is delaying it once by the saturating sum
/// of the two delays: the same lanes and the same span.
pub proof fn lemma_delay_twice(lanes: Map<KeyView, Seq<ActionClip>>, duration: nat, b: nat, a: nat)
    ensures
        lanes.map_values(|clips: Seq<ActionClip>| delayed_clips(clips, b)).map_values(
            |clips: Seq<ActionClip>| delayed_clips(clips, a),
        ) == lanes.map_values(|clips: Seq<ActionClip>| delayed_clips(clips, sat_add(b, a))),
        sat_add(sat_add(duration, b), a) == sat_add(duration, sat_add(b, a)),
{
    let once = lanes.map_values(|clips: Seq<ActionClip>| delayed_clips(clips, b));
    let twice = once.map_values(|clips: Seq<ActionClip>| delayed_clips(clips, a));
    let sum = lanes.map_values(|clips: Seq<ActionClip>| delayed_clips(clips, sat_add(b, a)));
    assert forall|k: KeyView| #[trigger] twice.contains_key(k) implies twice[k] == sum[k] by {
        let c = lanes[k];
        assert forall|i: int| 0 <= i < c.len() implies #[trigger] twice[k][i] == sum[k][i] by {
            lemma_sat_add_assoc(c[i].start@, b, a);
            Duration::lemma_from_nanos_view(sat_add(c[i].start@, b));
        }
        assert(twice[k] =~= sum[k]);
    }
    assert(twice =~= sum);
    lemma_sat_add_assoc(duration, b, a);
}

/// With no delay, a flow offsets no fragment.
proof fn lemma_flow_offset_zero(i: int)
    ensures
        flow_offset(0, i) == 0,
    decreases i,
{
    if i > 0 {
        lemma_flow_offset_zero(i - 1);
    }
}

/// The span of a flow with no delay is the longest fragment's.
proof fn lemma_flow_duration_zero(frags: Seq<FragView>)
    requires
        forall|i: int| 0 <= i < frags.len() ==> #[trigger] frags[i].1 <= max_nanos(),
    ensures
        flow_duration(frags, 0) == max_of(frag_durations(frags)),
    decreases frags.len(),
{
    if frags.len() > 0 {
        let durs = frag_durations(frags);
        assert forall|i: int| 0 <= i < frags.drop_last().len() implies #[trigger] frags.drop_last()[i].1
            <= max_nanos() by {
            assert(frags.drop_last()[i] == frags[i]);
        }
        lemma_flow_duration_zero(frags.drop_last());
        lemma_flow_offset_zero(frags.len() - 1);
        assert(frag_durations(frags.drop_last()) =~= durs.drop_last());
        assert(durs.last() == frags.last().1);
        assert(frags.last() == frags[frags.len() - 1]);
        if frags.len() == 1 {
            assert(durs.drop_last() =~= Seq::<nat>::empty());
            assert(frags[0] == frags.last());
        }
    }
}

/// A flow with no delay runs its fragments all at once: the same lanes
/// and the same span as [`all`].
pub proof fn lemma_flow_without_delay_is_all(frags: Seq<FragView>)
    requires
        forall|i: int| 0 <= i < frags.len() ==> #[trigger] frags[i].1 <= max_nanos(),
    ensures
        composed_lanes(frags, |i: int| flow_offset(0, i)) == composed_lanes(frags, |i: int| 0nat),
        flow_duration(frags, 0) == max_of(frag_durations(frags)),
{
    assert forall|i: int| #[trigger] flow_offset(0, i) == 0nat by {
        lemma_flow_offset_zero(i);
    }
    assert((|i: int| flow_offset(0, i)) =~= (|i: int| 0nat));
    lemma_flow_duration_zero(frags);
}

/// Composes fragments; implemented for lists of fragments.
pub trait TrackOrdering: Sized {
    /// Runs all fragments one after another.
    fn ord_chain(self) -> TrackFragment;

    /// Runs all fragments concurrently; waits for all of them.
    fn ord_all(self) -> TrackFragment;

    /// Runs all fragments concurrently; waits for any of them.
    fn ord_any(self) -> TrackFragment;

    /// Runs one fragment after another with a fixed delay.
    fn ord_flow(self, delay: Duration) -> TrackFragment;
}

impl TrackOrdering for Vec<TrackFragment> {
    fn ord_chain(self) -> (r: TrackFragment)
        ensures
            r.lanes() == composed_lanes(
                frag_views(self@),
                |i: int| chain_offset(frag_views(self@), i),
            ),
            r.spec_duration() == sat_sum(frag_durations(frag_views(self@))),
    {
        chain(self)
    }

    fn ord_all(self) -> (r: TrackFragment)
        ensures
            r.lanes() == composed_lanes(frag_views(self@), |i: int| 0nat),
            r.spec_duration() == max_of(frag_durations(frag_views(self@))),
    {
        all(self)
    }

    fn ord_any(self) -> (r: TrackFragment)
        ensures
            r.lanes() == composed_lanes(frag_views(self@), |i: int| 0nat),
            r.spec_duration() == min_of(frag_durations(frag_views(self@))),
    {
        any(self)
    }

    fn ord_flow(self, delay: Duration) -> (r: TrackFragment)
        ensures
            r.lanes() == composed_lanes(frag_views(self@), |i: int| flow_offset(delay@, i)),
            r.spec_duration() == flow_duration(frag_views(self@), delay@),
    {
        flow(delay, self)
    }
}

/// Adding the next entry to the lanes merged so far upserts its
/// delayed clips.
proof fn lemma_merge_step(
    base: Map<KeyView, Seq<ActionClip>>,
    es: Seq<(KeyView, Seq<ActionClip>)>,
    j: int,
    delay: nat,
)
    requires
        0 <= j < es.len(),
        entries_keys_distinct(es),
    ensures
        ({
            let cur = merge_lanes(base, lanes_of_entries(es.take(j)), delay);
            let k = es[j].0;
            merge_lanes(base, lanes_of_entries(es.take(j + 1)), delay) == cur.insert(
                k,
                if cur.contains_key(k) {
                    cur[k] + delayed_clips(es[j].1, delay)
                } else {
                    delayed_clips(es[j].1, delay)
                },
            )
        }),
{
    let prev = lanes_of_entries(es.take(j));
    let k = es[j].0;
    assert(es.take(j + 1).drop_last() =~= es.take(j));
    lemma_entries_keys_absent(es.take(j), k);
    assert(!prev.contains_key(k));
    let cur = merge_lanes(base, prev, delay);
    let next = merge_lanes(base, lanes_of_entries(es.take(j + 1)), delay);
    let want = cur.insert(
        k,
        if cur.contains_key(k) {
            cur[k] + delayed_clips(es[j].1, delay)
        } else {
            delayed_clips(es[j].1, delay)
        },
    );
    assert(next =~= want);
}

/// A key is among the lanes of some entries only if some entry has it.
pub(crate) proof fn lemma_entries_keys_absent(es: Seq<(KeyView, Seq<ActionClip>)>, k: KeyView)
    requires
        forall|i: int| 0 <= i < es.len() ==> es[i].0 != k,
    ensures
        !lanes_of_entries(es).contains_key(k),
    decreases es.len(),
{
    if es.len() > 0 {
        lemma_entries_keys_absent(es.drop_last(), k);
    }
}

/// A run of entries: `len` entries starting at `offset`.
#[derive(Debug, Clone, Copy, PartialEq, Eq, Structural)]
pub struct Span {
    pub offset: usize,
    pub len: usize,
}

/// `spans` cover `0..total` in order, back to back, each non-empty.
pub open spec fn spans_tile(spans: Seq<Span>, total: nat) -> bool {
    &&& forall|i: int| 0 <= i < spans.len() ==> #[trigger] spans[i].len >= 1
    &&& forall|i: int| 0 <= i < spans.len() ==> #[trigger] spans[i].offset + spans[i].len <= total
    &&& spans.len() > 0 ==> spans[0].offset == 0
    &&& forall|i: int|
        0 < i < spans.len() ==> #[trigger] spans[i].offset == spans[i - 1].offset + spans[i
            - 1].len
    &&& spans.len() == 0 ==> total == 0
    &&& spans.len() > 0 ==> spans.last().offset + spans.last().len == total
}

/// The clips of a [`Span`] of `arena`.
pub open spec fn span_clips(arena: Seq<ActionClip>, span: Span) -> Seq<ActionClip> {
    arena.subrange(span.offset as int, span.offset + span.len)
}

/// Tiles come in order: an earlier tile ends before a later one starts.
proof fn lemma_tile_ordered(tiles: Seq<Span>, total: nat, g: int, h: int)
    requires
        spans_tile(tiles, total),
        0 <= g < h < tiles.len(),
    ensures
        tiles[g].offset + tiles[g].len <= tiles[h].offset,
    decreases h - g,
{
    if h > g + 1 {
        lemma_tile_ordered(tiles, total, g, h - 1);
    }
}

/// Every index below the total lies in one of the tiles, the returned
/// one.
proof fn lemma_tile_covers(tiles: Seq<Span>, total: nat, i: int) -> (h: int)
    requires
        spans_tile(tiles, total),
        0 <= i < total,
    ensures
        0 <= h < tiles.len(),
        tiles[h].offset <= i < tiles[h].offset + tiles[h].len,
    decreases tiles.len(),
{
    let n = tiles.len() as int;
    if i >= tiles[n - 1].offset {
        n - 1
    } else {
        let t = tiles.drop_last();
        let sub = tiles[n - 1].offset as nat;
        assert forall|g: int| 0 <= g < t.len() implies #[trigger] t[g].offset + t[g].len <= sub by {
            lemma_tile_ordered(tiles, total, g, n - 1);
        }
        assert(spans_tile(t, sub));
        lemma_tile_covers(t, sub, i)
    }
}

/// `a` plays no later than `b` in bake order: by start time, then id.
pub open spec fn bake_le(a: ActionClip, b: ActionClip) -> bool {
    a.start@ < b.start@ || (a.start@ == b.start@ && a.id@ <= b.id@)
}

/// Entries whose keys name the same field stand next to each other.
pub open spec fn fields_contiguous(keys: Seq<KeyView>) -> bool {
    forall|i: int, j: int, k: int|
        #![trigger keys[i], keys[j], keys[k]]
        0 <= i < j < k < keys.len() && keys[i].1 == keys[k].1 ==> keys[j].1 == keys[i].1
}

/// `a` comes no later than `b` in the lexicographic order of bytes.
pub open spec fn bytes_le(a: Seq<u8>, b: Seq<u8>) -> bool
    decreases a.len(),
{
    if a.len() == 0 {
        true
    } else if b.len() == 0 {
        false
    } else if a[0] != b[0] {
        a[0] < b[0]
    } else {
        bytes_le(a.drop_first(), b.drop_first())
    }
}

/// Two fields have the same source and target types.
pub open spec fn same_types(a: (TypeId, TypeId, Seq<char>), b: (TypeId, TypeId, Seq<char>)) -> bool {
    a.0 == b.0 && a.1 == b.1
}

/// Among entries whose fields have the same source and target types,
/// the paths come in the byte order of their UTF-8 text.
pub open spec fn paths_ordered(keys: Seq<KeyView>) -> bool {
    forall|i: int, j: int|
        #![trigger keys[i], keys[j]]
        0 <= i < j < keys.len() && same_types(keys[i].1, keys[j].1) ==> bytes_le(
            vstd::utf8::encode_utf8(keys[i].1.2),
            vstd::utf8::encode_utf8(keys[j].1.2),
        )
}

/// Calls `slice::sort_by_key` on the entries, keyed by the key's field.
///
/// States that the entries are rearranged and, the result being sorted
/// by the field's derived order (source type, then target type, then
/// path, a path comparing by its bytes), that entries of one field end
/// up next to each other and that fields of the same types come in the
/// byte order of their paths. Which types come first is not stated:
/// the order of `TypeId`s is not modelled.
#[verifier::external_body]
fn sort_entries_by_field(entries: &mut Vec<(ActionKey, Sequence)>)
    ensures
        final(entries)@.to_multiset() == old(entries)@.to_multiset(),
        fields_contiguous(final(entries)@.map_values(|e: (ActionKey, Sequence)| e.0@)),
        paths_ordered(final(entries)@.map_values(|e: (ActionKey, Sequence)| e.0@)),
{
    entries.sort_by_key(|e| *e.0.field())
}

/// Rearranging a key-distinct list of entries keeps the lanes.
#[verifier::spinoff_prover]
proof fn lemma_permuted_entries(es1: Seq<(ActionKey, Sequence)>, es2: Seq<(ActionKey, Sequence)>)
    requires
        es1.to_multiset() == es2.to_multiset(),
        entries_keys_distinct(entry_views(es1)),
    ensures
        entries_keys_distinct(entry_views(es2)),
        lanes_of_entries(entry_views(es2)) == lanes_of_entries(entry_views(es1)),
{
    broadcast use vstd::seq_lib::group_to_multiset_ensures;

    let v1 = entry_views(es1);
    let v2 = entry_views(es2);
    assert(es1.len() == es1.to_multiset().len());
    assert(es2.len() == es2.to_multiset().len());
    assert forall|i: int| #![trigger es2[i]] 0 <= i < es2.len() implies exists|j: int|
        #![trigger es1[j]]
        0 <= j < es1.len() && es1[j] == es2[i] by {
        assert(es2.contains(es2[i]));
        assert(es1.to_multiset().count(es2[i]) > 0);
        assert(es1.contains(es2[i]));
    }
    assert forall|j: int| #![trigger es1[j]] 0 <= j < es1.len() implies exists|i: int|
        #![trigger es2[i]]
        0 <= i < es2.len() && es2[i] == es1[j] by {
        assert(es1.contains(es1[j]));
        assert(es2.to_multiset().count(es1[j]) > 0);
        assert(es2.contains(es1[j]));
    }
    assert forall|a: int, b: int| 0 <= a < b < v2.len() implies v2[a].0 != v2[b].0 by {
        let ja = choose|j: int| 0 <= j < es1.len() && #[trigger] es1[j] == es2[a];
        let jb = choose|j: int| 0 <= j < es1.len() && #[trigger] es1[j] == es2[b];
        if ja == jb {
            // `es2[a] == es2[b]` occurs twice in `es2`, so twice in `es1`.
            assert(es2.remove(a).contains(es2[b])) by {
                assert(es2.remove(a)[b - 1] == es2[b]);
            }
            assert(es2.remove(a).to_multiset() =~= es2.to_multiset().remove(es2[a]));
            assert(es2[a] == es2[b]);
            assert(es2.remove(a).to_multiset().count(es2[a]) > 0);
            assert(es2.to_multiset().count(es2[a]) >= 2);
            assert(es1.to_multiset().count(es1[ja]) >= 2);
            let rest = es1.remove(ja);
            assert(rest.to_multiset() =~= es1.to_multiset().remove(es1[ja]));
            assert(rest.to_multiset().count(es1[ja]) >= 1);
            assert(rest.contains(es1[ja]));
            let jc = choose|j: int| 0 <= j < rest.len() && rest[j] == es1[ja];
            let jd = if jc < ja { jc } else { jc + 1 };
            assert(es1[jd] == es1[ja]);
            assert(v1[jd].0 == v1[ja].0);
            assert(false);
        } else {
            assert(v1[ja].0 != v1[jb].0 || ja > jb);
            if ja > jb {
                assert(v1[jb].0 != v1[ja].0);
            }
        }
    }
    crate::conflict::lemma_entries_index(v1);
    crate::conflict::lemma_entries_index(v2);
    let l1 = lanes_of_entries(v1);
    let l2 = lanes_of_entries(v2);
    assert forall|k: KeyView| #[trigger] l1.contains_key(k) == l2.contains_key(k) by {
        if l1.contains_key(k) {
            let j = choose|idx: int| 0 <= idx < v1.len() && #[trigger] v1[idx].0 == k;
            let i = choose|i: int| 0 <= i < es2.len() && #[trigger] es2[i] == es1[j];
            assert(v2[i].0 == k);
            assert(l2.contains_key(v2[i].0));
        }
        if l2.contains_key(k) {
            let i = choose|idx: int| 0 <= idx < v2.len() && #[trigger] v2[idx].0 == k;
            let j = choose|j: int| 0 <= j < es1.len() && #[trigger] es1[j] == es2[i];
            assert(v1[j].0 == k);
            assert(l1.contains_key(v1[j].0));
        }
    }
    assert forall|k: KeyView| #[trigger] l1.contains_key(k) implies l1[k] == l2[k] by {
        let j = choose|idx: int| 0 <= idx < v1.len() && #[trigger] v1[idx].0 == k;
        let i = choose|i: int| 0 <= i < es2.len() && #[trigger] es2[i] == es1[j];
        assert(l1.contains_key(v1[j].0));
        assert(l2.contains_key(v2[i].0));
    }
    assert(l1 =~= l2);
}

/// A compiled, immutable layout of a fragment's clips, optimized for
/// playback and queries.
///
/// Clips are stored in one flat array, grouped by [`ActionKey`];
/// spans give each key's clips and each field's keys.
#[derive(Debug)]
pub struct Track {
    /// Each field with the [`Span`] of its entries in
    /// `sequence_spans`.
    field_lookups: Vec<(FieldKey, Span)>,
    /// Each [`ActionKey`] with the [`Span`] of its clips in
    /// `clip_arena`.
    sequence_spans: Vec<(ActionKey, Span)>,
    /// Contiguous storage of all action clips.
    clip_arena: Vec<ActionClip>,
    /// `clip_arena` indices in start-time order, ties by `ActionId`.
    bake_order: Vec<usize>,
    /// Clips this track dropped to resolve overlapping actions on
    /// aliasing field paths.
    conflicts: Vec<FieldConflict>,
    /// Total duration of the track, at least the end of every clip.
    duration: Duration,
}

/// A copy of a `Vec` of copyable items, item by item.
fn copy_items<T: Copy>(v: &Vec<T>) -> (r: Vec<T>)
    ensures
        r@ == v@,
{
    let mut out: Vec<T> = Vec::new();
    let mut i: usize = 0;
    while i < v.len()
        invariant
            0 <= i <= v@.len(),
            out@ == v@.take(i as int),
        decreases v@.len() - i,
    {
        out.push(v[i]);
        proof {
            assert(v@.take(i + 1) =~= v@.take(i as int).push(v@[i as int]));
        }
        i = i + 1;
    }
    proof {
        assert(v@.take(v@.len() as int) =~= v@);
    }
    out
}

impl Clone for Track {
    /// The same layout, clips, bake order, conflicts and duration.
    fn clone(&self) -> (r: Self)
        ensures
            r.spec_field_lookups() == self.spec_field_lookups(),
            r.spec_sequence_spans() == self.spec_sequence_spans(),
            r.spec_arena() == self.spec_arena(),
            r.spec_bake_order() == self.spec_bake_order(),
            r.spec_conflicts() == self.spec_conflicts(),
            r.spec_duration() == self.spec_duration(),
            r.wf(),
            r.spec_lanes() == self.spec_lanes(),
    {
        proof {
            use_type_invariant(self);
        }
        let r = Track {
            field_lookups: copy_items(&self.field_lookups),
            sequence_spans: copy_items(&self.sequence_spans),
            clip_arena: copy_items(&self.clip_arena),
            bake_order: copy_items(&self.bake_order),
            conflicts: copy_items(&self.conflicts),
            duration: self.duration,
        };
        proof {
            assert(r.spec_entries() =~= self.spec_entries());
        }
        r
    }
}

impl Track {
    /// Every track is well formed.
    #[verifier::type_invariant]
    pub(crate) open spec fn inv(self) -> bool {
        self.wf()
    }

    /// The keys with their spans, in layout order.
    pub closed spec fn spec_sequence_spans(self) -> Seq<(ActionKey, Span)> {
        self.sequence_spans@
    }

    /// The fields with their spans over `spec_sequence_spans`.
    pub closed spec fn spec_field_lookups(self) -> Seq<(FieldKey, Span)> {
        self.field_lookups@
    }

    /// All clips, grouped by key in layout order.
    pub closed spec fn spec_arena(self) -> Seq<ActionClip> {
        self.clip_arena@
    }

    /// Arena indices in bake order.
    pub closed spec fn spec_bake_order(self) -> Seq<usize> {
        self.bake_order@
    }

    pub closed spec fn spec_duration(self) -> nat {
        self.duration@
    }

    /// The clips dropped at compilation.
    pub closed spec fn spec_conflicts(self) -> Seq<FieldConflict> {
        self.conflicts@
    }

    /// Each key's view with its clips, in layout order.
    pub open spec fn spec_entries(self) -> Seq<(KeyView, Seq<ActionClip>)> {
        Seq::new(
            self.spec_sequence_spans().len(),
            |i: int|
                (
                    self.spec_sequence_spans()[i].0@,
                    span_clips(self.spec_arena(), self.spec_sequence_spans()[i].1),
                ),
        )
    }

    /// The clips of each key.
    pub open spec fn spec_lanes(self) -> Map<KeyView, Seq<ActionClip>> {
        lanes_of_entries(self.spec_entries())
    }

    /// The layout is consistent: the key spans tile the arena, the
    /// field spans tile the keys, each field group holds keys of that
    /// field and no two groups are of the same field, groups of fields
    /// of the same types come in the byte order of their paths, the bake order
    /// lists each clip once in start-then-id order, and the duration
    /// covers every clip.
    pub open spec fn wf(self) -> bool {
        let spans = self.spec_sequence_spans();
        let lookups = self.spec_field_lookups();
        let arena = self.spec_arena();
        let order = self.spec_bake_order();
        &&& spans_tile(spans.map_values(|e: (ActionKey, Span)| e.1), arena.len())
        &&& entries_keys_distinct(self.spec_entries())
        &&& spans_tile(lookups.map_values(|e: (FieldKey, Span)| e.1), spans.len())
        &&& forall|g: int, i: int|
            #![trigger lookups[g], spans[i]]
            0 <= g < lookups.len() && lookups[g].1.offset <= i < lookups[g].1.offset
                + lookups[g].1.len ==> spans[i].0@.1 == lookups[g].0@
        &&& forall|g: int, h: int| 0 <= g < h < lookups.len() ==> #[trigger] lookups[g].0@ != #[trigger] lookups[h].0@
        &&& forall|g: int, h: int|
            0 <= g < h < lookups.len() && same_types(#[trigger] lookups[g].0@, #[trigger] lookups[h].0@)
                ==> bytes_le(
                vstd::utf8::encode_utf8(lookups[g].0@.2),
                vstd::utf8::encode_utf8(lookups[h].0@.2),
            )
        &&& order.len() == arena.len()
        &&& forall|i: int| 0 <= i < order.len() ==> #[trigger] order[i] < arena.len()
        &&& forall|i: int, j: int| 0 <= i < j < order.len() ==> order[i] != order[j]
        &&& forall|i: int, j: int|
            0 <= i < j < order.len() ==> bake_le(arena[order[i] as int], arena[order[j] as int])
        &&& forall|i: int| 0 <= i < arena.len() ==> (#[trigger] arena[i]).spec_end() <= self.spec_duration()
    }

    /// The fields with the spans of their keys.
    pub fn field_lookups(&self) -> (r: &[(FieldKey, Span)])
        ensures
            r@ == self.spec_field_lookups(),
    {
        self.field_lookups.as_slice()
    }

    /// The keys with the spans of their clips.
    pub fn sequences_spans(&self) -> (r: &[(ActionKey, Span)])
        ensures
            r@ == self.spec_sequence_spans(),
    {
        self.sequence_spans.as_slice()
    }

    /// The clips of `span`.
    pub fn clips(&self, span: Span) -> (r: &[ActionClip])
        requires
            span.offset + span.len <= self.spec_arena().len(),
        ensures
            r@ == span_clips(self.spec_arena(), span),
    {
        let arena = self.clip_arena.as_slice();
        let n = self.clip_arena.len();
        assert(arena@.len() == n);
        vstd::slice::slice_subrange(arena, span.offset, span.offset + span.len)
    }

    /// Every clip in start-time order, ties broken by `ActionId`.
    pub fn bake_clips(&self) -> (r: Vec<ActionClip>)
        ensures
            r@.len() == self.spec_arena().len(),
            forall|i: int|
                0 <= i < r@.len() ==> #[trigger] r@[i] == self.spec_arena()[self.spec_bake_order()[i] as int],
    {
        proof {
            use_type_invariant(self);
        }
        let mut out: Vec<ActionClip> = Vec::new();
        let mut i: usize = 0;
        while i < self.bake_order.len()
            invariant
                self.wf(),
                0 <= i <= self.bake_order.len(),
                out@.len() == i,
                forall|k: int|
                    0 <= k < i ==> #[trigger] out@[k] == self.clip_arena@[self.bake_order@[k] as int],
            decreases self.bake_order.len() - i,
        {
            let idx = self.bake_order[i];
            assert(self.bake_order@[i as int] < self.clip_arena@.len());
            out.push(self.clip_arena[idx]);
            i = i + 1;
        }
        out
    }

    /// Clips this track dropped to resolve overlapping actions on
    /// aliasing field paths.
    pub fn conflicts(&self) -> (r: &[FieldConflict])
        ensures
            r@ == self.spec_conflicts(),
    {
        self.conflicts.as_slice()
    }

    /// Total duration of the track.
    pub fn duration(&self) -> (r: Duration)
        ensures
            r@ == self.spec_duration(),
    {
        self.duration
    }

    /// The keys of `field`, with the spans of their clips: those of the
    /// first field group equal to `field`.
    pub fn lookup_field_spans(&self, field: &FieldKey) -> (r: Option<&[(ActionKey, Span)]>)
        ensures
            match r {
                Some(spans) => exists|g: int|
                    0 <= g < self.spec_field_lookups().len() && #[trigger] self.spec_field_lookups()[g].0@
                        == field@ && spans@ == self.spec_sequence_spans().subrange(
                        self.spec_field_lookups()[g].1.offset as int,
                        self.spec_field_lookups()[g].1.offset + self.spec_field_lookups()[g].1.len,
                    ),
                None => {
                    &&& forall|g: int|
                        0 <= g < self.spec_field_lookups().len() ==> #[trigger] self.spec_field_lookups()[g].0@
                            != field@
                    &&& forall|i: int|
                        0 <= i < self.spec_sequence_spans().len() ==> #[trigger] self.spec_sequence_spans()[i].0@.1
                            != field@
                },
            },
    {
        proof {
            use_type_invariant(self);
        }
        let ghost lookups = self.field_lookups@.map_values(|e: (FieldKey, Span)| e.1);
        assert forall|h: int| 0 <= h < self.field_lookups@.len() implies #[trigger] self.field_lookups@[h].1.offset
            + self.field_lookups@[h].1.len <= self.sequence_spans@.len() by {
            assert(lookups[h] == self.field_lookups@[h].1);
        }
        let mut g: usize = 0;
        while g < self.field_lookups.len()
            invariant
                forall|h: int| 0 <= h < self.field_lookups@.len() ==> #[trigger] self.field_lookups@[h].1.offset
                    + self.field_lookups@[h].1.len <= self.sequence_spans@.len(),
                0 <= g <= self.field_lookups.len(),
                forall|h: int| 0 <= h < g ==> #[trigger] self.field_lookups@[h].0@ != field@,
            decreases self.field_lookups.len() - g,
        {
            let (f, span) = self.field_lookups[g];
            if f.same(field) {
                assert(self.field_lookups@[g as int] == (f, span));
                assert(self.spec_field_lookups()[g as int].0@ == field@);
                assert(span.offset + span.len <= self.sequence_spans.len());
                return Some(
                    vstd::slice::slice_subrange(
                        self.sequence_spans.as_slice(),
                        span.offset,
                        span.offset + span.len,
                    ),
                );
            }
            g = g + 1;
        }
        proof {
            assert forall|i: int| 0 <= i < self.spec_sequence_spans().len() implies #[trigger] self.spec_sequence_spans()[i].0@.1
                != field@ by {
                let h = lemma_tile_covers(lookups, self.sequence_spans@.len() as nat, i);
                assert(lookups[h] == self.field_lookups@[h].1);
                assert(self.sequence_spans@[i].0@.1 == self.field_lookups@[h].0@);
            }
        }
        None
    }
}

/// In a well-formed track, the group of a field holds exactly the lanes
/// of that field.
pub proof fn lemma_field_group_exact(track: Track, g: int, i: int)
    requires
        track.wf(),
        0 <= g < track.spec_field_lookups().len(),
        0 <= i < track.spec_sequence_spans().len(),
    ensures
        (track.spec_field_lookups()[g].1.offset <= i < track.spec_field_lookups()[g].1.offset
            + track.spec_field_lookups()[g].1.len) <==> track.spec_sequence_spans()[i].0@.1
            == track.spec_field_lookups()[g].0@,
{
    let lookups = track.spec_field_lookups();
    let spans = track.spec_sequence_spans();
    let tiles = lookups.map_values(|e: (FieldKey, Span)| e.1);
    let h = lemma_tile_covers(tiles, spans.len() as nat, i);
    assert(tiles[h] == lookups[h].1);
    assert(tiles[g] == lookups[g].1);
    assert(spans[i].0@.1 == lookups[h].0@);
    if h != g {
        if h < g {
            assert(lookups[h].0@ != lookups[g].0@);
            lemma_tile_ordered(tiles, spans.len() as nat, h, g);
        } else {
            assert(lookups[g].0@ != lookups[h].0@);
            lemma_tile_ordered(tiles, spans.len() as nat, g, h);
        }
    }
}

/// Baking visits every clip of a well-formed track exactly once: each
/// arena index stands at exactly one place of the bake order, the
/// returned one.
pub proof fn lemma_bake_order_visits_each_clip_once(track: Track, a: int) -> (i: int)
    requires
        track.wf(),
        0 <= a < track.spec_arena().len(),
    ensures
        0 <= i < track.spec_bake_order().len(),
        track.spec_bake_order()[i] == a,
        forall|j: int|
            0 <= j < track.spec_bake_order().len() && track.spec_bake_order()[j] == a ==> j == i,
{
    let order = track.spec_bake_order();
    let n = track.spec_arena().len() as int;
    let s = order.map_values(|x: usize| x as int);
    assert(s.no_duplicates()) by {
        assert forall|p: int, q: int| 0 <= p < s.len() && 0 <= q < s.len() && p != q implies s[p]
            != s[q] by {
            if p < q {
                assert(order[p] != order[q]);
            } else {
                assert(order[q] != order[p]);
            }
        }
    }
    s.unique_seq_to_set();
    vstd::set_lib::lemma_int_range(0, n);
    let range = vstd::set_lib::set_int_range(0, n);
    assert(s.to_set().subset_of(range)) by {
        assert forall|x: int| s.to_set().contains(x) implies range.contains(x) by {
            let k = choose|k: int| 0 <= k < s.len() && s[k] == x;
            assert(order[k] < n);
        }
    }
    vstd::set_lib::lemma_subset_equality(s.to_set(), range);
    assert(range.contains(a));
    assert(s.to_set().contains(a));
    let i = choose|k: int| 0 <= k < s.len() && s[k] == a;
    assert forall|j: int| 0 <= j < order.len() && order[j] == a implies j == i by {
        if j != i {
            assert(s[j] == s[i]);
        }
    }
    i
}

/// Whether `a` plays no later than `b` in bake order.
fn bake_le_exec(a: &ActionClip, b: &ActionClip) -> (r: bool)
    ensures
        r == bake_le(*a, *b),
{
    a.start.lt(&b.start) || (a.start.same(&b.start) && !b.id.lt(&a.id))
}

/// The indices of `arena` in start-time order, ties by id.
#[verifier::spinoff_prover]
fn bake_order_of(arena: &Vec<ActionClip>) -> (r: Vec<usize>)
    ensures
        r@.len() == arena@.len(),
        forall|i: int| 0 <= i < r@.len() ==> #[trigger] r@[i] < arena@.len(),
        forall|i: int, j: int| 0 <= i < j < r@.len() ==> r@[i] != r@[j],
        forall|i: int, j: int|
            0 <= i < j < r@.len() ==> bake_le(arena@[r@[i] as int], arena@[r@[j] as int]),
{
    let mut order: Vec<usize> = Vec::new();
    let mut k: usize = 0;
    while k < arena.len()
        invariant
            0 <= k <= arena.len(),
            order@.len() == k,
            forall|i: int| 0 <= i < order@.len() ==> #[trigger] order@[i] < k,
            forall|i: int, j: int| 0 <= i < j < order@.len() ==> order@[i] != order@[j],
            forall|i: int, j: int|
                0 <= i < j < order@.len() ==> bake_le(arena@[order@[i] as int], arena@[order@[j] as int]),
        decreases arena.len() - k,
    {
        let mut p: usize = order.len();
        loop
            invariant
                0 <= k < arena.len(),
                order@.len() == k,
                forall|i: int| 0 <= i < order@.len() ==> #[trigger] order@[i] < k,
                0 <= p <= order@.len(),
                forall|q: int| p <= q < order@.len() ==> !bake_le(arena@[order@[q] as int], arena@[k as int]),
            ensures
                0 <= p <= order@.len(),
                forall|q: int| p <= q < order@.len() ==> !bake_le(arena@[order@[q] as int], arena@[k as int]),
                p > 0 ==> bake_le(arena@[order@[p - 1] as int], arena@[k as int]),
            decreases p,
        {
            if p == 0 {
                break;
            }
            let prev = order[p - 1];
            if bake_le_exec(&arena[prev], &arena[k]) {
                break;
            }
            p = p - 1;
        }
        let ghost before = order@;
        order.insert(p, k);
        proof {
            assert forall|i: int, j: int| 0 <= i < j < order@.len() implies bake_le(
                arena@[order@[i] as int],
                arena@[order@[j] as int],
            ) by {
                if j < p {
                    assert(order@[i] == before[i] && order@[j] == before[j]);
                } else if j == p {
                    assert(order@[i] == before[i]);
                    assert(bake_le(arena@[before[p - 1] as int], arena@[k as int]));
                    if i < p - 1 {
                        assert(bake_le(arena@[before[i] as int], arena@[before[p - 1] as int]));
                    }
                } else if i < p {
                    assert(order@[i] == before[i] && order@[j] == before[j - 1]);
                    assert(!bake_le(arena@[before[j - 1] as int], arena@[k as int]));
                    assert(bake_le(arena@[before[p - 1] as int], arena@[k as int]));
                    if i < p - 1 {
                        assert(bake_le(arena@[before[i] as int], arena@[before[p - 1] as int]));
                    }
                } else if i == p {
                    assert(order@[j] == before[j - 1]);
                    assert(!bake_le(arena@[before[j - 1] as int], arena@[k as int]));
                } else {
                    assert(order@[i] == before[i - 1] && order@[j] == before[j - 1]);
                }
            }
            assert forall|i: int, j: int| 0 <= i < j < order@.len() implies order@[i] != order@[j] by {
                if i < p && j < p {
                    assert(order@[i] == before[i] && order@[j] == before[j]);
                } else if i < p && j > p {
                    assert(order@[i] == before[i] && order@[j] == before[j - 1]);
                } else if i > p {
                    assert(order@[i] == before[i - 1] && order@[j] == before[j - 1]);
                } else if i == p {
                    assert(order@[j] == before[j - 1]);
                } else {
                    assert(order@[i] == before[i]);
                }
            }
            assert forall|i: int| 0 <= i < order@.len() implies #[trigger] order@[i] < k + 1 by {
                if i < p {
                    assert(order@[i] == before[i]);
                } else if i > p {
                    assert(order@[i] == before[i - 1]);
                }
            }
        }
        k = k + 1;
    }
    order
}

/// Lays the entries' clips out back to back, recording each key's span.
#[verifier::spinoff_prover]
fn layout(entries: &Vec<(ActionKey, Sequence)>) -> (r: (Vec<(ActionKey, Span)>, Vec<ActionClip>))
    ensures
        r.0@.len() == entries@.len(),
        spans_tile(r.0@.map_values(|e: (ActionKey, Span)| e.1), r.1@.len()),
        layout_matches(r.0@, r.1@, entries@),
{
    let mut spans: Vec<(ActionKey, Span)> = Vec::new();
    let mut arena: Vec<ActionClip> = Vec::new();
    let mut i: usize = 0;
    while i < entries.len()
        invariant
            0 <= i <= entries.len(),
            spans@.len() == i,
            spans_tile(spans@.map_values(|e: (ActionKey, Span)| e.1), arena@.len()),
            forall|q: int|
                0 <= q < i ==> #[trigger] spans@[q].0 == entries@[q].0 && span_clips(
                    arena@,
                    spans@[q].1,
                ) == entries@[q].1@,
        decreases entries.len() - i,
    {
        let entry = &entries[i];
        let n = entry.1.len();
        let offset = arena.len();
        let ghost arena0 = arena@;
        let mut j: usize = 0;
        while j < n
            invariant
                0 <= i < entries.len(),
                entry == entries@[i as int],
                n == entry.1@.len(),
                0 <= j <= n,
                offset == arena0.len(),
                arena@.len() == offset + j,
                arena@.subrange(0, offset as int) == arena0,
                arena@.subrange(offset as int, offset + j) == entry.1@.take(j as int),
            decreases n - j,
        {
            arena.push(entry.1.get(j));
            proof {
                assert(arena@.subrange(0, offset as int) =~= arena0);
                assert(arena@.subrange(offset as int, offset + j + 1) =~= entry.1@.take(j + 1));
            }
            j = j + 1;
        }
        proof {
            assert(entry.1@.take(n as int) =~= entry.1@);
        }
        let ghost spans0 = spans@;
        spans.push((entry.0, Span { offset, len: n }));
        proof {
            let s0 = spans0.map_values(|e: (ActionKey, Span)| e.1);
            let s1 = spans@.map_values(|e: (ActionKey, Span)| e.1);
            assert(s1 =~= s0.push(Span { offset, len: n }));
            assert forall|q: int| 0 <= q < i + 1 implies #[trigger] spans@[q].0 == entries@[q].0
                && span_clips(arena@, spans@[q].1) =~= entries@[q].1@ by {
                if q < i {
                    assert(spans@[q] == spans0[q]);
                    assert(spans0[q].0 == entries@[q].0);
                    assert(s0[q] == spans0[q].1);
                    assert(s0[q].offset + s0[q].len <= arena0.len());
                    assert(span_clips(arena@, spans@[q].1) =~= span_clips(arena0, spans0[q].1));
                } else {
                    assert(spans@[q] == (entry.0, Span { offset, len: n }));
                    assert(span_clips(arena@, spans@[q].1) == arena@.subrange(
                        offset as int,
                        offset + n,
                    ));
                    assert(entries@[q] == *entry);
                }
            }
        }
        i = i + 1;
    }
    assert forall|q: int| 0 <= q < entries@.len() implies #[trigger] spans@[q].0 == entries@[q].0
        && span_clips(arena@, spans@[q].1) == entries@[q].1@ by {
        assert(spans@[q].0 == entries@[q].0);
    }
    assert(layout_matches(spans@, arena@, entries@));
    (spans, arena)
}

/// Each key span holds its entry's key and clips.
pub open spec fn layout_matches(
    spans: Seq<(ActionKey, Span)>,
    arena: Seq<ActionClip>,
    entries: Seq<(ActionKey, Sequence)>,
) -> bool {
    forall|i: int|
        0 <= i < entries.len() ==> #[trigger] spans[i].0 == entries[i].0 && span_clips(
            arena,
            spans[i].1,
        ) == entries[i].1@
}

/// Groups consecutive keys of the same field.
#[verifier::spinoff_prover]
#[verifier::rlimit(40)]
fn field_groups(spans: &Vec<(ActionKey, Span)>) -> (r: Vec<(FieldKey, Span)>)
    requires
        fields_contiguous(spans@.map_values(|e: (ActionKey, Span)| e.0@)),
        paths_ordered(spans@.map_values(|e: (ActionKey, Span)| e.0@)),
    ensures
        spans_tile(r@.map_values(|e: (FieldKey, Span)| e.1), spans@.len()),
        forall|g: int, i: int|
            #![trigger r@[g], spans@[i]]
            0 <= g < r@.len() && r@[g].1.offset <= i < r@[g].1.offset + r@[g].1.len
                ==> spans@[i].0@.1 == r@[g].0@,
        forall|g: int, h: int| 0 <= g < h < r@.len() ==> #[trigger] r@[g].0@ != #[trigger] r@[h].0@,
        forall|g: int, h: int|
            0 <= g < h < r@.len() && same_types(#[trigger] r@[g].0@, #[trigger] r@[h].0@) ==> bytes_le(
                vstd::utf8::encode_utf8(r@[g].0@.2),
                vstd::utf8::encode_utf8(r@[h].0@.2),
            ),
{
    let ghost keys = spans@.map_values(|e: (ActionKey, Span)| e.0@);
    let mut groups: Vec<(FieldKey, Span)> = Vec::new();
    let mut i: usize = 0;
    while i < spans.len()
        invariant
            0 <= i <= spans.len(),
            spans_tile(groups@.map_values(|e: (FieldKey, Span)| e.1), i as nat),
            forall|g: int, q: int|
                #![trigger groups@[g], spans@[q]]
                0 <= g < groups@.len() && groups@[g].1.offset <= q < groups@[g].1.offset
                    + groups@[g].1.len ==> spans@[q].0@.1 == groups@[g].0@,
            forall|g: int, h: int|
                0 <= g < h < groups@.len() ==> #[trigger] groups@[g].0@ != #[trigger] groups@[h].0@,
            i > 0 ==> groups@.len() > 0 && groups@.last().0@ == spans@[i - 1].0@.1,
            keys == spans@.map_values(|e: (ActionKey, Span)| e.0@),
            fields_contiguous(keys),
            paths_ordered(keys),
            forall|g: int, h: int|
                0 <= g < h < groups@.len() && same_types(#[trigger] groups@[g].0@, #[trigger] groups@[h].0@)
                    ==> bytes_le(
                    vstd::utf8::encode_utf8(groups@[g].0@.2),
                    vstd::utf8::encode_utf8(groups@[h].0@.2),
                ),
        decreases spans.len() - i,
    {
        let field = *spans[i].0.field();
        proof {
            spans@[i as int].0.lemma_view();
        }
        let ghost g0 = groups@;
        let ghost t0 = g0.map_values(|e: (FieldKey, Span)| e.1);
        let n = groups.len();
        if n > 0 && groups[n - 1].0.same(&field) {
            let (f, span) = groups.pop().unwrap();
            proof {
                assert(g0.last() == (f, span));
                assert(t0.last() == span);
            }
            let new_len = span.len + 1;
            groups.push((f, Span { offset: span.offset, len: new_len }));
            proof {
                let t1 = groups@.map_values(|e: (FieldKey, Span)| e.1);
                assert(t1 =~= t0.drop_last().push(Span { offset: span.offset, len: new_len }));
                assert forall|g: int, q: int|
                    #![trigger groups@[g], spans@[q]]
                    0 <= g < groups@.len() && groups@[g].1.offset <= q < groups@[g].1.offset
                        + groups@[g].1.len implies spans@[q].0@.1 == groups@[g].0@ by {
                    if g < n - 1 {
                        assert(groups@[g] == g0[g]);
                    } else if q < i {
                        assert(g0[g] == (f, span));
                    }
                }
                assert forall|g: int, h: int| 0 <= g < h < groups@.len() implies #[trigger] groups@[g].0@
                    != #[trigger] groups@[h].0@ by {
                    assert(groups@[g] == g0[g]);
                    if h < n - 1 {
                        assert(groups@[h] == g0[h]);
                    } else {
                        assert(g0[h] == (f, span));
                    }
                }
                assert forall|g: int, h: int|
                    0 <= g < h < groups@.len() && same_types(#[trigger] groups@[g].0@, #[trigger] groups@[h].0@)
                        implies bytes_le(
                    vstd::utf8::encode_utf8(groups@[g].0@.2),
                    vstd::utf8::encode_utf8(groups@[h].0@.2),
                ) by {
                    assert(groups@[g] == g0[g]);
                    if h < n - 1 {
                        assert(groups@[h] == g0[h]);
                    } else {
                        assert(g0[h] == (f, span));
                    }
                }
            }
        } else {
            groups.push((field, Span { offset: i, len: 1 }));
            proof {
                let t1 = groups@.map_values(|e: (FieldKey, Span)| e.1);
                assert(t1 =~= t0.push(Span { offset: i, len: 1 }));
                assert forall|g: int, q: int|
                    #![trigger groups@[g], spans@[q]]
                    0 <= g < groups@.len() && groups@[g].1.offset <= q < groups@[g].1.offset
                        + groups@[g].1.len implies spans@[q].0@.1 == groups@[g].0@ by {
                    if g < n {
                        assert(groups@[g] == g0[g]);
                        assert(t0[g] == g0[g].1);
                    }
                }
                assert forall|g: int, h: int| 0 <= g < h < groups@.len() implies #[trigger] groups@[g].0@
                    != #[trigger] groups@[h].0@ by {
                    assert(groups@[g] == g0[g]);
                    if h < n {
                        assert(groups@[h] == g0[h]);
                    } else {
                        // The new group's field is not that of any earlier group.
                        assert(groups@[h].0@ == field@);
                        if g0[g].0@ == field@ {
                            assert(g != n - 1);
                            assert(t0[g] == g0[g].1);
                            assert(t0[n - 1] == g0[n - 1].1);
                            lemma_tile_ordered(t0, i as nat, g, n - 1);
                            let q = g0[g].1.offset as int;
                            assert(spans@[q].0@.1 == g0[g].0@);
                            assert(g0[n - 1].1.offset <= i - 1);
                            assert(keys[q] == spans@[q].0@);
                            assert(keys[i - 1] == spans@[i - 1].0@);
                            assert(keys[i as int] == spans@[i as int].0@);
                            assert(keys[i - 1].1 == keys[q].1);
                            assert(false);
                        }
                    }
                }
                assert forall|g: int, h: int|
                    0 <= g < h < groups@.len() && same_types(#[trigger] groups@[g].0@, #[trigger] groups@[h].0@)
                        implies bytes_le(
                    vstd::utf8::encode_utf8(groups@[g].0@.2),
                    vstd::utf8::encode_utf8(groups@[h].0@.2),
                ) by {
                    assert(groups@[g] == g0[g]);
                    if h < n {
                        assert(groups@[h] == g0[h]);
                    } else {
                        // An earlier group starts before this key.
                        assert(groups@[h].0@ == field@);
                        assert(t0[g] == g0[g].1);
                        let q = g0[g].1.offset as int;
                        assert(q < i);
                        assert(spans@[q].0@.1 == g0[g].0@);
                        assert(keys[q] == spans@[q].0@);
                        assert(keys[i as int] == spans@[i as int].0@);
                    }
                }
            }
        }
        i = i + 1;
    }
    groups
}

impl TrackFragment {
    /// Compiles the fragment into a [`Track`]: overlapping actions on
    /// aliasing fields are resolved (the later action wins), the lanes
    /// are laid out grouped by field, clips are put in bake order, and
    /// the duration is stretched to cover every clip.
    #[verifier::spinoff_prover]
    pub fn compile(self) -> (r: Track)
        ensures
            r.wf(),
            r.spec_lanes() == resolved_lanes(self.lanes()),
            report_valid(self.lanes(), r.spec_conflicts()),
            r.spec_duration() >= self.spec_duration(),
            r.spec_duration() == self.spec_duration() || exists|i: int|
                0 <= i < r.spec_arena().len() && #[trigger] r.spec_arena()[i].spec_end()
                    == r.spec_duration(),
    {
        let duration = self.duration;
        let ghost lanes = self.lanes();
        let entries = self.into_entries();
        let (mut sequences, conflicts) = resolve_conflicts(entries);
        let ghost resolved = sequences@;
        sort_entries_by_field(&mut sequences);
        proof {
            lemma_permuted_entries(resolved, sequences@);
        }
        let (sequence_spans, clip_arena) = layout(&sequences);
        proof {
            let ks = sequence_spans@.map_values(|e: (ActionKey, Span)| e.0@);
            let ke = sequences@.map_values(|e: (ActionKey, Sequence)| e.0@);
            assert forall|q: int| 0 <= q < ks.len() implies ks[q] == ke[q] by {
                assert(sequence_spans@[q].0 == sequences@[q].0);
            }
            assert(ks =~= ke);
        }
        let field_lookups = field_groups(&sequence_spans);
        let bake_order = bake_order_of(&clip_arena);
        let mut track_duration = duration;
        let mut i: usize = 0;
        while i < clip_arena.len()
            invariant
                0 <= i <= clip_arena.len(),
                track_duration@ >= duration@,
                forall|q: int| 0 <= q < i ==> (#[trigger] clip_arena@[q]).spec_end() <= track_duration@,
                track_duration@ == duration@ || exists|q: int|
                    0 <= q < i && #[trigger] clip_arena@[q].spec_end() == track_duration@,
            decreases clip_arena.len() - i,
        {
            track_duration = track_duration.max(clip_arena[i].end());
            i = i + 1;
        }
        proof {
            let layout = Track {
                field_lookups: field_lookups,
                sequence_spans: sequence_spans,
                clip_arena: clip_arena,
                bake_order: bake_order,
                conflicts: conflicts,
                duration: track_duration,
            };
            assert(layout.spec_entries() =~= entry_views(sequences@));
            assert(layout.wf());
        }
        Track {
            field_lookups,
            sequence_spans,
            clip_arena,
            bake_order,
            conflicts,
            duration: track_duration,
        }
    }
}

/// The tracks a `NonEmpty<Track>` holds, first to last.
pub uninterp spec fn track_items(list: NonEmpty<Track>) -> Seq<Track>;

/// Calls `NonEmpty::new`: a list holding just `track`.
#[verifier::external_body]
fn tracks_new(track: Track) -> (r: NonEmpty<Track>)
    ensures
        track_items(r) == seq![track],
{
    NonEmpty::new(track)
}

/// Calls `NonEmpty::collect`: `None` when `tracks` is empty, otherwise
/// a list of the same tracks in the same order.
#[verifier::external_body]
fn tracks_collect(tracks: Vec<Track>) -> (r: Option<NonEmpty<Track>>)
    ensures
        r is Some <==> tracks@.len() > 0,
        r matches Some(list) ==> track_items(list) == tracks@,
{
    NonEmpty::collect(tracks)
}

/// Calls `<NonEmpty as Extend>::extend`: appends `tracks` in order.
#[verifier::external_body]
fn tracks_extend(list: &mut NonEmpty<Track>, tracks: Vec<Track>)
    ensures
        track_items(*final(list)) == track_items(*old(list)) + tracks@,
{
    list.extend(tracks)
}

/// Calls `<Vec as From<NonEmpty>>::from`: the tracks as a `Vec`, in
/// order, never empty.
#[verifier::external_body]
fn tracks_into_vec(list: NonEmpty<Track>) -> (r: Vec<Track>)
    ensures
        r@ == track_items(list),
        r@.len() >= 1,
{
    Vec::from(list)
}

/// The tracks a timeline plays through, always at least one.
pub struct TrackList(pub NonEmpty<Track>);

impl View for TrackList {
    type V = Seq<Track>;

    open spec fn view(&self) -> Seq<Track> {
        track_items(self.0)
    }
}

impl TrackList {
    /// A list of one track.
    pub fn new(track: Track) -> (r: Self)
        ensures
            r@ == seq![track],
    {
        Self(tracks_new(track))
    }

    /// The tracks, or `None` when there are none.
    pub fn collect(tracks: Vec<Track>) -> (r: Option<Self>)
        ensures
            r is Some <==> tracks@.len() > 0,
            r matches Some(list) ==> list@ == tracks@,
    {
        match tracks_collect(tracks) {
            Some(list) => Some(Self(list)),
            None => None,
        }
    }

    /// Appends `tracks` in order.
    pub fn add(&mut self, tracks: Vec<Track>) -> (r: &mut Self)
        ensures
            r@ == old(self)@ + tracks@,
            *final(self) == *final(r),
    {
        tracks_extend(&mut self.0, tracks);
        self
    }

    /// The tracks in order; never empty.
    pub fn into_vec(self) -> (r: Vec<Track>)
        ensures
            r@ == self@,
            r@.len() >= 1,
    {
        tracks_into_vec(self.0)
    }
}

} // verus!
