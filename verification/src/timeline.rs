//! Playback state over a list of compiled tracks: the current and
//! target track and time, and the queue of samples that moving from
//! one to the other calls for.

use vstd::prelude::*;

use crate::action::{ActionClip, ActionId, ActionKey, ClipProgress, KeyView, SampleMode};
use crate::conflict::FieldConflict;
use crate::time::{nat_max, nat_min, sat_sub, Duration, Range};
use crate::queue::{
    farthest_first, lemma_permuted_pairs, pairs_keys_distinct, pairs_map, queue_clear, queue_insert,
    queue_items, queue_sort_by_distance, SampleQueue,
};
use crate::track::{entries_keys_distinct, lanes_of_entries, span_clips, Span, Track, TrackList};

verus! {

/// One field's resolved sample for the current frame.
#[derive(Debug, Clone, Copy, PartialEq, Eq)]
pub struct QueuedSample {
    /// The action to sample.
    pub id: ActionId,
    /// How to sample it.
    pub mode: SampleMode,
    /// The instant this sample represents: the clip's start for
    /// [`SampleMode::Start`], its end for [`SampleMode::End`], the
    /// playhead itself for [`SampleMode::Interp`].
    pub keyframe: Duration,
}

/// The sample a track switch writes for a lane: its first clip's start
/// when going back, its last clip's end when going forward.
pub open spec fn boundary_sample(clips: Seq<ActionClip>, from_end: bool) -> QueuedSample {
    if from_end {
        QueuedSample {
            id: clips.last().id,
            mode: SampleMode::End,
            keyframe: Duration::spec_from_nanos(clips.last().spec_end()),
        }
    } else {
        QueuedSample { id: clips[0].id, mode: SampleMode::Start, keyframe: clips[0].start }
    }
}

/// The boundary samples of every lane of a track.
pub open spec fn track_boundary(track: Track, from_end: bool) -> Map<KeyView, QueuedSample> {
    track.spec_lanes().map_values(|clips: Seq<ActionClip>| boundary_sample(clips, from_end))
}

/// The boundary samples of tracks `lo..hi`, later tracks overriding
/// earlier ones.
pub open spec fn boundary_samples(tracks: Seq<Track>, lo: int, hi: int, from_end: bool) -> Map<
    KeyView,
    QueuedSample,
>
    decreases hi - lo,
{
    if hi <= lo {
        Map::empty()
    } else {
        boundary_samples(tracks, lo, hi - 1, from_end).union_prefer_right(
            track_boundary(tracks[hi - 1], from_end),
        )
    }
}

/// An outcome of searching `clips` for the playhead at `target`:
/// `Ok(i)` when clip `i` holds it; `Err(i)` when it lies after clip
/// `i - 1` (if any) and before clip `i` (if any).
pub open spec fn search_valid(clips: Seq<ActionClip>, target: nat, r: Result<usize, usize>) -> bool {
    match r {
        Ok(i) => i < clips.len() && clips[i as int].start@ <= target <= clips[i as int].spec_end(),
        Err(i) => {
            &&& i <= clips.len()
            &&& (i == 0 || clips[i - 1].spec_end() < target)
            &&& (i == clips.len() || target < clips[i as int].start@)
        },
    }
}

/// `[start, end]` meets `[lo, hi]`, a boundary touch included.
pub open spec fn spans_meet(start: nat, end: nat, lo: nat, hi: nat) -> bool {
    start <= hi && lo <= end
}

/// The sample the playhead at `target` calls for on a lane, given the
/// search outcome, when the time moved over `[lo, hi]`: the held clip
/// interpolated, or the nearest clip's start or end, or nothing when
/// the move did not touch the lane.
pub open spec fn play_sample(
    clips: Seq<ActionClip>,
    target: Duration,
    lo: nat,
    hi: nat,
    r: Result<usize, usize>,
) -> Option<QueuedSample> {
    if !spans_meet(clips[0].start@, clips.last().spec_end(), lo, hi) {
        None
    } else {
        match r {
            Ok(i) => Some(
                QueuedSample {
                    id: clips[i as int].id,
                    mode: SampleMode::Interp(
                        ClipProgress {
                            elapsed: Duration::spec_from_nanos(sat_sub(target@, clips[i as int].start@)),
                            span: clips[i as int].duration,
                        },
                    ),
                    keyframe: target,
                },
            ),
            Err(i) => {
                let c = clips[if i == 0 { 0 } else { i - 1 }];
                if !spans_meet(c.start@, c.spec_end(), lo, hi) {
                    None
                } else if i == 0 {
                    Some(QueuedSample { id: c.id, mode: SampleMode::Start, keyframe: c.start })
                } else {
                    Some(
                        QueuedSample {
                            id: c.id,
                            mode: SampleMode::End,
                            keyframe: Duration::spec_from_nanos(c.spec_end()),
                        },
                    )
                }
            },
        }
    }
}

/// The playhead samples of every lane the move touched.
pub open spec fn played_samples(
    lanes: Map<KeyView, Seq<ActionClip>>,
    target: Duration,
    lo: nat,
    hi: nat,
    outcomes: Map<KeyView, Result<usize, usize>>,
) -> Map<KeyView, QueuedSample> {
    Map::new(
        |k: KeyView| lanes.contains_key(k) && play_sample(lanes[k], target, lo, hi, outcomes[k]) is Some,
        |k: KeyView| play_sample(lanes[k], target, lo, hi, outcomes[k])->0,
    )
}

/// The queue a timeline holds after moving from track `curr` at
/// `curr_time` to track `target` at `target_time`, given the search
/// outcome used for each lane: the boundary samples of the tracks
/// passed over, overridden by the playhead samples of the target
/// track's lanes that the move touched.
pub open spec fn queued_for(
    tracks: Seq<Track>,
    curr: int,
    target: int,
    curr_time: Duration,
    target_time: Duration,
    outcomes: Map<KeyView, Result<usize, usize>>,
    queue: Map<KeyView, QueuedSample>,
) -> bool {
    let start = if target > curr {
        0
    } else if target < curr {
        tracks[target].spec_duration()
    } else {
        curr_time@
    };
    let boundary = if target > curr {
        boundary_samples(tracks, curr, target, true)
    } else if target < curr {
        boundary_samples(tracks, target + 1, curr + 1, false)
    } else {
        Map::empty()
    };
    let lanes = tracks[target].spec_lanes();
    let lo = nat_min(start, target_time@);
    let hi = nat_max(start, target_time@);
    &&& forall|k: KeyView|
        #[trigger] lanes.contains_key(k) && spans_meet(lanes[k][0].start@, lanes[k].last().spec_end(), lo, hi)
            ==> search_valid(lanes[k], target_time@, outcomes[k])
    &&& queue == boundary.union_prefer_right(played_samples(lanes, target_time, lo, hi, outcomes))
}

/// Searches `clips` for the clip holding `target`.
fn search_clips(clips: &[ActionClip], target: Duration) -> (r: Result<usize, usize>)
    ensures
        search_valid(clips@, target@, r),
{
    let mut lo: usize = 0;
    let mut hi: usize = clips.len();
    while lo < hi
        invariant
            0 <= lo <= hi <= clips@.len(),
            lo == 0 || clips@[lo - 1].spec_end() < target@,
            hi == clips@.len() || target@ < clips@[hi as int].start@,
        decreases hi - lo,
    {
        let mid = lo + (hi - lo) / 2;
        let clip = clips[mid];
        if target.lt(&clip.start) {
            hi = mid;
        } else if clip.end().lt(&target) {
            lo = mid + 1;
        } else {
            return Ok(mid);
        }
    }
    Err(lo)
}

/// Writes the boundary sample of every lane of `track` into the queue.
#[verifier::spinoff_prover]
fn queue_track_boundary(queue: &mut SampleQueue, track: &Track, from_end: bool)
    requires
        track.wf(),
        pairs_keys_distinct(queue_items(*old(queue))),
    ensures
        pairs_keys_distinct(queue_items(*final(queue))),
        pairs_map(queue_items(*final(queue))) == pairs_map(queue_items(*old(queue))).union_prefer_right(
            track_boundary(*track, from_end),
        ),
{
    let ghost base = pairs_map(queue_items(*queue));
    let ghost entries = track.spec_entries();
    let spans = track.sequences_spans();
    let ghost tiles = spans@.map_values(|e: (ActionKey, Span)| e.1);
    let mut s: usize = 0;
    proof {
        assert(entries.take(0) =~= Seq::<(KeyView, Seq<ActionClip>)>::empty());
        assert(base.union_prefer_right(
            lanes_of_entries(entries.take(0)).map_values(
                |clips: Seq<ActionClip>| boundary_sample(clips, from_end),
            ),
        ) =~= base);
    }
    while s < spans.len()
        invariant
            track.wf(),
            spans@ == track.spec_sequence_spans(),
            entries == track.spec_entries(),
            tiles == spans@.map_values(|e: (ActionKey, Span)| e.1),
            0 <= s <= spans@.len(),
            pairs_keys_distinct(queue_items(*queue)),
            pairs_map(queue_items(*queue)) == base.union_prefer_right(
                lanes_of_entries(entries.take(s as int)).map_values(
                    |clips: Seq<ActionClip>| boundary_sample(clips, from_end),
                ),
            ),
        decreases spans@.len() - s,
    {
        let (key, span) = spans[s];
        proof {
            assert(tiles[s as int] == span);
        }
        if span.len == 0 {
            s = s + 1;
            continue;
        }
        let clips = track.clips(span);
        let ghost clip_seq = clips@;
        let sample = if from_end {
            let last = clips[clips.len() - 1];
            let keyframe = last.end();
            proof {
                Duration::lemma_from_nanos(keyframe);
            }
            QueuedSample { id: last.id, mode: SampleMode::End, keyframe }
        } else {
            let first = clips[0];
            QueuedSample { id: first.id, mode: SampleMode::Start, keyframe: first.start }
        };
        let _ = queue_insert(queue, key, sample);
        proof {
            assert(entries[s as int] == (key@, clip_seq));
            assert(entries.take(s + 1).drop_last() =~= entries.take(s as int));
            let prev = lanes_of_entries(entries.take(s as int));
            let next = lanes_of_entries(entries.take(s + 1));
            assert(next == prev.insert(key@, clip_seq));
            assert(base.union_prefer_right(
                next.map_values(|clips: Seq<ActionClip>| boundary_sample(clips, from_end)),
            ) =~= base.union_prefer_right(
                prev.map_values(|clips: Seq<ActionClip>| boundary_sample(clips, from_end)),
            ).insert(key@, sample));
        }
        s = s + 1;
    }
    proof {
        assert(entries.take(spans@.len() as int) =~= entries);
    }
}

/// Writes the boundary samples of tracks `lo..hi` into the queue, later
/// tracks overriding earlier ones.
fn queue_boundaries(queue: &mut SampleQueue, tracks: &Vec<Track>, lo: usize, hi: usize, from_end: bool)
    requires
        hi <= tracks@.len(),
        forall|i: int| 0 <= i < tracks@.len() ==> #[trigger] tracks@[i].wf(),
        pairs_keys_distinct(queue_items(*old(queue))),
    ensures
        pairs_keys_distinct(queue_items(*final(queue))),
        pairs_map(queue_items(*final(queue))) == pairs_map(queue_items(*old(queue))).union_prefer_right(
            boundary_samples(tracks@, lo as int, hi as int, from_end),
        ),
{
    let ghost base = pairs_map(queue_items(*queue));
    let mut i: usize = lo;
    proof {
        assert(base.union_prefer_right(boundary_samples(tracks@, lo as int, lo as int, from_end)) =~= base);
    }
    while i < hi
        invariant
            lo <= i,
            i <= hi || i == lo,
            hi <= tracks@.len(),
            forall|t: int| 0 <= t < tracks@.len() ==> #[trigger] tracks@[t].wf(),
            pairs_keys_distinct(queue_items(*queue)),
            pairs_map(queue_items(*queue)) == base.union_prefer_right(
                boundary_samples(tracks@, lo as int, i as int, from_end),
            ),
        decreases hi - i,
    {
        let ghost before = pairs_map(queue_items(*queue));
        queue_track_boundary(queue, &tracks[i], from_end);
        proof {
            assert(boundary_samples(tracks@, lo as int, i + 1, from_end) == boundary_samples(
                tracks@,
                lo as int,
                i as int,
                from_end,
            ).union_prefer_right(track_boundary(tracks@[i as int], from_end)));
            assert(pairs_map(queue_items(*queue)) =~= base.union_prefer_right(
                boundary_samples(tracks@, lo as int, i + 1, from_end),
            ));
        }
        i = i + 1;
    }
    proof {
        if hi < lo {
            assert(boundary_samples(tracks@, lo as int, hi as int, from_end) =~= Map::empty());
            assert(boundary_samples(tracks@, lo as int, lo as int, from_end) =~= Map::empty());
        }
    }
}

/// Writes the playhead sample of every lane of `track` that the move
/// over `[lo, hi]` touched; returns the search outcome used per lane.
#[verifier::spinoff_prover]
fn queue_playhead(
    queue: &mut SampleQueue,
    track: &Track,
    target: Duration,
    lo: Duration,
    hi: Duration,
) -> (outcomes: Ghost<Map<KeyView, Result<usize, usize>>>)
    requires
        track.wf(),
        pairs_keys_distinct(queue_items(*old(queue))),
    ensures
        pairs_keys_distinct(queue_items(*final(queue))),
        forall|k: KeyView|
            #[trigger] track.spec_lanes().contains_key(k) && spans_meet(
                track.spec_lanes()[k][0].start@,
                track.spec_lanes()[k].last().spec_end(),
                lo@,
                hi@,
            ) ==> search_valid(track.spec_lanes()[k], target@, outcomes@[k]),
        pairs_map(queue_items(*final(queue))) == pairs_map(queue_items(*old(queue))).union_prefer_right(
            played_samples(track.spec_lanes(), target, lo@, hi@, outcomes@),
        ),
{
    let ghost base = pairs_map(queue_items(*queue));
    let ghost entries = track.spec_entries();
    let ghost mut found: Map<KeyView, Result<usize, usize>> = Map::empty();
    let spans = track.sequences_spans();
    let ghost tiles = spans@.map_values(|e: (ActionKey, Span)| e.1);
    let mut s: usize = 0;
    proof {
        assert(entries.take(0) =~= Seq::<(KeyView, Seq<ActionClip>)>::empty());
        assert(base.union_prefer_right(
            played_samples(lanes_of_entries(entries.take(0)), target, lo@, hi@, found),
        ) =~= base);
    }
    while s < spans.len()
        invariant
            track.wf(),
            spans@ == track.spec_sequence_spans(),
            entries == track.spec_entries(),
            tiles == spans@.map_values(|e: (ActionKey, Span)| e.1),
            0 <= s <= spans@.len(),
            pairs_keys_distinct(queue_items(*queue)),
            forall|k: KeyView|
                #[trigger] lanes_of_entries(entries.take(s as int)).contains_key(k) && spans_meet(
                    lanes_of_entries(entries.take(s as int))[k][0].start@,
                    lanes_of_entries(entries.take(s as int))[k].last().spec_end(),
                    lo@,
                    hi@,
                ) ==> search_valid(lanes_of_entries(entries.take(s as int))[k], target@, found[k]),
            pairs_map(queue_items(*queue)) == base.union_prefer_right(
                played_samples(lanes_of_entries(entries.take(s as int)), target, lo@, hi@, found),
            ),
        decreases spans@.len() - s,
    {
        let (key, span) = spans[s];
        proof {
            assert(tiles[s as int] == span);
            assert(entries.take(s + 1).drop_last() =~= entries.take(s as int));
            crate::conflict::lemma_entries_index(entries);
            assert(entries[s as int] == (key@, span_clips(track.spec_arena(), span)));
            assert forall|j: int| 0 <= j < entries.take(s as int).len() implies entries.take(
                s as int,
            )[j].0 != key@ by {
                assert(entries.take(s as int)[j] == entries[j]);
            }
            crate::track::lemma_entries_keys_absent(entries.take(s as int), key@);
        }
        let ghost prev = lanes_of_entries(entries.take(s as int));
        let ghost next = lanes_of_entries(entries.take(s + 1));
        if span.len == 0 {
            s = s + 1;
            continue;
        }
        let clips = track.clips(span);
        let ghost clip_seq = clips@;
        proof {
            assert(next == prev.insert(key@, clip_seq));
        }
        let first = clips[0];
        let last = clips[clips.len() - 1];
        let time_range = Range { start: lo, end: hi };
        let clips_range = Range { start: first.start, end: last.end() };
        if !time_range.overlap(&clips_range) {
            proof {
                assert(play_sample(clip_seq, target, lo@, hi@, Err(0)) is None);
                assert(played_samples(next, target, lo@, hi@, found) =~= played_samples(
                    prev,
                    target,
                    lo@,
                    hi@,
                    found,
                ));
            }
            s = s + 1;
            continue;
        }
        let outcome = search_clips(clips, target);
        let sample = match outcome {
            Ok(index) => {
                let clip = clips[index];
                let progress = clip.progress_parts(target);
                proof {
                    Duration::lemma_from_nanos(progress.elapsed);
                }
                Some(QueuedSample { id: clip.id, mode: SampleMode::Interp(progress), keyframe: target })
            },
            Err(index) => {
                let clip = clips[if index == 0 { 0 } else { index - 1 }];
                let clip_range = Range { start: clip.start, end: clip.end() };
                if !time_range.overlap(&clip_range) {
                    None
                } else if index == 0 {
                    Some(QueuedSample { id: clip.id, mode: SampleMode::Start, keyframe: clip.start })
                } else {
                    let keyframe = clip.end();
                    proof {
                        Duration::lemma_from_nanos(keyframe);
                    }
                    Some(QueuedSample { id: clip.id, mode: SampleMode::End, keyframe })
                }
            },
        };
        proof {
            assert(sample == play_sample(clip_seq, target, lo@, hi@, outcome));
        }
        let ghost old_found = found;
        proof {
            found = found.insert(key@, outcome);
            assert forall|k: KeyView| #[trigger] prev.contains_key(k) implies found[k] == old_found[k] by {}
        }
        match sample {
            Some(sample) => {
                let _ = queue_insert(queue, key, sample);
            },
            None => {},
        }
        proof {
            assert(played_samples(next, target, lo@, hi@, found) =~= {
                let p = played_samples(prev, target, lo@, hi@, old_found);
                match play_sample(clip_seq, target, lo@, hi@, outcome) {
                    Some(v) => p.insert(key@, v),
                    None => p,
                }
            });
            assert(pairs_map(queue_items(*queue)) =~= base.union_prefer_right(
                played_samples(next, target, lo@, hi@, found),
            ));
        }
        s = s + 1;
    }
    proof {
        assert(entries.take(spans@.len() as int) =~= entries);
    }
    Ghost(found)
}

/// Playback state over at least one compiled [`Track`].
pub struct Timeline {
    tracks: Vec<Track>,
    queue: SampleQueue,
    /// The current time of the current track.
    curr_time: Duration,
    /// The target time of the target track.
    target_time: Duration,
    /// The index of the current track.
    curr_index: usize,
    /// The index of the target track.
    target_index: usize,
}

impl Timeline {
    #[verifier::type_invariant]
    closed spec fn inv(self) -> bool {
        &&& self.tracks@.len() >= 1
        &&& self.curr_index < self.tracks@.len()
        &&& self.target_index < self.tracks@.len()
        &&& forall|i: int| 0 <= i < self.tracks@.len() ==> #[trigger] self.tracks@[i].wf()
        &&& pairs_keys_distinct(queue_items(self.queue))
    }

    pub closed spec fn spec_tracks(self) -> Seq<Track> {
        self.tracks@
    }

    pub closed spec fn spec_queue(self) -> Seq<(KeyView, QueuedSample)> {
        queue_items(self.queue)
    }

    pub closed spec fn spec_curr_time(self) -> Duration {
        self.curr_time
    }

    pub closed spec fn spec_target_time(self) -> Duration {
        self.target_time
    }

    pub closed spec fn spec_curr_index(self) -> usize {
        self.curr_index
    }

    pub closed spec fn spec_target_index(self) -> usize {
        self.target_index
    }

    /// A timeline at the start of the first of `tracks`.
    pub fn from_tracks(tracks: TrackList) -> (r: Self)
        ensures
            r.spec_tracks() == tracks@,
            r.spec_queue().len() == 0,
            r.spec_curr_time()@ == 0,
            r.spec_target_time()@ == 0,
            r.spec_curr_index() == 0,
            r.spec_target_index() == 0,
    {
        let tracks = tracks.into_vec();
        let mut i: usize = 0;
        while i < tracks.len()
            invariant
                0 <= i <= tracks@.len(),
                forall|j: int| 0 <= j < i ==> #[trigger] tracks@[j].wf(),
            decreases tracks@.len() - i,
        {
            let track = &tracks[i];
            proof {
                use_type_invariant(track);
                assert(*track == tracks@[i as int]);
                assert(tracks@[i as int].wf());
            }
            i = i + 1;
        }
        Self {
            tracks,
            queue: crate::queue::queue_new(),
            curr_time: Duration::zero(),
            target_time: Duration::zero(),
            curr_index: 0,
            target_index: 0,
        }
    }

    /// `after` is `before` with its target time set to `time`, clamped
    /// to the target track's duration; nothing else changes.
    pub open spec fn spec_target_time_set(before: Timeline, after: Timeline, time: nat) -> bool {
        &&& after.spec_target_time()@ == nat_min(
            time,
            before.spec_tracks()[before.spec_target_index() as int].spec_duration(),
        )
        &&& after.spec_tracks() == before.spec_tracks()
        &&& after.spec_queue() == before.spec_queue()
        &&& after.spec_curr_time() == before.spec_curr_time()
        &&& after.spec_curr_index() == before.spec_curr_index()
        &&& after.spec_target_index() == before.spec_target_index()
    }

    /// `after` is `before` with its target track set to `index`,
    /// clamped to the last track; nothing else changes.
    pub open spec fn spec_target_track_set(before: Timeline, after: Timeline, index: usize) -> bool {
        &&& after.spec_target_index() == if index < before.spec_tracks().len() {
            index as int
        } else {
            before.spec_tracks().len() - 1
        }
        &&& after.spec_tracks() == before.spec_tracks()
        &&& after.spec_queue() == before.spec_queue()
        &&& after.spec_curr_time() == before.spec_curr_time()
        &&& after.spec_target_time() == before.spec_target_time()
        &&& after.spec_curr_index() == before.spec_curr_index()
    }

    /// `after` is `before` once played to its target: the current
    /// track and time are the target ones, and the queue holds the
    /// samples the move calls for, farthest keyframe first.
    pub open spec fn spec_played(before: Timeline, after: Timeline) -> bool {
        &&& after.spec_tracks() == before.spec_tracks()
        &&& after.spec_target_time() == before.spec_target_time()
        &&& after.spec_target_index() == before.spec_target_index()
        &&& after.spec_curr_index() == before.spec_target_index()
        &&& after.spec_curr_time() == before.spec_target_time()
        &&& pairs_keys_distinct(after.spec_queue())
        &&& farthest_first(after.spec_queue(), before.spec_target_time()@)
        &&& exists|outcomes: Map<KeyView, Result<usize, usize>>|
            #[trigger] queued_for(
                before.spec_tracks(),
                before.spec_curr_index() as int,
                before.spec_target_index() as int,
                before.spec_curr_time(),
                before.spec_target_time(),
                outcomes,
                after.spec_queue_map(),
            )
    }

    /// On the last track, at that track's end.
    pub open spec fn spec_complete(self) -> bool {
        &&& self.spec_curr_index() == self.spec_tracks().len() - 1
        &&& self.spec_curr_time()@ >= self.spec_tracks()[self.spec_curr_index() as int].spec_duration()
    }

    /// Returns the current playback time.
    pub fn curr_time(&self) -> (r: Duration)
        ensures
            r == self.spec_curr_time(),
    {
        self.curr_time
    }

    /// Returns the target playback time.
    pub fn target_time(&self) -> (r: Duration)
        ensures
            r == self.spec_target_time(),
    {
        self.target_time
    }

    /// Returns the current track index.
    pub fn curr_index(&self) -> (r: usize)
        ensures
            r == self.spec_curr_index(),
    {
        self.curr_index
    }

    /// Returns the target track index.
    pub fn target_index(&self) -> (r: usize)
        ensures
            r == self.spec_target_index(),
    {
        self.target_index
    }

    /// Returns all tracks.
    pub fn tracks(&self) -> (r: &[Track])
        ensures
            r@ == self.spec_tracks(),
    {
        self.tracks.as_slice()
    }

    /// Returns the current playing track.
    pub fn curr_track(&self) -> (r: &Track)
        ensures
            *r == self.spec_tracks()[self.spec_curr_index() as int],
    {
        proof {
            use_type_invariant(self);
        }
        &self.tracks[self.curr_index]
    }

    /// The index of the last track: the largest index
    /// [`Self::set_target_track`] keeps.
    pub fn last_track_index(&self) -> (r: usize)
        ensures
            r == self.spec_tracks().len() - 1,
    {
        proof {
            use_type_invariant(self);
        }
        self.tracks.len() - 1
    }

    /// Is the current track the last track?
    pub fn is_last_track(&self) -> (r: bool)
        ensures
            r == (self.spec_curr_index() == self.spec_tracks().len() - 1),
    {
        self.curr_index == self.last_track_index()
    }

    /// Has the current time reached the end of the current track?
    pub fn is_track_end(&self) -> (r: bool)
        ensures
            r == (self.spec_curr_time()@ >= self.spec_tracks()[self.spec_curr_index() as int].spec_duration()),
    {
        proof {
            use_type_invariant(self);
        }
        !self.curr_time.lt(&self.tracks[self.curr_index].duration())
    }

    /// Is the timeline on its last track, at that track's end?
    pub fn is_complete(&self) -> (r: bool)
        ensures
            r == self.spec_complete(),
    {
        self.is_last_track() && self.is_track_end()
    }

    /// Sets the target time of the target track, clamped to
    /// `0..=duration` of that track.
    pub fn set_target_time(&mut self, target_time: Duration) -> (r: &mut Self)
        ensures
            Self::spec_target_time_set(*old(self), *r, target_time@),
            *final(self) == *final(r),
    {
        proof {
            use_type_invariant(&*self);
        }
        let duration = self.tracks[self.target_index].duration();
        self.target_time = target_time.min(duration);
        self
    }

    /// Steps forward by `time`, clamped at the track's end.
    pub fn advance_time(&mut self, time: Duration) -> (r: &mut Self)
        ensures
            Self::spec_target_time_set(
                *old(self),
                *r,
                crate::time::sat_add(old(self).spec_target_time()@, time@),
            ),
            *final(self) == *final(r),
    {
        let target_time = self.target_time.saturating_add(time);
        self.set_target_time(target_time)
    }

    /// Steps backward by `time`, saturating at zero, clamped at the
    /// track's end.
    pub fn rewind_time(&mut self, time: Duration) -> (r: &mut Self)
        ensures
            Self::spec_target_time_set(*old(self), *r, sat_sub(old(self).spec_target_time()@, time@)),
            *final(self) == *final(r),
    {
        let target_time = self.target_time.saturating_sub(time);
        self.set_target_time(target_time)
    }

    /// Sets the target track index, clamped to `0..=last`.
    pub fn set_target_track(&mut self, target_index: usize) -> (r: &mut Self)
        ensures
            Self::spec_target_track_set(*old(self), *r, target_index),
            *final(self) == *final(r),
    {
        proof {
            use_type_invariant(&*self);
        }
        let max_index = self.last_track_index();
        self.target_index = if target_index > max_index { max_index } else { target_index };
        self
    }
}

impl Timeline {
    /// The samples queued for this frame, keyed by lane, in queue order.
    pub open spec fn spec_queue_map(self) -> Map<KeyView, QueuedSample> {
        pairs_map(self.spec_queue())
    }

    /// Every clip dropped across the tracks to resolve overlapping
    /// actions on aliasing field paths, track by track.
    pub fn conflicts(&self) -> (r: Vec<FieldConflict>)
        ensures
            r@ == self.spec_tracks().map_values(|t: Track| t.spec_conflicts()).flatten_alt(),
    {
        let ghost all = self.tracks@.map_values(|t: Track| t.spec_conflicts());
        let mut out: Vec<FieldConflict> = Vec::new();
        let mut t: usize = 0;
        proof {
            assert(all.take(0) =~= Seq::<Seq<FieldConflict>>::empty());
        }
        while t < self.tracks.len()
            invariant
                0 <= t <= self.tracks@.len(),
                all == self.tracks@.map_values(|t: Track| t.spec_conflicts()),
                out@ == all.take(t as int).flatten_alt(),
            decreases self.tracks@.len() - t,
        {
            let list = self.tracks[t].conflicts();
            let ghost before = out@;
            let mut c: usize = 0;
            while c < list.len()
                invariant
                    0 <= c <= list@.len(),
                    out@ == before + list@.take(c as int),
                decreases list@.len() - c,
            {
                out.push(list[c]);
                proof {
                    assert(list@.take(c + 1) =~= list@.take(c as int).push(list@[c as int]));
                    assert(out@ =~= before + list@.take(c + 1));
                }
                c = c + 1;
            }
            proof {
                assert(list@.take(list@.len() as int) =~= list@);
                assert(all.take(t + 1).drop_last() =~= all.take(t as int));
                assert(all.take(t + 1).last() == list@);
            }
            t = t + 1;
        }
        proof {
            assert(all.take(self.tracks@.len() as int) =~= all);
        }
        out
    }

    /// The queued samples in the order they are to be written.
    pub fn queued(&self) -> (r: Vec<(ActionKey, QueuedSample)>)
        ensures
            r@.map_values(|e: (ActionKey, QueuedSample)| (e.0@, e.1)) == self.spec_queue(),
    {
        crate::queue::queue_entries(&self.queue)
    }

    /// Determines which actions are active at the target time and
    /// queues a sample for each lane the move from the current time
    /// touches.
    ///
    /// When the target track differs from the current one, every lane
    /// of the tracks passed over gets its boundary sample first (going
    /// forward: the end of its last clip; going back: the start of its
    /// first clip), and playback restarts from the start (forward) or
    /// the end (back) of the target track. Then each lane of the target
    /// track that the move touched gets the sample of the playhead:
    /// the clip holding it, interpolated, or the nearest clip's start
    /// or end. The queue is ordered farthest keyframe first, so that
    /// writes to aliasing memory end on the value nearest the playhead.
    pub fn queue_actions(&mut self)
        ensures
            Self::spec_played(*old(self), *final(self)),
    {
        proof {
            use_type_invariant(&*self);
        }
        let ghost tracks = self.tracks@;
        let ghost curr0 = self.curr_index;
        let ghost time0 = self.curr_time;
        let mut queue = crate::queue::queue_new();
        core::mem::swap(&mut queue, &mut self.queue);
        queue_clear(&mut queue);
        proof {
            assert(pairs_map(queue_items(queue)) =~= Map::empty());
        }
        let mut curr_time = self.curr_time;
        let target_index = self.target_index;
        let curr_index = self.curr_index;
        if target_index != curr_index {
            if target_index > curr_index {
                curr_time = Duration::zero();
                queue_boundaries(&mut queue, &self.tracks, curr_index, target_index, true);
            } else {
                curr_time = self.tracks[target_index].duration();
                let n = self.tracks.len();
                assert(curr_index < n);
                queue_boundaries(&mut queue, &self.tracks, target_index + 1, curr_index + 1, false);
            }
        }
        let ghost boundary = pairs_map(queue_items(queue));
        let target_time = self.target_time;
        let lo = curr_time.min(target_time);
        let hi = curr_time.max(target_time);
        let outcomes = queue_playhead(&mut queue, &self.tracks[target_index], target_time, lo, hi);
        let ghost unsorted = queue_items(queue);
        queue_sort_by_distance(&mut queue, target_time);
        proof {
            lemma_permuted_pairs(unsorted, queue_items(queue));
            if target_index == curr_index {
                assert(boundary =~= Map::<KeyView, QueuedSample>::empty().union_prefer_right(
                    Map::empty(),
                ));
            }
            assert(boundary == (if target_index > curr_index {
                boundary_samples(tracks, curr_index as int, target_index as int, true)
            } else if target_index < curr_index {
                boundary_samples(tracks, target_index + 1, curr_index + 1, false)
            } else {
                Map::empty()
            }));
        }
        self.queue = queue;
        self.curr_index = target_index;
        self.curr_time = target_time;
        proof {
            let lanes = tracks[target_index as int].spec_lanes();
            assert(tracks == old(self).spec_tracks());
            assert(curr0 == old(self).spec_curr_index());
            assert(time0 == old(self).spec_curr_time());
            assert(target_index == old(self).spec_target_index());
            assert(target_time == old(self).spec_target_time());
            assert(queued_for(
                tracks,
                curr0 as int,
                target_index as int,
                time0,
                target_time,
                outcomes@,
                self.spec_queue_map(),
            ));
        }
    }
}

/// Seeking to `time` and playing lands the timeline on the target
/// track at `time`, clamped to that track's duration.
pub proof fn lemma_seek_lands_on_clamped_target(
    before: Timeline,
    sought: Timeline,
    after: Timeline,
    time: Duration,
)
    requires
        Timeline::spec_target_time_set(before, sought, time@),
        Timeline::spec_played(sought, after),
    ensures
        after.spec_curr_index() == before.spec_target_index(),
        after.spec_curr_time()@ == nat_min(
            time@,
            before.spec_tracks()[before.spec_target_index() as int].spec_duration(),
        ),
{
}

/// Seeking to the last track, at or past its end, and playing
/// completes the timeline.
pub proof fn lemma_seek_past_end_completes(
    before: Timeline,
    on_track: Timeline,
    sought: Timeline,
    after: Timeline,
    index: usize,
    time: Duration,
)
    requires
        before.spec_tracks().len() >= 1,
        index >= before.spec_tracks().len() - 1,
        Timeline::spec_target_track_set(before, on_track, index),
        time@ >= before.spec_tracks().last().spec_duration(),
        Timeline::spec_target_time_set(on_track, sought, time@),
        Timeline::spec_played(sought, after),
    ensures
        after.spec_complete(),
{
}

/// The boundary samples of the tracks passed over are never
/// interpolated: each is a clip's start or end.
proof fn lemma_boundary_not_interp(tracks: Seq<Track>, lo: int, hi: int, from_end: bool, k: KeyView)
    requires
        boundary_samples(tracks, lo, hi, from_end).contains_key(k),
    ensures
        !(boundary_samples(tracks, lo, hi, from_end)[k].mode is Interp),
    decreases hi - lo,
{
    if hi > lo {
        let t = track_boundary(tracks[hi - 1], from_end);
        if !t.contains_key(k) {
            lemma_boundary_not_interp(tracks, lo, hi - 1, from_end, k);
        }
    }
}

/// The queued sample `entry` interpolates clip `j` of its lane: the clip
/// carries the sample's id and holds the time `target`, and the sample's
/// progress is measured from that clip's own start, up to its duration.
pub open spec fn interpolates_clip(
    lanes: Map<KeyView, Seq<ActionClip>>,
    entry: (KeyView, QueuedSample),
    target: nat,
    j: int,
) -> bool {
    let lane = lanes[entry.0];
    let c = lane[j];
    let p = entry.1.mode->0;
    &&& lanes.contains_key(entry.0)
    &&& 0 <= j < lane.len()
    &&& c.id == entry.1.id
    &&& c.start@ <= target <= c.spec_end()
    &&& p.elapsed@ == target - c.start@
    &&& p.elapsed@ <= c.duration@
    &&& p.span == c.duration
}

/// After playing, each lane is queued at most once, and every
/// interpolated sample in the queue is keyed at the target time and is
/// the progress of a clip of that lane on the target track that holds
/// the target time, measured from that clip's own start: its elapsed
/// time is the target time less the clip's start, at most the clip's
/// duration, and its span is the clip's duration.
pub proof fn lemma_played_queue_shape(before: Timeline, after: Timeline)
    requires
        Timeline::spec_played(before, after),
    ensures
        pairs_keys_distinct(after.spec_queue()),
        forall|i: int|
            0 <= i < after.spec_queue().len() && (#[trigger] after.spec_queue()[i]).1.mode is Interp
                ==> after.spec_queue()[i].1.keyframe == before.spec_target_time(),
        forall|i: int|
            0 <= i < after.spec_queue().len() && (#[trigger] after.spec_queue()[i]).1.mode is Interp
                ==> exists|j: int|
                #[trigger] interpolates_clip(
                    before.spec_tracks()[before.spec_target_index() as int].spec_lanes(),
                    after.spec_queue()[i],
                    before.spec_target_time()@,
                    j,
                ),
{
    let q = after.spec_queue();
    crate::queue::lemma_pairs_index(q);
    let outcomes = choose|outcomes: Map<KeyView, Result<usize, usize>>|
        #[trigger] queued_for(
            before.spec_tracks(),
            before.spec_curr_index() as int,
            before.spec_target_index() as int,
            before.spec_curr_time(),
            before.spec_target_time(),
            outcomes,
            after.spec_queue_map(),
        );
    let tracks = before.spec_tracks();
    let curr = before.spec_curr_index() as int;
    let target = before.spec_target_index() as int;
    let tt = before.spec_target_time();
    let start = if target > curr {
        0
    } else if target < curr {
        tracks[target].spec_duration()
    } else {
        before.spec_curr_time()@
    };
    let lanes = tracks[target].spec_lanes();
    let lo = nat_min(start, tt@);
    let hi = nat_max(start, tt@);
    let played = played_samples(lanes, tt, lo, hi, outcomes);
    let boundary = if target > curr {
        boundary_samples(tracks, curr, target, true)
    } else if target < curr {
        boundary_samples(tracks, target + 1, curr + 1, false)
    } else {
        Map::empty()
    };
    assert(after.spec_queue_map() == boundary.union_prefer_right(played));
    assert forall|i: int|
        0 <= i < q.len() && (#[trigger] q[i]).1.mode is Interp implies {
            &&& q[i].1.keyframe == tt
            &&& exists|j: int| #[trigger] interpolates_clip(lanes, q[i], tt@, j)
        } by {
        let k = q[i].0;
        assert(pairs_map(q).contains_key(q[i].0));
        assert(after.spec_queue_map()[k] == q[i].1);
        if !played.contains_key(k) {
            assert(boundary.contains_key(k));
            if target > curr {
                lemma_boundary_not_interp(tracks, curr, target, true, k);
            } else if target < curr {
                lemma_boundary_not_interp(tracks, target + 1, curr + 1, false, k);
            }
        }
        assert(played.contains_key(k));
        assert(q[i].1 == played[k]);
        let clips = lanes[k];
        assert(lanes.contains_key(k));
        assert(spans_meet(clips[0].start@, clips.last().spec_end(), lo, hi));
        assert(search_valid(clips, tt@, outcomes[k]));
        match outcomes[k] {
            Ok(idx) => {
                let c = clips[idx as int];
                assert(c.spec_end() <= crate::time::max_nanos());
                Duration::lemma_from_nanos_view(sat_sub(tt@, c.start@));
                assert(q[i].1.mode->0.elapsed@ == tt@ - c.start@);
                assert(q[i].1.mode->0.elapsed@ <= c.duration@);
                assert(clips[idx as int] == c);
                assert(interpolates_clip(lanes, q[i], tt@, idx as int));
            },
            Err(idx) => {
                assert(false);
            },
        }
    }
}

} // verus!
