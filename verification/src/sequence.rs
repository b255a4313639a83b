//! A sequence of [`ActionClip`]s on one field of one subject, held in a
//! `nonempty::NonEmpty` list.

use nonempty::NonEmpty;
use vstd::prelude::*;

use crate::action::ActionClip;
use crate::time::{sat_add, sat_sub, Duration};

verus! {

/// `nonempty::NonEmpty`, a list with at least one element.
#[verifier::external_type_specification]
#[verifier::external_body]
#[verifier::reject_recursive_types(T)]
pub struct ExNonEmpty<T>(NonEmpty<T>);

/// The clips a `NonEmpty<ActionClip>` holds, first to last.
pub uninterp spec fn clip_items(list: NonEmpty<ActionClip>) -> Seq<ActionClip>;

/// Calls `NonEmpty::new`: a list holding just `clip`.
#[verifier::external_body]
fn clips_new(clip: ActionClip) -> (r: NonEmpty<ActionClip>)
    ensures
        clip_items(r) == seq![clip],
{
    NonEmpty::new(clip)
}

/// Calls `NonEmpty::len`: the number of clips, never zero.
#[verifier::external_body]
fn clips_len(list: &NonEmpty<ActionClip>) -> (r: usize)
    ensures
        r == clip_items(*list).len(),
        r >= 1,
{
    list.len()
}

/// Calls `NonEmpty::get` at an index in bounds and copies the clip.
#[verifier::external_body]
fn clips_get(list: &NonEmpty<ActionClip>, index: usize) -> (r: ActionClip)
    requires
        index < clip_items(*list).len(),
    ensures
        r == clip_items(*list)[index as int],
{
    *list.get(index).unwrap()
}

/// Calls `NonEmpty::push`: appends `clip` at the end.
#[verifier::external_body]
fn clips_push(list: &mut NonEmpty<ActionClip>, clip: ActionClip)
    ensures
        clip_items(*final(list)) == clip_items(*old(list)).push(clip),
{
    list.push(clip)
}

/// Calls `<NonEmpty as Extend>::extend`: appends `clips` in order.
#[verifier::external_body]
fn clips_extend(list: &mut NonEmpty<ActionClip>, clips: Vec<ActionClip>)
    ensures
        clip_items(*final(list)) == clip_items(*old(list)) + clips@,
{
    list.extend(clips)
}

/// Calls `<Vec as From<NonEmpty>>::from`: the clips as a `Vec`, in
/// order.
#[verifier::external_body]
fn clips_into_vec(list: NonEmpty<ActionClip>) -> (r: Vec<ActionClip>)
    ensures
        r@ == clip_items(list),
{
    Vec::from(list)
}

/// Calls `<NonEmpty as Clone>::clone`, which the crate derives: the
/// same clips in the same order.
#[verifier::external_body]
fn clips_clone(list: &NonEmpty<ActionClip>) -> (r: NonEmpty<ActionClip>)
    ensures
        clip_items(r) == clip_items(*list),
{
    list.clone()
}

/// Calls `NonEmpty::from_vec`: `None` for an empty `Vec`, otherwise a
/// list of the same clips in the same order.
#[verifier::external_body]
fn clips_from_vec(clips: Vec<ActionClip>) -> (r: Option<NonEmpty<ActionClip>>)
    ensures
        r is Some <==> clips@.len() > 0,
        r matches Some(list) ==> clip_items(list) == clips@,
{
    NonEmpty::from_vec(clips)
}

/// `clip` moved later by `delay`, saturating.
pub open spec fn delayed_clip(clip: ActionClip, delay: nat) -> ActionClip {
    ActionClip { start: Duration::spec_from_nanos(sat_add(clip.start@, delay)), ..clip }
}

/// A clip that breaks the order or the non-overlap of a [`Sequence`].
#[derive(Debug, Clone, Copy, PartialEq, Eq)]
pub enum ClipConflict {
    /// The clip at `index` starts before the clip listed ahead of it.
    StartsBeforePrevious { index: usize },
    /// The clip at `index` overlaps the earlier-listed clip at `before`.
    Overlaps { index: usize, before: usize },
}

/// The overlaps of the clip at `index` with the clips at `0..upto`,
/// in order.
pub open spec fn overlaps_before(clips: Seq<ActionClip>, index: int, upto: int) -> Seq<ClipConflict>
    decreases upto,
{
    if upto <= 0 {
        Seq::empty()
    } else {
        let earlier = overlaps_before(clips, index, upto - 1);
        let b = clips[upto - 1];
        let c = clips[index];
        if c.start@ < b.spec_end() && b.start@ < c.spec_end() {
            earlier.push(ClipConflict::Overlaps { index: index as usize, before: (upto - 1) as usize })
        } else {
            earlier
        }
    }
}

/// The conflicts of the clip at `index`: starting before the clip
/// ahead of it, then each overlap with an earlier-listed clip.
pub open spec fn conflicts_of(clips: Seq<ActionClip>, index: int) -> Seq<ClipConflict> {
    (if index >= 1 && clips[index].start@ < clips[index - 1].start@ {
        seq![ClipConflict::StartsBeforePrevious { index: index as usize }]
    } else {
        Seq::empty()
    }) + overlaps_before(clips, index, index)
}

/// The conflicts of the clips at `from..to`, clip by clip.
pub open spec fn conflicts_between(clips: Seq<ActionClip>, from: int, to: int) -> Seq<ClipConflict>
    decreases to - from,
{
    if to <= from {
        Seq::empty()
    } else {
        conflicts_between(clips, from, to - 1) + conflicts_of(clips, to - 1)
    }
}

/// No clip at `0..upto` reaches past the start of the clip at `index`,
/// so it overlaps none of them.
proof fn lemma_no_overlaps_before(clips: Seq<ActionClip>, index: int, upto: int)
    requires
        0 <= index < clips.len(),
        upto <= clips.len(),
        forall|j: int| 0 <= j < upto ==> #[trigger] clips[j].spec_end() <= clips[index].start@,
    ensures
        overlaps_before(clips, index, upto) == Seq::<ClipConflict>::empty(),
    decreases upto,
{
    if upto > 0 {
        lemma_no_overlaps_before(clips, index, upto - 1);
        assert(clips[upto - 1].spec_end() <= clips[index].start@);
    }
}

/// A sequence of [`ActionClip`]s for one field; meant to be
/// non-overlapping and in start-time order. It is never empty.
#[derive(Debug)]
pub struct Sequence {
    pub clips: NonEmpty<ActionClip>,
}

impl View for Sequence {
    type V = Seq<ActionClip>;

    open spec fn view(&self) -> Seq<ActionClip> {
        clip_items(self.clips)
    }
}

impl Clone for Sequence {
    fn clone(&self) -> (r: Self)
        ensures
            r@ == self@,
    {
        Sequence { clips: clips_clone(&self.clips) }
    }
}

impl Sequence {
    /// A sequence of a single clip.
    pub fn new(span: ActionClip) -> (r: Self)
        ensures
            r@ == seq![span],
    {
        Self { clips: clips_new(span) }
    }

    /// The number of clips, at least one.
    pub fn len(&self) -> (r: usize)
        ensures
            r == self@.len(),
            r >= 1,
    {
        clips_len(&self.clips)
    }

    /// Every sequence holds at least one clip.
    pub fn nonempty(&self)
        ensures
            self@.len() >= 1,
    {
        let _ = clips_len(&self.clips);
    }

    /// The clip at `index`.
    pub fn get(&self, index: usize) -> (r: ActionClip)
        requires
            index < self@.len(),
        ensures
            r == self@[index as int],
    {
        clips_get(&self.clips, index)
    }

    /// The start time of the first clip.
    pub fn start(&self) -> (r: Duration)
        ensures
            self@.len() >= 1,
            r == self@[0].start,
    {
        self.nonempty();
        clips_get(&self.clips, 0).start
    }

    /// The end time of the last clip.
    pub fn end(&self) -> (r: Duration)
        ensures
            self@.len() >= 1,
            r@ == self@.last().spec_end(),
    {
        let n = clips_len(&self.clips);
        clips_get(&self.clips, n - 1).end()
    }

    /// The span from the first clip's start to the last clip's end.
    pub fn duration(&self) -> (r: Duration)
        ensures
            self@.len() >= 1,
            r@ == sat_sub(self@.last().spec_end(), self@[0].start@),
    {
        self.end().saturating_sub(self.start())
    }

    /// The clips, first to last.
    pub fn into_clips(self) -> (r: Vec<ActionClip>)
        ensures
            r@ == self@,
    {
        clips_into_vec(self.clips)
    }

    /// Moves every clip later by `duration`, saturating.
    pub fn delay(&mut self, duration: Duration)
        ensures
            final(self)@.len() == old(self)@.len(),
            forall|i: int|
                0 <= i < old(self)@.len() ==> #[trigger] final(self)@[i] == delayed_clip(
                    old(self)@[i],
                    duration@,
                ),
    {
        self.nonempty();
        let placeholder = self.get(0);
        let mut list = clips_new(placeholder);
        core::mem::swap(&mut self.clips, &mut list);
        let mut clips = clips_into_vec(list);
        let ghost before = clips@;
        let n = clips.len();
        let mut i: usize = 0;
        while i < n
            invariant
                n == clips@.len(),
                n == before.len(),
                0 <= i <= n,
                forall|j: int| 0 <= j < i ==> #[trigger] clips@[j] == delayed_clip(before[j], duration@),
                forall|j: int| i <= j < n ==> #[trigger] clips@[j] == before[j],
            decreases n - i,
        {
            let mut clip = clips[i];
            clip.start = clip.start.saturating_add(duration);
            proof {
                Duration::lemma_from_nanos(clip.start);
            }
            clips.set(i, clip);
            i = i + 1;
        }
        match clips_from_vec(clips) {
            Some(list) => {
                self.clips = list;
            },
            None => {},
        }
    }

    /// Appends a clip.
    pub fn push(&mut self, span: ActionClip)
        ensures
            final(self)@ == old(self)@.push(span),
    {
        clips_push(&mut self.clips, span);
    }

    /// Appends every clip of `other`, in order.
    pub fn extend(&mut self, other: Sequence)
        ensures
            final(self)@ == old(self)@ + other@,
    {
        let clips = other.into_clips();
        clips_extend(&mut self.clips, clips);
    }

    /// The conflicts that the clips from `first_new` on bring: each
    /// clip that starts before the clip listed ahead of it, and each
    /// earlier-listed clip that a clip overlaps.
    pub fn report_conflicts_from(&self, first_new: usize) -> (r: Vec<ClipConflict>)
        ensures
            r@ == conflicts_between(self@, first_new as int, self@.len() as int),
    {
        let n = self.len();
        let ghost clips = self@;
        let mut out: Vec<ClipConflict> = Vec::new();
        let mut max_end = Duration::zero();
        let mut k: usize = 0;
        let start = if first_new < n { first_new } else { n };
        while k < start
            invariant
                clips == self@,
                n == clips.len(),
                start <= n,
                0 <= k <= start,
                forall|j: int| 0 <= j < k ==> #[trigger] clips[j].spec_end() <= max_end@,
            decreases start - k,
        {
            max_end = max_end.max(self.get(k).end());
            k = k + 1;
        }
        let mut index: usize = start;
        proof {
            assert(conflicts_between(clips, first_new as int, index as int) =~= Seq::<ClipConflict>::empty());
        }
        while index < n
            invariant
                clips == self@,
                n == clips.len(),
                start <= index <= n,
                first_new <= n ==> start == first_new,
                first_new > n ==> start == n,
                forall|j: int| 0 <= j < index ==> #[trigger] clips[j].spec_end() <= max_end@,
                out@ == conflicts_between(clips, first_new as int, index as int),
            decreases n - index,
        {
            let clip = self.get(index);
            let ghost before_out = out@;
            if index >= 1 {
                let prev = self.get(index - 1);
                if clip.start.lt(&prev.start) {
                    out.push(ClipConflict::StartsBeforePrevious { index });
                }
            }
            let ghost head = out@;
            if clip.start.lt(&max_end) {
                let mut b: usize = 0;
                while b < index
                    invariant
                        clips == self@,
                        n == clips.len(),
                        index < n,
                        clip == clips[index as int],
                        0 <= b <= index,
                        out@ == head + overlaps_before(clips, index as int, b as int),
                    decreases index - b,
                {
                    let before = self.get(b);
                    if clip.start.lt(&before.end()) && before.start.lt(&clip.end()) {
                        out.push(ClipConflict::Overlaps { index, before: b });
                    }
                    b = b + 1;
                }
            } else {
                proof {
                    lemma_no_overlaps_before(clips, index as int, index as int);
                    assert(out@ =~= head + overlaps_before(clips, index as int, index as int));
                }
            }
            proof {
                assert(out@ =~= before_out + conflicts_of(clips, index as int));
            }
            max_end = max_end.max(clip.end());
            index = index + 1;
        }
        out
    }
}

} // verus!
