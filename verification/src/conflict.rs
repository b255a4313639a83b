//! Conflict resolution between actions on aliasing field paths: a clip
//! that a later-authored action on an aliasing field of the same
//! subject overlaps in time is dropped, whole.

use hashbrown::HashSet;
use vstd::prelude::*;

use crate::action::{
    paths_alias, spec_paths_alias, ActionClip, ActionId, ActionKey, FieldKey, KeyView,
};
use crate::time::{nat_max, nat_min, Range};
use crate::sequence::{clip_items, Sequence};
use crate::track::{entries_keys_distinct, entry_views, lanes_of_entries};

verus! {

/// Two keys name the same subject and the same source type, and their
/// field paths alias in memory.
pub open spec fn keys_alias(ka: KeyView, kb: KeyView) -> bool {
    &&& ka.0 == kb.0
    &&& ka.1.0 == kb.1.0
    &&& spec_paths_alias(vstd::utf8::encode_utf8(ka.1.2), vstd::utf8::encode_utf8(kb.1.2))
}

/// `cb` was authored after `ca` and the two share a span of positive
/// length.
pub open spec fn clips_conflict(ca: ActionClip, cb: ActionClip) -> bool {
    &&& ca.id@ < cb.id@
    &&& ca.start@ < cb.spec_end()
    &&& cb.start@ < ca.spec_end()
}

/// Clip `c` on the lane of `ka` is overruled by some clip on an
/// aliasing lane.
pub open spec fn clip_overruled(lanes: Map<KeyView, Seq<ActionClip>>, ka: KeyView, c: ActionClip) -> bool {
    exists|kb: KeyView, j: int|
        #![trigger lanes[kb][j]]
        lanes.contains_key(kb) && keys_alias(ka, kb) && 0 <= j < lanes[kb].len() && clips_conflict(
            c,
            lanes[kb][j],
        )
}

/// The ids of every overruled clip.
pub open spec fn dropped_ids(lanes: Map<KeyView, Seq<ActionClip>>) -> Set<ActionId> {
    Set::new(
        |id: ActionId|
            exists|ka: KeyView, i: int|
                #![trigger lanes[ka][i]]
                lanes.contains_key(ka) && 0 <= i < lanes[ka].len() && lanes[ka][i].id == id
                    && clip_overruled(lanes, ka, lanes[ka][i]),
    )
}

/// The clips whose id is not dropped, in order.
pub open spec fn keep_clips(clips: Seq<ActionClip>, dropped: Set<ActionId>) -> Seq<ActionClip>
    decreases clips.len(),
{
    if clips.len() == 0 {
        Seq::empty()
    } else {
        let kept = keep_clips(clips.drop_last(), dropped);
        if dropped.contains(clips.last().id) {
            kept
        } else {
            kept.push(clips.last())
        }
    }
}

/// The lanes once every dropped clip is gone; a lane left with no
/// clips is gone too.
pub open spec fn resolved_lanes(lanes: Map<KeyView, Seq<ActionClip>>) -> Map<KeyView, Seq<ActionClip>> {
    Map::new(
        |k: KeyView| lanes.contains_key(k) && keep_clips(lanes[k], dropped_ids(lanes)).len() > 0,
        |k: KeyView| keep_clips(lanes[k], dropped_ids(lanes)),
    )
}

/// A clip that `keep_clips` keeps is one of its input's, at the
/// returned index, and its id is not dropped.
proof fn lemma_keep_clips_member(clips: Seq<ActionClip>, dropped: Set<ActionId>, i: int) -> (j: int)
    requires
        0 <= i < keep_clips(clips, dropped).len(),
    ensures
        0 <= j < clips.len(),
        clips[j] == keep_clips(clips, dropped)[i],
        !dropped.contains(keep_clips(clips, dropped)[i].id),
    decreases clips.len(),
{
    let kept = keep_clips(clips.drop_last(), dropped);
    if dropped.contains(clips.last().id) {
        let j = lemma_keep_clips_member(clips.drop_last(), dropped, i);
        assert(clips[j] == clips.drop_last()[j]);
        j
    } else if i < kept.len() {
        let j = lemma_keep_clips_member(clips.drop_last(), dropped, i);
        assert(clips[j] == clips.drop_last()[j]);
        j
    } else {
        (clips.len() - 1) as int
    }
}

/// Every clip that survives resolution is one of the input's, on the
/// same lane, at the returned index; its id is not among the dropped.
pub proof fn lemma_resolved_clip_from_lanes(lanes: Map<KeyView, Seq<ActionClip>>, k: KeyView, i: int) -> (j: int)
    requires
        resolved_lanes(lanes).contains_key(k),
        0 <= i < resolved_lanes(lanes)[k].len(),
    ensures
        lanes.contains_key(k),
        0 <= j < lanes[k].len(),
        lanes[k][j] == resolved_lanes(lanes)[k][i],
        !dropped_ids(lanes).contains(resolved_lanes(lanes)[k][i].id),
{
    lemma_keep_clips_member(lanes[k], dropped_ids(lanes), i)
}

/// After resolution, no surviving clip is overlapped by a
/// later-authored surviving clip on an aliasing lane of the same
/// subject.
pub proof fn lemma_resolved_lanes_conflict_free(
    lanes: Map<KeyView, Seq<ActionClip>>,
    ka: KeyView,
    kb: KeyView,
    i: int,
    j: int,
)
    requires
        resolved_lanes(lanes).contains_key(ka),
        resolved_lanes(lanes).contains_key(kb),
        keys_alias(ka, kb),
        0 <= i < resolved_lanes(lanes)[ka].len(),
        0 <= j < resolved_lanes(lanes)[kb].len(),
    ensures
        !clips_conflict(resolved_lanes(lanes)[ka][i], resolved_lanes(lanes)[kb][j]),
{
    let ca = resolved_lanes(lanes)[ka][i];
    let cb = resolved_lanes(lanes)[kb][j];
    let ia = lemma_resolved_clip_from_lanes(lanes, ka, i);
    let jb = lemma_resolved_clip_from_lanes(lanes, kb, j);
    if clips_conflict(ca, cb) {
        assert(lanes[kb][jb] == cb);
        assert(clip_overruled(lanes, ka, ca));
        assert(lanes[ka][ia] == ca);
        assert(dropped_ids(lanes).contains(ca.id));
    }
}

/// Lanes alias only within one subject and one source type, and only
/// where their field paths alias.
pub proof fn lemma_keys_alias_within_subject(ka: KeyView, kb: KeyView)
    requires
        keys_alias(ka, kb),
    ensures
        ka.0 == kb.0,
        ka.1.0 == kb.1.0,
        spec_paths_alias(vstd::utf8::encode_utf8(ka.1.2), vstd::utf8::encode_utf8(kb.1.2)),
{
}

/// Keeping the clips of no dropped id keeps them all.
proof fn lemma_keep_all(clips: Seq<ActionClip>)
    ensures
        keep_clips(clips, Set::empty()) == clips,
    decreases clips.len(),
{
    if clips.len() > 0 {
        lemma_keep_all(clips.drop_last());
        assert(clips.drop_last().push(clips.last()) =~= clips);
    }
}

/// Clips of different subjects never overrule each other: where no
/// clip overlaps a later-authored clip on an aliasing path of the same
/// subject and source type, nothing is dropped, every lane is kept as
/// it is, and a report of the resolution is empty.
pub proof fn lemma_nothing_dropped_without_same_subject_overlap(lanes: Map<KeyView, Seq<ActionClip>>)
    requires
        forall|k: KeyView| #[trigger] lanes.contains_key(k) ==> lanes[k].len() > 0,
        forall|ka: KeyView, kb: KeyView, i: int, j: int|
            #![trigger lanes[ka][i], lanes[kb][j]]
            lanes.contains_key(ka) && lanes.contains_key(kb) && ka.0 == kb.0 && ka.1.0 == kb.1.0
                && spec_paths_alias(vstd::utf8::encode_utf8(ka.1.2), vstd::utf8::encode_utf8(kb.1.2))
                && 0 <= i < lanes[ka].len() && 0 <= j < lanes[kb].len() ==> !(lanes[ka][i].id@
                < lanes[kb][j].id@ && lanes[ka][i].start@ < lanes[kb][j].spec_end() && lanes[kb][j].start@
                < lanes[ka][i].spec_end()),
    ensures
        dropped_ids(lanes) == Set::<ActionId>::empty(),
        resolved_lanes(lanes) == lanes,
        forall|report: Seq<FieldConflict>| #[trigger] report_valid(lanes, report) ==> report.len() == 0,
{
    assert forall|id: ActionId| !dropped_ids(lanes).contains(id) by {
        if dropped_ids(lanes).contains(id) {
            let (ka, i) = choose|ka: KeyView, i: int|
                #![trigger lanes[ka][i]]
                lanes.contains_key(ka) && 0 <= i < lanes[ka].len() && lanes[ka][i].id == id
                    && clip_overruled(lanes, ka, lanes[ka][i]);
            let (kb, j) = choose|kb: KeyView, j: int|
                #![trigger lanes[kb][j]]
                lanes.contains_key(kb) && keys_alias(ka, kb) && 0 <= j < lanes[kb].len()
                    && clips_conflict(lanes[ka][i], lanes[kb][j]);
            assert(false);
        }
    }
    assert(dropped_ids(lanes) =~= Set::<ActionId>::empty());
    assert forall|k: KeyView| lanes.contains_key(k) implies keep_clips(lanes[k], dropped_ids(lanes))
        == lanes[k] by {
        lemma_keep_all(lanes[k]);
    }
    assert(resolved_lanes(lanes) =~= lanes);
    assert forall|report: Seq<FieldConflict>| #[trigger] report_valid(lanes, report) implies report.len()
        == 0 by {
        if report.len() > 0 {
            assert(report[0].dropped == report[0].dropped);
            assert(dropped_ids(lanes).contains(report[0].dropped));
        }
    }
}

/// A clip dropped when a track compiles, because a later action on an
/// aliasing field path of the same subject overlapped it.
#[derive(Debug, Clone, Copy)]
pub struct FieldConflict {
    pub dropped: ActionId,
    pub dropped_field: FieldKey,
    /// Time span of the dropped clip.
    pub dropped_span: Range,
    pub winner: ActionId,
    pub winner_field: FieldKey,
    /// Where the two clips overlapped.
    pub overlap: Range,
}

/// `c` reports clip `ca` on lane `ka` as overruled by clip `cb` on
/// lane `kb`.
pub open spec fn conflict_between(c: FieldConflict, ka: KeyView, ca: ActionClip, kb: KeyView, cb: ActionClip) -> bool {
    &&& keys_alias(ka, kb)
    &&& clips_conflict(ca, cb)
    &&& c.dropped == ca.id
    &&& c.dropped_field@ == ka.1
    &&& c.dropped_span.start == ca.start
    &&& c.dropped_span.end@ == ca.spec_end()
    &&& c.winner == cb.id
    &&& c.winner_field@ == kb.1
    &&& c.overlap.start@ == nat_max(ca.start@, cb.start@)
    &&& c.overlap.end@ == nat_min(ca.spec_end(), cb.spec_end())
}

/// `c` reports a clip of the lanes that a clip of an aliasing lane
/// overrules.
pub open spec fn conflict_describes(lanes: Map<KeyView, Seq<ActionClip>>, c: FieldConflict) -> bool {
    exists|ka: KeyView, i: int, kb: KeyView, j: int|
        #![trigger lanes[ka][i], lanes[kb][j]]
        lanes.contains_key(ka) && 0 <= i < lanes[ka].len() && lanes.contains_key(kb) && 0 <= j
            < lanes[kb].len() && conflict_between(c, ka, lanes[ka][i], kb, lanes[kb][j])
}

/// The report of a conflict resolution: one conflict per dropped id,
/// each naming the dropped clip and a clip that overruled it.
pub open spec fn report_valid(lanes: Map<KeyView, Seq<ActionClip>>, report: Seq<FieldConflict>) -> bool {
    &&& forall|k: int| 0 <= k < report.len() ==> #[trigger] conflict_describes(lanes, report[k])
    &&& forall|k: int, l: int|
        0 <= k < l < report.len() ==> #[trigger] report[k].dropped != #[trigger] report[l].dropped
    &&& forall|id: ActionId|
        #[trigger] dropped_ids(lanes).contains(id) <==> exists|k: int|
            0 <= k < report.len() && #[trigger] report[k].dropped == id
}

/// Entry-list form of [`conflict_describes`].
pub open spec fn entry_conflict_describes(es: Seq<(KeyView, Seq<ActionClip>)>, c: FieldConflict) -> bool {
    exists|a: int, i: int, b: int, j: int|
        #![trigger es[a].1[i], es[b].1[j]]
        0 <= a < es.len() && 0 <= i < es[a].1.len() && 0 <= b < es.len() && 0 <= j < es[b].1.len()
            && conflict_between(c, es[a].0, es[a].1[i], es[b].0, es[b].1[j])
}

/// A set of [`ActionId`]s, held in a `hashbrown::HashSet`.
#[verifier::external_body]
pub struct IdSet {
    inner: HashSet<ActionId>,
}

/// The ids an [`IdSet`] holds.
pub uninterp spec fn id_set_items(set: IdSet) -> Set<ActionId>;

/// Calls `hashbrown::HashSet::new`: no ids.
#[verifier::external_body]
fn ids_new() -> (r: IdSet)
    ensures
        id_set_items(r) =~= Set::empty(),
{
    IdSet { inner: HashSet::new() }
}

/// Calls `hashbrown::HashSet::insert`; true when `id` was not there
/// before.
#[verifier::external_body]
fn ids_insert(set: &mut IdSet, id: ActionId) -> (r: bool)
    ensures
        id_set_items(*final(set)) == id_set_items(*old(set)).insert(id),
        r == !id_set_items(*old(set)).contains(id),
{
    set.inner.insert(id)
}

/// Calls `hashbrown::HashSet::contains`.
#[verifier::external_body]
fn ids_contains(set: &IdSet, id: &ActionId) -> (r: bool)
    ensures
        r == id_set_items(*set).contains(*id),
{
    set.inner.contains(id)
}

/// Entry-list form of [`clip_overruled`].
pub open spec fn entry_overruled(es: Seq<(KeyView, Seq<ActionClip>)>, ka: KeyView, c: ActionClip) -> bool {
    exists|b: int, j: int|
        #![trigger es[b].1[j]]
        0 <= b < es.len() && keys_alias(ka, es[b].0) && 0 <= j < es[b].1.len() && clips_conflict(
            c,
            es[b].1[j],
        )
}

/// Entry-list form of [`dropped_ids`].
pub open spec fn entry_dropped_ids(es: Seq<(KeyView, Seq<ActionClip>)>) -> Set<ActionId> {
    Set::new(
        |id: ActionId|
            exists|a: int, i: int|
                #![trigger es[a].1[i]]
                0 <= a < es.len() && 0 <= i < es[a].1.len() && es[a].1[i].id == id
                    && entry_overruled(es, es[a].0, es[a].1[i]),
    )
}

/// The ids of overruled clips among the entries before lane `a`, clip
/// `i`.
spec fn dropped_before(es: Seq<(KeyView, Seq<ActionClip>)>, a: int, i: int) -> Set<ActionId> {
    Set::new(
        |id: ActionId|
            exists|a2: int, i2: int|
                #![trigger es[a2].1[i2]]
                0 <= a2 < es.len() && 0 <= i2 < es[a2].1.len() && (a2 < a || (a2 == a && i2 < i))
                    && es[a2].1[i2].id == id && entry_overruled(es, es[a2].0, es[a2].1[i2]),
    )
}

/// Whether `key`s lane and another lane alias.
fn keys_alias_exec(ka: &ActionKey, kb: &ActionKey) -> (r: bool)
    ensures
        r == keys_alias(ka@, kb@),
{
    proof {
        ka.lemma_view();
        kb.lemma_view();
    }
    ka.subject_id().same(kb.subject_id()) && crate::action::type_id_eq(
        &ka.field().source_id(),
        &kb.field().source_id(),
    ) && paths_alias(ka.field().field_path(), kb.field().field_path())
}

/// The first clip, in entry order, on an aliasing lane that overrules
/// `clip` of the lane of `key`, with its lane's key; `None` when no
/// clip does.
fn overruling(es: &Vec<(ActionKey, Sequence)>, key: &ActionKey, clip: ActionClip) -> (r: Option<
    (ActionKey, ActionClip),
>)
    ensures
        r is Some == entry_overruled(entry_views(es@), key@, clip),
        r matches Some(w) ==> exists|b: int, j: int|
            #![trigger entry_views(es@)[b].1[j]]
            0 <= b < es@.len() && 0 <= j < entry_views(es@)[b].1.len() && entry_views(es@)[b].0
                == w.0@ && entry_views(es@)[b].1[j] == w.1 && keys_alias(key@, w.0@) && clips_conflict(
                clip,
                w.1,
            ),
{
    let ghost v = entry_views(es@);
    let mut b: usize = 0;
    while b < es.len()
        invariant
            v == entry_views(es@),
            0 <= b <= es.len(),
            forall|b2: int, j: int|
                #![trigger v[b2].1[j]]
                0 <= b2 < b && keys_alias(key@, v[b2].0) && 0 <= j < v[b2].1.len()
                    ==> !clips_conflict(clip, v[b2].1[j]),
        decreases es.len() - b,
    {
        let other = &es[b];
        assert(v[b as int] == (other.0@, other.1@));
        if keys_alias_exec(key, &other.0) {
            let n = other.1.len();
            let mut j: usize = 0;
            while j < n
                invariant
                    v == entry_views(es@),
                    0 <= b < es.len(),
                    other == es@[b as int],
                    v[b as int] == (other.0@, other.1@),
                    n == other.1@.len(),
                    keys_alias(key@, v[b as int].0),
                    0 <= j <= n,
                    forall|j2: int| 0 <= j2 < j ==> !clips_conflict(clip, #[trigger] other.1@[j2]),
                decreases n - j,
            {
                let cb = other.1.get(j);
                if clip.id.lt(&cb.id) && clip.start.lt(&cb.end()) && cb.start.lt(&clip.end()) {
                    assert(clips_conflict(clip, v[b as int].1[j as int]));
                    return Some((other.0, cb));
                }
                j = j + 1;
            }
        }
        b = b + 1;
    }
    None
}

/// The ids of every overruled clip among the entries, with a report
/// of one conflict per dropped id.
fn overruled_ids(es: &Vec<(ActionKey, Sequence)>) -> (r: (IdSet, Vec<FieldConflict>))
    ensures
        id_set_items(r.0) == entry_dropped_ids(entry_views(es@)),
        forall|k: int|
            0 <= k < r.1@.len() ==> #[trigger] entry_conflict_describes(entry_views(es@), r.1@[k]),
        forall|k: int, l: int|
            0 <= k < l < r.1@.len() ==> #[trigger] r.1@[k].dropped != #[trigger] r.1@[l].dropped,
        forall|id: ActionId|
            #[trigger] id_set_items(r.0).contains(id) <==> exists|k: int|
                0 <= k < r.1@.len() && #[trigger] r.1@[k].dropped == id,
{
    let ghost v = entry_views(es@);
    let mut removed = ids_new();
    let mut report: Vec<FieldConflict> = Vec::new();
    let mut a: usize = 0;
    proof {
        assert(id_set_items(removed) =~= dropped_before(v, 0, 0));
    }
    while a < es.len()
        invariant
            v == entry_views(es@),
            0 <= a <= es.len(),
            id_set_items(removed) == dropped_before(v, a as int, 0),
            forall|k: int| 0 <= k < report@.len() ==> #[trigger] entry_conflict_describes(v, report@[k]),
            forall|k: int, l: int|
                0 <= k < l < report@.len() ==> #[trigger] report@[k].dropped != #[trigger] report@[l].dropped,
            forall|id: ActionId|
                #[trigger] id_set_items(removed).contains(id) <==> exists|k: int|
                    0 <= k < report@.len() && #[trigger] report@[k].dropped == id,
        decreases es.len() - a,
    {
        let lane = &es[a];
        assert(v[a as int] == (lane.0@, lane.1@));
        let n = lane.1.len();
        let mut i: usize = 0;
        while i < n
            invariant
                v == entry_views(es@),
                0 <= a < es.len(),
                lane == es@[a as int],
                v[a as int] == (lane.0@, lane.1@),
                n == lane.1@.len(),
                0 <= i <= n,
                id_set_items(removed) == dropped_before(v, a as int, i as int),
                forall|k: int| 0 <= k < report@.len() ==> #[trigger] entry_conflict_describes(v, report@[k]),
                forall|k: int, l: int|
                    0 <= k < l < report@.len() ==> #[trigger] report@[k].dropped != #[trigger] report@[l].dropped,
                forall|id: ActionId|
                    #[trigger] id_set_items(removed).contains(id) <==> exists|k: int|
                        0 <= k < report@.len() && #[trigger] report@[k].dropped == id,
            decreases n - i,
        {
            let ca = lane.1.get(i);
            let ghost removed0 = id_set_items(removed);
            let ghost report0 = report@;
            let winner = overruling(es, &lane.0, ca);
            let hit = winner.is_some();
            match winner {
                Some((kb, cb)) => {
                    if ids_insert(&mut removed, ca.id) {
                        let conflict = FieldConflict {
                            dropped: ca.id,
                            dropped_field: *lane.0.field(),
                            dropped_span: Range { start: ca.start, end: ca.end() },
                            winner: cb.id,
                            winner_field: *kb.field(),
                            overlap: Range { start: ca.start.max(cb.start), end: ca.end().min(cb.end()) },
                        };
                        report.push(conflict);
                        proof {
                            lane.0.lemma_view();
                            kb.lemma_view();
                            let (b, j) = choose|b: int, j: int|
                                #![trigger v[b].1[j]]
                                0 <= b < es@.len() && 0 <= j < v[b].1.len() && v[b].0 == kb@ && v[b].1[j]
                                    == cb && keys_alias(lane.0@, kb@) && clips_conflict(ca, cb);
                            assert(v[a as int].1[i as int] == ca);
                            assert(conflict_between(conflict, v[a as int].0, v[a as int].1[i as int], v[b].0, v[b].1[j]));
                            assert(entry_conflict_describes(v, conflict));
                            assert forall|k: int| 0 <= k < report@.len() implies #[trigger] entry_conflict_describes(
                                v,
                                report@[k],
                            ) by {
                                if k < report0.len() {
                                    assert(report@[k] == report0[k]);
                                }
                            }
                            assert forall|k: int, l: int|
                                0 <= k < l < report@.len() implies #[trigger] report@[k].dropped
                                != #[trigger] report@[l].dropped by {
                                assert(report@[k] == report0[k]);
                                if l < report0.len() {
                                    assert(report@[l] == report0[l]);
                                } else {
                                    assert(!removed0.contains(ca.id));
                                    if report0[k].dropped == ca.id {
                                        assert(removed0.contains(report0[k].dropped));
                                    }
                                }
                            }
                            assert forall|id: ActionId| #[trigger] id_set_items(removed).contains(id) <==> exists|
                                k: int,
                            | 0 <= k < report@.len() && #[trigger] report@[k].dropped == id by {
                                if id_set_items(removed).contains(id) {
                                    if id == ca.id {
                                        assert(report@[report0.len() as int].dropped == id);
                                    } else {
                                        assert(removed0.contains(id));
                                        let k = choose|k: int| 0 <= k < report0.len() && #[trigger] report0[k].dropped == id;
                                        assert(report@[k] == report0[k]);
                                    }
                                }
                                if exists|k: int| 0 <= k < report@.len() && #[trigger] report@[k].dropped == id {
                                    let k = choose|k: int| 0 <= k < report@.len() && #[trigger] report@[k].dropped == id;
                                    if k < report0.len() {
                                        assert(report@[k] == report0[k]);
                                        assert(removed0.contains(id));
                                    }
                                }
                            }
                        }
                    }
                },
                None => {},
            }
            proof {
                let next = dropped_before(v, a as int, i + 1);
                assert forall|id: ActionId| #[trigger] next.contains(id) == id_set_items(removed).contains(id) by {
                    if next.contains(id) {
                        let (a2, i2) = choose|a2: int, i2: int|
                            #![trigger v[a2].1[i2]]
                            0 <= a2 < v.len() && 0 <= i2 < v[a2].1.len() && (a2 < a || (a2 == a
                                && i2 < i + 1)) && v[a2].1[i2].id == id && entry_overruled(
                                v,
                                v[a2].0,
                                v[a2].1[i2],
                            );
                        if !(a2 == a && i2 == i) {
                            assert(dropped_before(v, a as int, i as int).contains(id));
                        }
                    }
                    if id_set_items(removed).contains(id) && !(hit && id == ca.id) {
                        assert(dropped_before(v, a as int, i as int).contains(id));
                    }
                    if hit && id == ca.id {
                        assert(v[a as int].1[i as int] == ca);
                    }
                }
                assert(id_set_items(removed) =~= next);
            }
            i = i + 1;
        }
        proof {
            assert(dropped_before(v, a as int, n as int) =~= dropped_before(v, a + 1, 0));
        }
        a = a + 1;
    }
    proof {
        assert(dropped_before(v, es.len() as int, 0) =~= entry_dropped_ids(v));
    }
    let r = (removed, report);
    proof {
        assert forall|id: ActionId| #[trigger] id_set_items(r.0).contains(id) implies exists|k: int|
            0 <= k < r.1@.len() && #[trigger] r.1@[k].dropped == id by {
            assert(id_set_items(removed).contains(id));
            let k = choose|k: int| 0 <= k < report@.len() && #[trigger] report@[k].dropped == id;
            assert(r.1@[k] == report@[k]);
        }
        assert forall|id: ActionId| (exists|k: int| 0 <= k < r.1@.len() && #[trigger] r.1@[k].dropped == id)
            implies #[trigger] id_set_items(r.0).contains(id) by {
            let k = choose|k: int| 0 <= k < r.1@.len() && #[trigger] r.1@[k].dropped == id;
            assert(report@[k].dropped == id);
        }
    }
    r
}

/// The entries left once every dropped clip is gone, in order; an
/// entry left with no clips is gone too.
pub open spec fn resolved_entries(es: Seq<(KeyView, Seq<ActionClip>)>, dropped: Set<ActionId>) -> Seq<
    (KeyView, Seq<ActionClip>),
>
    decreases es.len(),
{
    if es.len() == 0 {
        Seq::empty()
    } else {
        let prev = resolved_entries(es.drop_last(), dropped);
        let kept = keep_clips(es.last().1, dropped);
        if kept.len() > 0 {
            prev.push((es.last().0, kept))
        } else {
            prev
        }
    }
}

/// Each entry of a key-distinct list is found under its key, and
/// every key of the lanes comes from some entry.
pub(crate) proof fn lemma_entries_index(es: Seq<(KeyView, Seq<ActionClip>)>)
    requires
        entries_keys_distinct(es),
    ensures
        forall|idx: int|
            0 <= idx < es.len() ==> #[trigger] lanes_of_entries(es).contains_key(es[idx].0)
                && lanes_of_entries(es)[es[idx].0] == es[idx].1,
        forall|k: KeyView|
            #[trigger] lanes_of_entries(es).contains_key(k) ==> exists|idx: int|
                0 <= idx < es.len() && #[trigger] es[idx].0 == k,
    decreases es.len(),
{
    if es.len() > 0 {
        let dl = es.drop_last();
        assert(entries_keys_distinct(dl));
        lemma_entries_index(dl);
        assert forall|idx: int| 0 <= idx < es.len() implies #[trigger] lanes_of_entries(
            es,
        ).contains_key(es[idx].0) && lanes_of_entries(es)[es[idx].0] == es[idx].1 by {
            assert(lanes_of_entries(es) == lanes_of_entries(dl).insert(es.last().0, es.last().1));
            if idx < es.len() - 1 {
                assert(dl[idx] == es[idx]);
                assert(es[idx].0 != es.last().0);
                assert(lanes_of_entries(dl).contains_key(dl[idx].0));
            }
        }
        assert forall|k: KeyView| #[trigger] lanes_of_entries(es).contains_key(k) implies exists|
            idx: int,
        | 0 <= idx < es.len() && #[trigger] es[idx].0 == k by {
            if k == es.last().0 {
                assert(es[es.len() - 1].0 == k);
            } else {
                assert(lanes_of_entries(dl).contains_key(k));
                let idx = choose|idx: int| 0 <= idx < dl.len() && #[trigger] dl[idx].0 == k;
                assert(es[idx].0 == k);
            }
        }
    }
}

/// The entry-list and lane-map forms of the dropped ids agree.
pub(crate) proof fn lemma_dropped_ids(es: Seq<(KeyView, Seq<ActionClip>)>)
    requires
        entries_keys_distinct(es),
    ensures
        entry_dropped_ids(es) == dropped_ids(lanes_of_entries(es)),
{
    let lanes = lanes_of_entries(es);
    lemma_entries_index(es);
    assert forall|ka: KeyView, c: ActionClip| entry_overruled(es, ka, c) == clip_overruled(
        lanes,
        ka,
        c,
    ) by {
        if entry_overruled(es, ka, c) {
            let (b, j) = choose|b: int, j: int|
                #![trigger es[b].1[j]]
                0 <= b < es.len() && keys_alias(ka, es[b].0) && 0 <= j < es[b].1.len()
                    && clips_conflict(c, es[b].1[j]);
            assert(lanes.contains_key(es[b].0));
            assert(lanes[es[b].0][j] == es[b].1[j]);
        }
        if clip_overruled(lanes, ka, c) {
            let (kb, j) = choose|kb: KeyView, j: int|
                #![trigger lanes[kb][j]]
                lanes.contains_key(kb) && keys_alias(ka, kb) && 0 <= j < lanes[kb].len()
                    && clips_conflict(c, lanes[kb][j]);
            let b = choose|idx: int| 0 <= idx < es.len() && #[trigger] es[idx].0 == kb;
            assert(es[b].1[j] == lanes[kb][j]);
        }
    }
    assert forall|id: ActionId| #[trigger] entry_dropped_ids(es).contains(id) == dropped_ids(
        lanes,
    ).contains(id) by {
        if entry_dropped_ids(es).contains(id) {
            let (a, i) = choose|a: int, i: int|
                #![trigger es[a].1[i]]
                0 <= a < es.len() && 0 <= i < es[a].1.len() && es[a].1[i].id == id
                    && entry_overruled(es, es[a].0, es[a].1[i]);
            assert(lanes.contains_key(es[a].0));
            assert(lanes[es[a].0][i] == es[a].1[i]);
        }
        if dropped_ids(lanes).contains(id) {
            let (ka, i) = choose|ka: KeyView, i: int|
                #![trigger lanes[ka][i]]
                lanes.contains_key(ka) && 0 <= i < lanes[ka].len() && lanes[ka][i].id == id
                    && clip_overruled(lanes, ka, lanes[ka][i]);
            let a = choose|idx: int| 0 <= idx < es.len() && #[trigger] es[idx].0 == ka;
            assert(es[a].1[i] == lanes[ka][i]);
        }
    }
    assert(entry_dropped_ids(es) =~= dropped_ids(lanes));
}

/// Resolving keeps the keys distinct, draws keys only from the input,
/// and yields the kept clips of every lane that keeps any.
pub(crate) proof fn lemma_resolved_entries(es: Seq<(KeyView, Seq<ActionClip>)>, dropped: Set<ActionId>)
    requires
        entries_keys_distinct(es),
    ensures
        entries_keys_distinct(resolved_entries(es, dropped)),
        forall|i: int|
            0 <= i < resolved_entries(es, dropped).len() ==> #[trigger] lanes_of_entries(
                es,
            ).contains_key(resolved_entries(es, dropped)[i].0),
        lanes_of_entries(resolved_entries(es, dropped)) == Map::new(
            |k: KeyView|
                lanes_of_entries(es).contains_key(k) && keep_clips(lanes_of_entries(es)[k], dropped).len()
                    > 0,
            |k: KeyView| keep_clips(lanes_of_entries(es)[k], dropped),
        ),
    decreases es.len(),
{
    if es.len() == 0 {
        assert(lanes_of_entries(resolved_entries(es, dropped)) =~= Map::new(
            |k: KeyView|
                lanes_of_entries(es).contains_key(k) && keep_clips(lanes_of_entries(es)[k], dropped).len()
                    > 0,
            |k: KeyView| keep_clips(lanes_of_entries(es)[k], dropped),
        ));
    } else {
        let dl = es.drop_last();
        let kl = es.last().0;
        assert(entries_keys_distinct(dl));
        lemma_resolved_entries(dl, dropped);
        let prev = resolved_entries(dl, dropped);
        assert forall|j: int| 0 <= j < dl.len() implies dl[j].0 != kl by {
            assert(es[j] == dl[j]);
        }
        crate::track::lemma_entries_keys_absent(dl, kl);
        assert forall|i: int| 0 <= i < prev.len() implies prev[i].0 != kl by {
            assert(lanes_of_entries(dl).contains_key(prev[i].0));
        }
        let res = resolved_entries(es, dropped);
        assert forall|i: int| 0 <= i < res.len() implies #[trigger] lanes_of_entries(
            es,
        ).contains_key(res[i].0) by {
            if i < prev.len() {
                assert(lanes_of_entries(dl).contains_key(prev[i].0));
            }
        }
        let target = Map::new(
            |k: KeyView|
                lanes_of_entries(es).contains_key(k) && keep_clips(lanes_of_entries(es)[k], dropped).len()
                    > 0,
            |k: KeyView| keep_clips(lanes_of_entries(es)[k], dropped),
        );
        let kept = keep_clips(es.last().1, dropped);
        assert(lanes_of_entries(es) == lanes_of_entries(dl).insert(kl, es.last().1));
        if kept.len() > 0 {
            assert(res.drop_last() =~= prev);
            assert(lanes_of_entries(res) == lanes_of_entries(prev).insert(kl, kept));
        } else {
            assert(res == prev);
        }
        assert(lanes_of_entries(res) =~= target);
    }
}


/// The clips of `sequence` whose ids are not in `removed`, or `None`
/// when none are left.
fn keep_sequence(sequence: Sequence, removed: &IdSet) -> (r: Option<Sequence>)
    ensures
        match r {
            Some(s) => s@ == keep_clips(sequence@, id_set_items(*removed)) && s@.len() > 0,
            None => keep_clips(sequence@, id_set_items(*removed)).len() == 0,
        },
{
    let ghost d = id_set_items(*removed);
    let ghost all = sequence@;
    let clips = sequence.into_clips();
    let mut kept: Vec<ActionClip> = Vec::new();
    let mut i: usize = 0;
    proof {
        assert(all.take(0) =~= Seq::<ActionClip>::empty());
    }
    while i < clips.len()
        invariant
            clips@ == all,
            d == id_set_items(*removed),
            0 <= i <= clips.len(),
            kept@ == keep_clips(all.take(i as int), d),
        decreases clips.len() - i,
    {
        let clip = clips[i];
        if !ids_contains(removed, &clip.id) {
            kept.push(clip);
        }
        proof {
            assert(all.take(i + 1).drop_last() =~= all.take(i as int));
        }
        i = i + 1;
    }
    proof {
        assert(all.take(clips.len() as int) =~= all);
    }
    if kept.len() == 0 {
        None
    } else {
        let mut s = Sequence::new(kept[0]);
        let mut j: usize = 1;
        proof {
            assert(kept@.take(1) =~= seq![kept@[0]]);
        }
        while j < kept.len()
            invariant
                1 <= j <= kept.len(),
                s@ == kept@.take(j as int),
            decreases kept.len() - j,
        {
            s.push(kept[j]);
            proof {
                assert(kept@.take(j + 1) =~= kept@.take(j as int).push(kept@[j as int]));
            }
            j = j + 1;
        }
        proof {
            assert(kept@.take(kept.len() as int) =~= kept@);
        }
        Some(s)
    }
}

/// The entry-list form of a report is a report of the lanes.
proof fn lemma_report_valid(es: Seq<(KeyView, Seq<ActionClip>)>, dropped: Set<ActionId>, report: Seq<FieldConflict>)
    requires
        entries_keys_distinct(es),
        dropped == entry_dropped_ids(es),
        forall|k: int| 0 <= k < report.len() ==> #[trigger] entry_conflict_describes(es, report[k]),
        forall|k: int, l: int|
            0 <= k < l < report.len() ==> #[trigger] report[k].dropped != #[trigger] report[l].dropped,
        forall|id: ActionId|
            #[trigger] dropped.contains(id) <==> exists|k: int|
                0 <= k < report.len() && #[trigger] report[k].dropped == id,
    ensures
        report_valid(lanes_of_entries(es), report),
{
    let lanes = lanes_of_entries(es);
    lemma_entries_index(es);
    lemma_dropped_ids(es);
    assert forall|k: int| 0 <= k < report.len() implies #[trigger] conflict_describes(lanes, report[k]) by {
        let c = report[k];
        assert(entry_conflict_describes(es, c));
        let (a, i, b, j) = choose|a: int, i: int, b: int, j: int|
            #![trigger es[a].1[i], es[b].1[j]]
            0 <= a < es.len() && 0 <= i < es[a].1.len() && 0 <= b < es.len() && 0 <= j < es[b].1.len()
                && conflict_between(c, es[a].0, es[a].1[i], es[b].0, es[b].1[j]);
        assert(lanes.contains_key(es[a].0));
        assert(lanes.contains_key(es[b].0));
        assert(lanes[es[a].0][i] == es[a].1[i]);
        assert(lanes[es[b].0][j] == es[b].1[j]);
    }
}

/// Drops any clip that a later-authored action on an aliasing field
/// path of the same subject overlaps in time. The later action wins
/// the whole clip, not just the overlapped span.
///
/// Returns the entries left, and a report of the dropped clips.
pub fn resolve_conflicts(sequences: Vec<(ActionKey, Sequence)>) -> (r: (
    Vec<(ActionKey, Sequence)>,
    Vec<FieldConflict>,
))
    requires
        entries_keys_distinct(entry_views(sequences@)),
    ensures
        entries_keys_distinct(entry_views(r.0@)),
        lanes_of_entries(entry_views(r.0@)) == resolved_lanes(lanes_of_entries(entry_views(sequences@))),
        entry_views(r.0@) == resolved_entries(
            entry_views(sequences@),
            dropped_ids(lanes_of_entries(entry_views(sequences@))),
        ),
        report_valid(lanes_of_entries(entry_views(sequences@)), r.1@),
{
    let ghost v = entry_views(sequences@);
    let (removed, report) = overruled_ids(&sequences);
    let ghost d = id_set_items(removed);
    proof {
        lemma_report_valid(v, d, report@);
    }
    let mut rest = sequences;
    let mut out: Vec<(ActionKey, Sequence)> = Vec::new();
    let n = rest.len();
    let mut a: usize = 0;
    proof {
        assert(v.take(0) =~= Seq::<(KeyView, Seq<ActionClip>)>::empty());
        assert(entry_views(out@) =~= resolved_entries(v.take(0), d));
        assert(entry_views(rest@) =~= v.subrange(0, n as int));
    }
    while a < n
        invariant
            n == v.len(),
            d == id_set_items(removed),
            0 <= a <= n,
            rest@.len() == n - a,
            entry_views(rest@) == v.subrange(a as int, n as int),
            entry_views(out@) == resolved_entries(v.take(a as int), d),
        decreases n - a,
    {
        let ghost before = rest@;
        let (key, sequence) = rest.remove(0);
        proof {
            assert(entry_views(before)[0] == v[a as int]);
            assert forall|i: int| 0 <= i < rest@.len() implies entry_views(rest@)[i] == v.subrange(
                a + 1,
                n as int,
            )[i] by {
                assert(rest@[i] == before[i + 1]);
                assert(entry_views(before)[i + 1] == v[a + 1 + i]);
            }
            assert(entry_views(rest@) =~= v.subrange(a + 1, n as int));
            assert(v.take(a + 1).drop_last() =~= v.take(a as int));
        }
        let ghost old_out = out@;
        match keep_sequence(sequence, &removed) {
            Some(kept) => {
                out.push((key, kept));
                proof {
                    assert(entry_views(out@) =~= entry_views(old_out).push((key@, kept@)));
                }
            },
            None => {},
        }
        a = a + 1;
    }
    proof {
        assert(v.take(n as int) =~= v);
        lemma_dropped_ids(v);
        lemma_resolved_entries(v, d);
        assert(lanes_of_entries(entry_views(out@)) =~= resolved_lanes(lanes_of_entries(v)));
    }
    (out, report)
}

} // verus!
