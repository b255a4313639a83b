use motiongfx::action::{ActionClip, ActionId, ActionKey, FieldKey, UntypedSubjectId};
use motiongfx::id_registry::IdRegistry;
use motiongfx::sequence::Sequence;
use motiongfx::time::{cs, ms, s, Duration, Range};
use motiongfx::track::{all, any, chain, delay, flow, Track, TrackFragment, TrackOrdering};

struct DummyId;

fn key(path: &'static str) -> ActionKey {
    ActionKey::new(
        UntypedSubjectId::placeholder(),
        FieldKey::placeholder_with_path(path),
    )
}

fn clip(centis: u64) -> ActionClip {
    ActionClip::new(ActionId::placeholder(), cs(centis))
}

fn lane_start(track: &TrackFragment, path: &'static str) -> Duration {
    track.sequence(&key(path)).expect("lane present")[0].start
}

fn lane_end(track: &TrackFragment, path: &'static str) -> Duration {
    let clips = track.sequence(&key(path)).expect("lane present");
    clips[clips.len() - 1].end()
}

#[test]
fn track_key_uniqueness() {
    // Sequence with 0 duration to prevent overlaps.
    let dummy_seq = Sequence::new(clip(0));

    let field_u32_a = FieldKey::placeholder_with_path("a");
    let field_u32_b = FieldKey::placeholder_with_path("b");

    let mut id_registry = IdRegistry::new();
    let id1 = id_registry.register_instance(1);
    let id2 = id_registry.register_instance(2);

    let k1 = ActionKey::new(UntypedSubjectId::new::<DummyId>(id1), field_u32_a);
    let k2 = ActionKey::new(UntypedSubjectId::new::<DummyId>(id2), field_u32_a);
    let k3 = ActionKey::new(UntypedSubjectId::new::<DummyId>(id1), field_u32_b);

    let track = TrackFragment::new()
        .upsert_sequence(k1, dummy_seq.clone())
        .upsert_sequence(k2, dummy_seq.clone())
        .upsert_sequence(k3, dummy_seq.clone())
        // Similar key with the first sequence.
        .upsert_sequence(k1, dummy_seq.clone());

    assert_eq!(track.len(), 3);
}

#[test]
fn chain_duration_and_delay() {
    let track1 = TrackFragment::single(key("a"), clip(100));
    let track2 = TrackFragment::single(key("b"), clip(200));

    let track = vec![track1, track2].ord_chain();

    assert_eq!(track.duration(), cs(300));
    // `b` is delayed by the duration of the first fragment.
    assert_eq!(lane_start(&track, "b"), cs(100));
}

#[test]
fn all_duration_max() {
    let track1 = TrackFragment::single(key("a"), clip(100));
    let track2 = TrackFragment::single(key("b"), clip(300));

    let track = vec![track1, track2].ord_all();
    assert_eq!(track.duration(), cs(300));
}

#[test]
fn any_duration_min() {
    let track1 = TrackFragment::single(key("a"), clip(100));
    let track2 = TrackFragment::single(key("b"), clip(300));

    let track = vec![track1, track2].ord_any();
    assert_eq!(track.duration(), cs(100));
}

#[test]
fn flow_with_delay() {
    let track1 = TrackFragment::single(key("a"), clip(100));
    let track2 = TrackFragment::single(key("b"), clip(100));

    let track = vec![track1, track2].ord_flow(cs(50));

    // 0.5 delay + 1.0 duration
    assert_eq!(track.duration(), cs(150));
    // `b` is delayed by 0.5
    assert_eq!(lane_start(&track, "b"), cs(50));
}

#[test]
fn delay_applies_offset() {
    let track = TrackFragment::single(key("a"), clip(200));

    let track = delay(cs(150), track);

    assert_eq!(lane_start(&track, "a"), cs(150));
    assert_eq!(lane_end(&track, "a"), cs(350));
    // The delay is part of the fragment's span.
    assert_eq!(track.duration(), cs(350));
}

/// `delay` shifts every clip but must widen the duration to match, or
/// a combinator consuming the fragment places the next clips using the
/// understated span and overlaps the delayed ones.
#[test]
fn delayed_fragment_chains_without_overlapping() {
    let delayed = delay(cs(150), TrackFragment::single(key("a"), clip(200)));
    let track = vec![delayed, TrackFragment::single(key("a"), clip(100))].ord_chain();

    assert_eq!(track.duration(), cs(450));
    assert_eq!(lane_end(&track, "a"), cs(450));
}

/// Durations accumulated by the combinators and the clip offsets agree
/// exactly.
#[test]
fn chain_accumulation_matches_clip_offsets() {
    let tracks: Vec<_> = (0..10)
        .map(|_| TrackFragment::single(key("a"), clip(10)))
        .collect();

    let track = tracks.ord_chain();

    assert_eq!(track.duration(), cs(100));
    assert_eq!(lane_end(&track, "a"), cs(100));
}

/// The track's duration must always be reachable by the playhead, so
/// that the final clip can resolve to its end.
#[test]
fn compile_duration_covers_last_clip_end() {
    let mut fragment = TrackFragment::single(key("a"), clip(100));
    // Understate the duration the way a combinator would if the
    // two accumulations ever diverged again.
    fragment.set_duration(ms(999));

    let track = fragment.compile();

    assert_eq!(track.duration(), cs(100));
}

/// Combinator arithmetic saturates rather than overflowing.
#[test]
fn saturated_durations_do_not_overflow_the_combinators() {
    let huge = |path: &'static str| {
        TrackFragment::single(
            key(path),
            ActionClip::new(ActionId::placeholder(), Duration::max_value()),
        )
    };

    assert_eq!(huge("a").duration(), Duration::max_value());
    assert_eq!(vec![huge("a"), huge("b")].ord_chain().duration(), Duration::max_value());
    assert_eq!(vec![huge("a"), huge("b")].ord_flow(s(1)).duration(), Duration::max_value());
    assert_eq!(vec![huge("a"), huge("b")].ord_all().duration(), Duration::max_value());
    assert_eq!(delay(Duration::max_value(), huge("a")).duration(), Duration::max_value());
}

#[test]
fn compile_empty_fragment_is_not_a_panic() {
    let track = TrackFragment::new().compile();

    assert_eq!(track.duration(), Duration::zero());
    assert!(track.sequences_spans().is_empty());
}

#[test]
fn field_spans_cover_every_lane() {
    let dummy = Sequence::new(clip(0));

    let fa = FieldKey::placeholder_with_path("a");
    let fb = FieldKey::placeholder_with_path("b");
    let fc = FieldKey::placeholder_with_path("c");

    let mut ids = IdRegistry::new();
    let s1 = ids.register_instance(1);
    let s2 = ids.register_instance(2);

    let k = |sid, field| ActionKey::new(UntypedSubjectId::new::<DummyId>(sid), field);

    let track = TrackFragment::new()
        .upsert_sequence(k(s1, fa), dummy.clone())
        .upsert_sequence(k(s2, fa), dummy.clone())
        .upsert_sequence(k(s1, fb), dummy.clone())
        .upsert_sequence(k(s1, fc), dummy.clone())
        .compile();

    // Fields in the order `compile` sorts them into.
    let mut covered = Vec::new();

    for (field, expected) in [(fa, 2), (fb, 1), (fc, 1)] {
        let spans = track.lookup_field_spans(&field).expect("field was compiled in");

        assert_eq!(spans.len(), expected, "{field:?}");
        assert!(
            spans.iter().all(|(key, _)| *key.field() == field),
            "{field:?} span points at the wrong lanes",
        );

        covered.extend(spans.iter().map(|(key, _)| *key));
    }

    // Every lane, once: a drifted offset repeats one and skips
    // another.
    let lanes = track
        .sequences_spans()
        .iter()
        .map(|(key, _)| *key)
        .collect::<Vec<_>>();

    assert_eq!(covered, lanes, "field spans must cover every lane");
}

/// Distinct, monotonically increasing [`ActionId`]s.
fn ids(count: usize) -> Vec<ActionId> {
    (0..count as u32).map(|i| ActionId::new(i, 0)).collect()
}

fn span_clip(id: ActionId, start: u64, dur: u64) -> ActionClip {
    ActionClip {
        id,
        start: cs(start),
        duration: cs(dur),
    }
}

fn seq(clips: &[ActionClip]) -> Sequence {
    let mut seq = Sequence::new(clips[0]);
    for &clip in &clips[1..] {
        seq.push(clip);
    }
    seq
}

/// The order `Track::bake_clips` yields.
fn baked(track: &Track) -> Vec<ActionId> {
    track.bake_clips().iter().map(|clip| clip.id).collect()
}

#[test]
fn sorts_clips_across_sequences_by_start_time() {
    let id = ids(5);
    let track = TrackFragment::new()
        .upsert_sequence(
            key("a"),
            seq(&[span_clip(id[0], 0, 100), span_clip(id[3], 200, 100)]),
        )
        .upsert_sequence(
            key("b"),
            seq(&[span_clip(id[1], 0, 50), span_clip(id[2], 100, 100)]),
        )
        .upsert_sequence(key("c"), seq(&[span_clip(id[4], 50, 20)]))
        .compile();

    assert_eq!(baked(&track), [id[0], id[1], id[4], id[2], id[3]]);
}

#[test]
fn breaks_start_ties_by_action_id() {
    let id = ids(3);
    // Three sequences, every clip starting at the same instant.
    let track = TrackFragment::new()
        .upsert_sequence(key("c"), seq(&[span_clip(id[2], 0, 10)]))
        .upsert_sequence(key("a"), seq(&[span_clip(id[0], 0, 10)]))
        .upsert_sequence(key("b"), seq(&[span_clip(id[1], 0, 10)]))
        .compile();

    assert_eq!(baked(&track), [id[0], id[1], id[2]]);
}

#[test]
fn yields_every_clip_exactly_once() {
    let id = ids(4);
    let track = TrackFragment::new()
        .upsert_sequence(
            key("a"),
            seq(&[
                span_clip(id[0], 0, 100),
                span_clip(id[1], 100, 100),
                span_clip(id[2], 200, 100),
            ]),
        )
        .upsert_sequence(key("b"), seq(&[span_clip(id[3], 50, 20)]))
        .compile();

    let mut baked = baked(&track);
    baked.sort_unstable();
    let mut all = id.clone();
    all.sort_unstable();
    assert_eq!(baked, all);
}

#[test]
fn sequence_clips_stay_in_order() {
    let id = ids(3);
    let track = TrackFragment::new()
        .upsert_sequence(
            key("a"),
            seq(&[
                span_clip(id[0], 0, 100),
                span_clip(id[1], 100, 100),
                span_clip(id[2], 200, 100),
            ]),
        )
        .compile();

    assert_eq!(baked(&track), [id[0], id[1], id[2]]);
}

#[test]
fn empty_track_has_no_bake_order() {
    let track = TrackFragment::new().compile();
    assert_eq!(track.bake_clips().len(), 0);
}

#[test]
fn overlapping_aliasing_actions_drop_the_earlier() {
    let id = ids(2);
    // `""` (the source) aliases `::x`; the later clip overlaps.
    let track = TrackFragment::new()
        .upsert_sequence(key(""), seq(&[span_clip(id[0], 0, 100)]))
        .upsert_sequence(key("::x"), seq(&[span_clip(id[1], 50, 100)]))
        .compile();

    assert_eq!(baked(&track), [id[1]]);
}

#[test]
fn overlapping_clips_under_one_key_drop_the_earlier() {
    let id = ids(2);
    // Both clips land on the same `ActionKey` via an upsert append and
    // overlap in time; the later one wins outright.
    let track = TrackFragment::new()
        .upsert_sequence(key("::x"), seq(&[span_clip(id[0], 0, 100)]))
        .upsert_sequence(key("::x"), seq(&[span_clip(id[1], 50, 100)]))
        .compile();

    assert_eq!(baked(&track), [id[1]]);
}

#[test]
fn sibling_fields_keep_overlapping_clips() {
    let id = ids(2);
    let track = TrackFragment::new()
        .upsert_sequence(key("::x"), seq(&[span_clip(id[0], 0, 100)]))
        .upsert_sequence(key("::y"), seq(&[span_clip(id[1], 50, 100)]))
        .compile();

    assert_eq!(baked(&track), [id[0], id[1]]);
    assert_eq!(track.duration(), cs(150));
}

#[test]
fn touching_clips_on_aliasing_fields_both_survive() {
    let id = ids(2);
    let track = TrackFragment::new()
        .upsert_sequence(key(""), seq(&[span_clip(id[0], 0, 100)]))
        .upsert_sequence(key("::x"), seq(&[span_clip(id[1], 100, 100)]))
        .compile();

    assert_eq!(baked(&track), [id[0], id[1]]);
}

#[test]
fn track_clips_follow_the_spans() {
    let id = ids(3);
    let track = TrackFragment::new()
        .upsert_sequence(
            key("::a"),
            seq(&[span_clip(id[0], 0, 10), span_clip(id[1], 10, 10)]),
        )
        .upsert_sequence(key("::b"), seq(&[span_clip(id[2], 0, 30)]))
        .compile();

    let spans = track.sequences_spans();
    assert_eq!(spans.len(), 2);
    let total: usize = spans.iter().map(|(_, span)| span.len).sum();
    assert_eq!(total, 3);
    for (key, span) in spans {
        let clips = track.clips(*span);
        assert_eq!(clips.len(), span.len);
        if key.field().field_path() == "::a" {
            assert_eq!(clips[0].id, id[0]);
            assert_eq!(clips[1].id, id[1]);
        } else {
            assert_eq!(clips[0].id, id[2]);
        }
    }
    assert_eq!(track.field_lookups().len(), 2);
    assert_eq!(track.duration(), cs(30));
}

#[test]
fn free_combinator_functions_match_the_trait() {
    let a = || TrackFragment::single(key("a"), clip(100));
    let b = || TrackFragment::single(key("b"), clip(300));
    assert_eq!(chain(vec![a(), b()]).duration(), cs(400));
    assert_eq!(all(vec![a(), b()]).duration(), cs(300));
    assert_eq!(any(vec![a(), b()]).duration(), cs(100));
    assert_eq!(flow(cs(50), vec![a(), b()]).duration(), cs(350));
    // With no delay, a flow is `all`.
    assert_eq!(flow(Duration::zero(), vec![a(), b()]).duration(), cs(300));
    assert_eq!(lane_start(&flow(Duration::zero(), vec![a(), b()]), "b"), Duration::zero());
}

#[test]
fn combinators_of_nothing_are_empty() {
    assert_eq!(chain(vec![]).duration(), Duration::zero());
    assert_eq!(all(vec![]).duration(), Duration::zero());
    assert_eq!(any(vec![]).duration(), Duration::zero());
    assert_eq!(flow(s(1), vec![]).duration(), Duration::zero());
    assert_eq!(chain(vec![]).len(), 0);
}

#[test]
fn silent_fragments_reserve_time() {
    let track = vec![
        TrackFragment::silent(cs(70)),
        TrackFragment::single(key("a"), clip(30)),
    ]
    .ord_chain();
    assert_eq!(track.duration(), cs(100));
    assert_eq!(lane_start(&track, "a"), cs(70));
}

#[test]
fn delaying_twice_is_delaying_by_the_sum() {
    let once = delay(cs(50), delay(cs(20), TrackFragment::single(key("a"), clip(10))));
    let sum = delay(cs(70), TrackFragment::single(key("a"), clip(10)));
    assert_eq!(once.duration(), sum.duration());
    assert_eq!(lane_start(&once, "a"), lane_start(&sum, "a"));
    assert_eq!(lane_start(&sum, "a"), cs(70));
}

#[test]
fn conflicts_report_the_dropped_and_winning_clips() {
    let id = ids(2);
    let track = TrackFragment::new()
        .upsert_sequence(key(""), seq(&[span_clip(id[0], 0, 100)]))
        .upsert_sequence(key("::x"), seq(&[span_clip(id[1], 50, 100)]))
        .compile();

    let conflicts = track.conflicts();
    assert_eq!(conflicts.len(), 1);
    assert_eq!(conflicts[0].dropped, id[0]);
    assert_eq!(conflicts[0].winner, id[1]);
    assert_eq!(
        conflicts[0].dropped_span,
        Range {
            start: cs(0),
            end: cs(100)
        },
    );
    assert_eq!(
        conflicts[0].overlap,
        Range {
            start: cs(50),
            end: cs(100)
        },
    );
    assert_eq!(conflicts[0].dropped_field.field_path(), "");
    assert_eq!(conflicts[0].winner_field.field_path(), "::x");
}

#[test]
fn tracks_without_conflicts_report_none() {
    let id = ids(2);
    let track = TrackFragment::new()
        .upsert_sequence(key("::x"), seq(&[span_clip(id[0], 0, 100)]))
        .upsert_sequence(key("::y"), seq(&[span_clip(id[1], 50, 100)]))
        .compile();
    assert!(track.conflicts().is_empty());
}

#[test]
fn each_dropped_clip_is_reported_once() {
    let id = ids(3);
    // Two later clips overrule the first; it is dropped, and reported,
    // once.
    let track = TrackFragment::new()
        .upsert_sequence(key(""), seq(&[span_clip(id[0], 0, 100)]))
        .upsert_sequence(key("::x"), seq(&[span_clip(id[1], 10, 20)]))
        .upsert_sequence(key("::y"), seq(&[span_clip(id[2], 40, 20)]))
        .compile();
    assert_eq!(track.conflicts().len(), 1);
    assert_eq!(track.conflicts()[0].dropped, id[0]);
    assert_eq!(baked(&track), [id[1], id[2]]);
}

#[test]
fn field_groups_of_the_same_types_come_in_path_order() {
    let dummy = Sequence::new(clip(0));
    let track = TrackFragment::new()
        .upsert_sequence(key("::c"), dummy.clone())
        .upsert_sequence(key("::a"), dummy.clone())
        .upsert_sequence(key("::b::x"), dummy.clone())
        .upsert_sequence(key("::b"), dummy.clone())
        .compile();
    let paths: Vec<&str> = track
        .field_lookups()
        .iter()
        .map(|(field, _)| field.field_path())
        .collect();
    assert_eq!(paths, vec!["::a", "::b", "::b::x", "::c"]);
}
