use motiongfx::action::{
    ActionClip, ActionId, ActionKey, ClipProgress, FieldKey, SampleMode, UntypedSubjectId,
};
use motiongfx::controller::{
    fixed_rate_player_update, passive_player_update, FixedRatePlayer, PassivePlayer,
};
use motiongfx::sequence::Sequence;
use motiongfx::time::{cs, s, Duration};
use motiongfx::timeline::{QueuedSample, Timeline};
use motiongfx::track::{Track, TrackFragment, TrackList, TrackOrdering};

fn key(path: &'static str) -> ActionKey {
    ActionKey::new(
        UntypedSubjectId::placeholder(),
        FieldKey::placeholder_with_path(path),
    )
}

fn clip(id: u32, start: u64, dur: u64) -> ActionClip {
    ActionClip {
        id: ActionId::new(id, 0),
        start: cs(start),
        duration: cs(dur),
    }
}

fn track(lanes: &[(&'static str, ActionClip)]) -> Track {
    let mut fragment = TrackFragment::new();
    for (path, c) in lanes {
        fragment = fragment.upsert_sequence(key(path), Sequence::new(*c));
    }
    fragment.compile()
}

fn timeline(tracks: Vec<Track>) -> Timeline {
    Timeline::from_tracks(TrackList::collect(tracks).expect("at least one track"))
}

fn queued_for(tl: &Timeline, path: &'static str) -> Option<QueuedSample> {
    tl.queued()
        .into_iter()
        .find(|(k, _)| k.field().field_path() == path)
        .map(|(_, q)| q)
}

#[test]
fn new_timeline_starts_at_zero() {
    let tl = timeline(vec![track(&[("::a", clip(0, 0, 100))])]);
    assert_eq!(tl.curr_time(), Duration::zero());
    assert_eq!(tl.target_time(), Duration::zero());
    assert_eq!(tl.curr_index(), 0);
    assert_eq!(tl.target_index(), 0);
    assert_eq!(tl.tracks().len(), 1);
    assert_eq!(tl.last_track_index(), 0);
    assert!(tl.is_last_track());
    assert!(!tl.is_track_end());
    assert!(tl.queued().is_empty());
}

#[test]
fn playhead_inside_a_clip_interpolates() {
    let mut tl = timeline(vec![track(&[("::a", clip(0, 0, 100))])]);
    tl.set_target_time(cs(50));
    tl.queue_actions();

    assert_eq!(tl.curr_time(), cs(50));
    assert_eq!(
        queued_for(&tl, "::a"),
        Some(QueuedSample {
            id: ActionId::new(0, 0),
            mode: SampleMode::Interp(ClipProgress {
                elapsed: cs(50),
                span: cs(100)
            }),
            keyframe: cs(50),
        })
    );
}

#[test]
fn target_time_is_clamped_to_the_track() {
    let mut tl = timeline(vec![track(&[("::a", clip(0, 0, 100))])]);
    tl.set_target_time(s(60));
    assert_eq!(tl.target_time(), cs(100));
    tl.queue_actions();
    assert!(tl.is_track_end());
    assert!(tl.is_complete());
    assert_eq!(queued_for(&tl, "::a").map(|q| q.keyframe), Some(cs(100)));
}

#[test]
fn advance_and_rewind_move_the_target() {
    let mut tl = timeline(vec![track(&[("::a", clip(0, 0, 100))])]);
    tl.advance_time(cs(30)).advance_time(cs(30));
    assert_eq!(tl.target_time(), cs(60));
    tl.rewind_time(cs(100));
    assert_eq!(tl.target_time(), Duration::zero());
    tl.advance_time(s(10));
    assert_eq!(tl.target_time(), cs(100));
}

#[test]
fn untouched_lanes_are_not_queued() {
    let mut tl = timeline(vec![track(&[
        ("::a", clip(0, 0, 10)),
        ("::b", clip(1, 50, 10)),
    ])]);
    tl.set_target_time(cs(5));
    tl.queue_actions();
    assert!(queued_for(&tl, "::a").is_some());
    assert!(queued_for(&tl, "::b").is_none());
}

#[test]
fn passing_a_clip_samples_its_end() {
    let mut tl = timeline(vec![track(&[
        ("::a", clip(0, 0, 10)),
        ("::b", clip(1, 50, 50)),
    ])]);
    tl.set_target_time(cs(30));
    tl.queue_actions();
    assert_eq!(
        queued_for(&tl, "::a"),
        Some(QueuedSample {
            id: ActionId::new(0, 0),
            mode: SampleMode::End,
            keyframe: cs(10),
        })
    );
}

#[test]
fn queue_is_ordered_farthest_keyframe_first() {
    let mut tl = timeline(vec![track(&[
        ("::a", clip(0, 0, 10)),
        ("::b", clip(1, 20, 60)),
    ])]);
    tl.set_target_time(cs(40));
    tl.queue_actions();
    let queued = tl.queued();
    assert_eq!(queued.len(), 2);
    assert_eq!(queued[0].1.keyframe, cs(10));
    assert_eq!(queued[1].1.keyframe, cs(40));
}

#[test]
fn switching_tracks_forward_ends_the_tracks_passed() {
    let mut tl = timeline(vec![
        track(&[("::a", clip(0, 0, 100))]),
        track(&[("::b", clip(1, 0, 100))]),
    ]);
    tl.set_target_track(1).set_target_time(cs(50));
    tl.queue_actions();

    assert_eq!(tl.curr_index(), 1);
    assert_eq!(
        queued_for(&tl, "::a"),
        Some(QueuedSample {
            id: ActionId::new(0, 0),
            mode: SampleMode::End,
            keyframe: cs(100),
        })
    );
    assert_eq!(queued_for(&tl, "::b").map(|q| q.keyframe), Some(cs(50)));
}

#[test]
fn switching_tracks_back_starts_the_tracks_passed() {
    let mut tl = timeline(vec![
        track(&[("::a", clip(0, 0, 100))]),
        track(&[("::b", clip(1, 10, 100))]),
    ]);
    tl.set_target_track(1);
    tl.set_target_time(cs(110));
    tl.queue_actions();
    tl.set_target_track(0);
    tl.set_target_time(cs(100));
    tl.queue_actions();

    assert_eq!(tl.curr_index(), 0);
    assert_eq!(
        queued_for(&tl, "::b"),
        Some(QueuedSample {
            id: ActionId::new(1, 0),
            mode: SampleMode::Start,
            keyframe: cs(10),
        })
    );
}

#[test]
fn target_track_is_clamped() {
    let mut tl = timeline(vec![
        track(&[("::a", clip(0, 0, 100))]),
        track(&[("::b", clip(1, 0, 100))]),
    ]);
    tl.set_target_track(7);
    assert_eq!(tl.target_index(), 1);
}

#[test]
fn fixed_rate_player_steps_the_target_time() {
    let mut tl = timeline(vec![track(&[("::a", clip(0, 0, 100))])]);
    let mut player = FixedRatePlayer::new(10);
    player.set_playing(true);
    fixed_rate_player_update(&mut player, &mut tl);
    assert_eq!(player.curr_frame, 1);
    assert_eq!(tl.target_time(), cs(10));
    for _ in 0..20 {
        fixed_rate_player_update(&mut player, &mut tl);
    }
    assert_eq!(player.curr_frame, 21);
    assert_eq!(tl.target_time(), cs(100));
}

#[test]
fn passive_player_switches_track_before_clamping() {
    let mut tl = timeline(vec![
        track(&[("::a", clip(0, 0, 100))]),
        track(&[("::b", clip(1, 0, 300))]),
    ]);
    let mut player = PassivePlayer::default();
    player.set_track_index(1).set_time(cs(250));
    passive_player_update(&player, &mut tl);
    assert_eq!(tl.target_index(), 1);
    assert_eq!(tl.target_time(), cs(250));
}

#[test]
fn track_lists_grow() {
    let mut list = TrackList::new(track(&[("::a", clip(0, 0, 100))]));
    list.add(vec![track(&[("::b", clip(1, 0, 100))])])
        .add(vec![]);
    assert_eq!(list.into_vec().len(), 2);
    assert!(TrackList::collect(vec![]).is_none());
}

#[test]
fn timeline_conflicts_gather_every_track() {
    let mut f1 = TrackFragment::new();
    f1 = f1
        .upsert_sequence(key(""), Sequence::new(clip(0, 0, 100)))
        .upsert_sequence(key("::x"), Sequence::new(clip(1, 50, 100)));
    let mut f2 = TrackFragment::new();
    f2 = f2
        .upsert_sequence(key(""), Sequence::new(clip(2, 0, 100)))
        .upsert_sequence(key("::y"), Sequence::new(clip(3, 50, 100)));
    let tl = timeline(vec![f1.compile(), f2.compile()]);
    let dropped: Vec<_> = tl.conflicts().iter().map(|c| c.dropped).collect();
    assert_eq!(dropped, vec![ActionId::new(0, 0), ActionId::new(2, 0)]);
}

/// A whole field and then, chained after it, a sub-field of it; a seek
/// across the boundary queues the whole field's end first and the
/// sub-field's interpolated sample last, so that the child alias is
/// written last.
#[test]
fn boundary_crossing_seek_queues_child_alias_last() {
    let a0 = TrackFragment::single(
        key("::translation"),
        ActionClip::new(ActionId::new(0, 0), s(2)),
    );
    let a1 = TrackFragment::single(
        key("::translation::x"),
        ActionClip::new(ActionId::new(1, 0), s(2)),
    );
    let mut tl = timeline(vec![vec![a0, a1].ord_chain().compile()]);
    assert_eq!(tl.curr_time(), Duration::zero());

    tl.set_target_time(s(3));
    tl.queue_actions();

    let queued = tl.queued();
    assert_eq!(queued.len(), 2);
    assert_eq!(queued[0].0, key("::translation"));
    assert_eq!(
        queued[0].1,
        QueuedSample {
            id: ActionId::new(0, 0),
            mode: SampleMode::End,
            keyframe: s(2),
        }
    );
    assert_eq!(queued[1].0, key("::translation::x"));
    assert_eq!(
        queued[1].1,
        QueuedSample {
            id: ActionId::new(1, 0),
            mode: SampleMode::Interp(ClipProgress {
                elapsed: s(1),
                span: s(2)
            }),
            keyframe: s(3),
        }
    );
    assert_eq!(tl.curr_time(), s(3));
    assert_eq!(tl.curr_index(), 0);
    assert!(tl.conflicts().is_empty());
}

#[test]
fn replaying_rebuilds_the_queue() {
    let mut tl = timeline(vec![track(&[
        ("::a", clip(0, 0, 10)),
        ("::b", clip(1, 50, 10)),
    ])]);
    tl.set_target_time(cs(55));
    tl.queue_actions();
    assert!(queued_for(&tl, "::b").is_some());
    // No move: only lanes touched at the playhead are queued again.
    tl.queue_actions();
    assert!(queued_for(&tl, "::a").is_none());
    assert_eq!(queued_for(&tl, "::b").map(|q| q.keyframe), Some(cs(55)));
}

#[test]
fn cloned_tracks_play_the_same() {
    let t = track(&[("::a", clip(0, 0, 100))]);
    let copy = t.clone();
    assert_eq!(copy.duration(), t.duration());
    assert_eq!(copy.sequences_spans(), t.sequences_spans());
    let mut tl = timeline(vec![t, copy]);
    tl.set_target_track(1).set_target_time(cs(50));
    tl.queue_actions();
    assert_eq!(tl.curr_index(), 1);
}

#[test]
fn paused_fixed_rate_player_leaves_the_timeline() {
    let mut tl = timeline(vec![track(&[("::a", clip(0, 0, 100))])]);
    let mut player = FixedRatePlayer::new(10);
    fixed_rate_player_update(&mut player, &mut tl);
    assert_eq!(player.curr_frame, 0);
    assert_eq!(tl.target_time(), Duration::zero());
}
