//! Players that drive a [`Timeline`]'s target: one that steps a fixed
//! number of frames per second, and one that is set by hand.

use vstd::prelude::*;

use crate::time::{nat_min, s, Duration, NANOS_PER_SEC};
use crate::timeline::Timeline;

verus! {

/// The instant of frame `frame` at `fps` frames per second, in whole
/// nanoseconds rounded down; zero when `fps` is zero.
pub open spec fn spec_frame_time(fps: u16, frame: u64) -> nat {
    if fps == 0 {
        0
    } else {
        ((frame as nat) * (NANOS_PER_SEC as nat)) / (fps as nat)
    }
}

/// A frame index that is a whole number of seconds lands exactly on
/// that second: frame times do not drift, however long the recording.
pub proof fn lemma_frame_time_whole_seconds(fps: u16, secs: nat)
    requires
        fps > 0,
        secs * fps <= u64::MAX,
    ensures
        spec_frame_time(fps, (secs * fps) as u64) == secs * NANOS_PER_SEC,
{
    let f = fps as int;
    let n = NANOS_PER_SEC as int;
    assert(((secs * f) as u64) as int * n == f * (secs * n)) by (nonlinear_arith)
        requires
            secs * f <= u64::MAX,
            secs >= 0,
            f > 0,
    ;
    vstd::arithmetic::div_mod::lemma_div_multiples_vanish(secs * n, f);
}

/// Each frame time is the ideal instant, `frame / fps` seconds, rounded
/// down to whole nanoseconds: less than a nanosecond early, never late.
pub proof fn lemma_frame_time_within_a_nanosecond(fps: u16, frame: u64)
    requires
        fps > 0,
    ensures
        spec_frame_time(fps, frame) * fps <= frame * NANOS_PER_SEC,
        frame * NANOS_PER_SEC < (spec_frame_time(fps, frame) + 1) * fps,
{
    let x = (frame as int) * (NANOS_PER_SEC as int);
    let f = fps as int;
    vstd::arithmetic::div_mod::lemma_fundamental_div_mod(x, f);
    vstd::arithmetic::div_mod::lemma_mod_pos_bound(x, f);
    assert(spec_frame_time(fps, frame) == x / f);
    assert((x / f) * f <= x && x < (x / f + 1) * f) by (nonlinear_arith)
        requires
            x == f * (x / f) + (x % f),
            0 <= x % f < f,
    ;
}

/// A later frame never maps to an earlier instant.
pub proof fn lemma_frame_time_monotonic(fps: u16, a: u64, b: u64)
    requires
        a <= b,
    ensures
        spec_frame_time(fps, a) <= spec_frame_time(fps, b),
{
    if fps > 0 {
        assert((a as int) * (NANOS_PER_SEC as int) <= (b as int) * (NANOS_PER_SEC as int)) by (nonlinear_arith)
            requires
                a <= b,
        ;
        vstd::arithmetic::div_mod::lemma_div_is_ordered(
            (a as int) * (NANOS_PER_SEC as int),
            (b as int) * (NANOS_PER_SEC as int),
            fps as int,
        );
    }
}

/// A controller for a [`Timeline`] that steps the target time by a
/// fixed number of frames per second, for recording scenes.
#[derive(Debug)]
pub struct FixedRatePlayer {
    /// How many snapshots to take per second.
    pub fps: u16,
    /// The frame the player is at.
    pub curr_frame: u64,
    /// Whether the timeline is playing.
    pub is_playing: bool,
}

impl Default for FixedRatePlayer {
    fn default() -> (r: Self)
        ensures
            r.fps == 30,
            r.curr_frame == 0,
            !r.is_playing,
    {
        Self::new(30)
    }
}

impl FixedRatePlayer {
    /// A paused player at frame zero.
    pub fn new(fps: u16) -> (r: Self)
        ensures
            r.fps == fps,
            r.curr_frame == 0,
            !r.is_playing,
    {
        Self { fps, curr_frame: 0, is_playing: false }
    }

    /// The same player at another rate.
    pub fn with_fps(self, fps: u16) -> (r: Self)
        ensures
            r.fps == fps,
            r.curr_frame == self.curr_frame,
            r.is_playing == self.is_playing,
    {
        Self { fps, curr_frame: self.curr_frame, is_playing: self.is_playing }
    }

    /// The exact instant of [`Self::curr_frame`]: the same frame index
    /// always maps to the same instant, however long the recording runs.
    ///
    /// Zero when [`Self::fps`] is zero.
    pub fn frame_time(&self) -> (r: Duration)
        ensures
            r@ == spec_frame_time(self.fps, self.curr_frame),
    {
        if self.fps == 0 {
            return Duration::zero();
        }
        s(self.curr_frame).div_u32(self.fps as u32)
    }

    /// Starts or pauses the player.
    pub fn set_playing(&mut self, is_playing: bool) -> (r: &mut Self)
        ensures
            r.fps == old(self).fps,
            r.curr_frame == old(self).curr_frame,
            r.is_playing == is_playing,
            *final(self) == *final(r),
    {
        self.is_playing = is_playing;
        self
    }
}

/// A controller that holds a track and a time for a [`Timeline`] to
/// go to.
#[derive(Debug)]
pub struct PassivePlayer {
    time: Duration,
    track_index: usize,
}

impl Default for PassivePlayer {
    fn default() -> (r: Self)
        ensures
            r.get_time_spec()@ == 0,
            r.get_track_spec() == 0,
    {
        Self { time: Duration::zero(), track_index: 0 }
    }
}

impl PassivePlayer {
    pub closed spec fn get_time_spec(self) -> Duration {
        self.time
    }

    pub closed spec fn get_track_spec(self) -> usize {
        self.track_index
    }

    /// Sets the time to go to.
    pub fn set_time(&mut self, time: Duration) -> (r: &mut Self)
        ensures
            r.get_time_spec() == time,
            r.get_track_spec() == old(self).get_track_spec(),
            *final(self) == *final(r),
    {
        self.time = time;
        self
    }

    /// Sets the track to go to.
    pub fn set_track_index(&mut self, track_index: usize) -> (r: &mut Self)
        ensures
            r.get_track_spec() == track_index,
            r.get_time_spec() == old(self).get_time_spec(),
            *final(self) == *final(r),
    {
        self.track_index = track_index;
        self
    }

    pub fn get_time(&self) -> (r: Duration)
        ensures
            r == self.get_time_spec(),
    {
        self.time
    }

    pub fn get_track(&self) -> (r: usize)
        ensures
            r == self.get_track_spec(),
    {
        self.track_index
    }
}

/// One frame of a [`FixedRatePlayer`]: a playing player steps to the
/// next frame, whose instant becomes the timeline's target time; a
/// paused player leaves itself and the timeline as they are.
pub fn fixed_rate_player_update(player: &mut FixedRatePlayer, timeline: &mut Timeline)
    requires
        old(player).is_playing ==> old(player).curr_frame < u64::MAX,
    ensures
        !old(player).is_playing ==> *final(player) == *old(player) && *final(timeline) == *old(timeline),
        old(player).is_playing ==> {
            &&& final(player).curr_frame == old(player).curr_frame + 1
            &&& final(player).fps == old(player).fps
            &&& final(player).is_playing
            &&& Timeline::spec_target_time_set(
                *old(timeline),
                *final(timeline),
                spec_frame_time(old(player).fps, (old(player).curr_frame + 1) as u64),
            )
        },
{
    if !player.is_playing {
        return;
    }
    player.curr_frame = player.curr_frame + 1;
    let time = player.frame_time();
    timeline.set_target_time(time);
}

/// Applies a [`PassivePlayer`] to a timeline: the track first, so that
/// the time is clamped against the new track's duration.
pub fn passive_player_update(player: &PassivePlayer, timeline: &mut Timeline)
    ensures
        final(timeline).spec_target_index() == if player.get_track_spec() < old(
            timeline,
        ).spec_tracks().len() {
            player.get_track_spec() as int
        } else {
            old(timeline).spec_tracks().len() - 1
        },
        final(timeline).spec_target_time()@ == nat_min(
            player.get_time_spec()@,
            old(timeline).spec_tracks()[final(timeline).spec_target_index() as int].spec_duration(),
        ),
        final(timeline).spec_tracks() == old(timeline).spec_tracks(),
        final(timeline).spec_queue() == old(timeline).spec_queue(),
        final(timeline).spec_curr_time() == old(timeline).spec_curr_time(),
        final(timeline).spec_curr_index() == old(timeline).spec_curr_index(),
{
    timeline.set_target_track(player.get_track());
    timeline.set_target_time(player.get_time());
}

} // verus!
