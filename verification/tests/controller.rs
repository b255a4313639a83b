use motiongfx::controller::{FixedRatePlayer, PassivePlayer};
use motiongfx::time::{cs, ns, s, Duration};

fn at(fps: u16, frame: u64) -> Duration {
    FixedRatePlayer {
        fps,
        curr_frame: frame,
        is_playing: false,
    }
    .frame_time()
}

#[test]
fn frame_time_is_exact_where_the_rate_divides() {
    assert_eq!(at(30, 0), Duration::zero());
    assert_eq!(at(30, 30), s(1));
    assert_eq!(at(30, 3), cs(10));
    assert_eq!(at(25, 1), cs(4));
    assert_eq!(at(60, 90), cs(150));
}

/// Deriving from the counter leaves no accumulated error, so a long
/// render lands on exact second boundaries.
#[test]
fn frame_time_does_not_drift_over_a_long_render() {
    // 30 minutes at 30fps.
    assert_eq!(at(30, 54_000), s(1800));
    assert_eq!(at(30, 30_000_000_000), s(1_000_000_000));
}

/// 1/3s is not representable in nanoseconds, so consecutive frames
/// differ by a nanosecond. The error must not compound.
#[test]
fn frame_time_stays_within_a_nanosecond_of_ideal() {
    for frame in [1u64, 2, 1_000, 999_999] {
        let ideal = ns((frame as u128 * 1_000_000_000 / 3) as u64);

        assert_eq!(at(3, frame).abs_diff(ideal), Duration::zero());
    }
}

/// A rate of zero frames per second advances no time.
#[test]
fn zero_fps_yields_zero() {
    assert_eq!(at(0, 0), Duration::zero());
    assert_eq!(at(0, 5), Duration::zero());
}

#[test]
fn fixed_rate_player_builders() {
    let player = FixedRatePlayer::default();
    assert_eq!(player.fps, 30);
    assert_eq!(player.curr_frame, 0);
    assert!(!player.is_playing);

    let mut player = FixedRatePlayer::new(24).with_fps(60);
    assert_eq!(player.fps, 60);
    player.set_playing(true).set_playing(true);
    assert!(player.is_playing);
    player.set_playing(false);
    assert!(!player.is_playing);
}

#[test]
fn passive_player_setters() {
    let mut player = PassivePlayer::default();
    assert_eq!(player.get_time(), Duration::zero());
    assert_eq!(player.get_track(), 0);
    player.set_time(s(3)).set_track_index(2);
    assert_eq!(player.get_time(), s(3));
    assert_eq!(player.get_track(), 2);
}
