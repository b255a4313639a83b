use motiongfx::action::{ActionClip, ActionId};
use motiongfx::sequence::{ClipConflict, Sequence};
use motiongfx::time::{cs, Duration};

fn clip(id: u32, start: u64, dur: u64) -> ActionClip {
    ActionClip {
        id: ActionId::new(id, 0),
        start: cs(start),
        duration: cs(dur),
    }
}

#[test]
fn sequence_spans_first_start_to_last_end() {
    let mut seq = Sequence::new(clip(0, 10, 20));
    seq.push(clip(1, 40, 10));
    assert_eq!(seq.len(), 2);
    assert_eq!(seq.start(), cs(10));
    assert_eq!(seq.end(), cs(50));
    assert_eq!(seq.duration(), cs(40));
    assert_eq!(seq.get(1), clip(1, 40, 10));
}

#[test]
fn delay_moves_every_clip() {
    let mut seq = Sequence::new(clip(0, 0, 20));
    seq.push(clip(1, 30, 10));
    seq.delay(cs(5));
    let clips = seq.into_clips();
    assert_eq!(clips, vec![clip(0, 5, 20), clip(1, 35, 10)]);
}

#[test]
fn delay_saturates() {
    let mut seq = Sequence::new(ActionClip {
        id: ActionId::new(0, 0),
        start: Duration::max_value(),
        duration: cs(1),
    });
    seq.delay(cs(5));
    assert_eq!(seq.start(), Duration::max_value());
}

#[test]
fn extend_appends_in_order() {
    let mut seq = Sequence::new(clip(0, 0, 10));
    let mut more = Sequence::new(clip(1, 10, 10));
    more.push(clip(2, 20, 10));
    seq.extend(more);
    let ids: Vec<_> = seq.into_clips().iter().map(|c| c.id).collect();
    assert_eq!(ids, vec![ActionId::new(0, 0), ActionId::new(1, 0), ActionId::new(2, 0)]);
}

#[test]
fn ordered_back_to_back_clips_report_nothing() {
    let mut seq = Sequence::new(clip(0, 0, 10));
    seq.push(clip(1, 10, 10));
    seq.push(clip(2, 20, 10));
    assert!(seq.report_conflicts_from(0).is_empty());
    assert!(seq.report_conflicts_from(1).is_empty());
}

#[test]
fn overlapping_new_clip_is_reported() {
    let mut seq = Sequence::new(clip(0, 0, 100));
    seq.push(clip(1, 50, 100));
    assert_eq!(
        seq.report_conflicts_from(1),
        vec![ClipConflict::Overlaps { index: 1, before: 0 }]
    );
}

#[test]
fn clip_starting_before_its_predecessor_is_reported() {
    let mut seq = Sequence::new(clip(0, 100, 10));
    seq.push(clip(1, 0, 10));
    assert_eq!(
        seq.report_conflicts_from(1),
        vec![ClipConflict::StartsBeforePrevious { index: 1 }]
    );
}

#[test]
fn only_clips_from_the_first_new_are_reported() {
    let mut seq = Sequence::new(clip(0, 0, 100));
    seq.push(clip(1, 50, 100));
    seq.push(clip(2, 20, 10));
    assert_eq!(
        seq.report_conflicts_from(2),
        vec![
            ClipConflict::StartsBeforePrevious { index: 2 },
            ClipConflict::Overlaps { index: 2, before: 0 },
        ]
    );
    assert_eq!(
        seq.report_conflicts_from(1),
        vec![
            ClipConflict::Overlaps { index: 1, before: 0 },
            ClipConflict::StartsBeforePrevious { index: 2 },
            ClipConflict::Overlaps { index: 2, before: 0 },
        ]
    );
    assert!(seq.report_conflicts_from(3).is_empty());
    assert!(seq.report_conflicts_from(10).is_empty());
}
