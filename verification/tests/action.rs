use motiongfx::action::{
    paths_alias, ActionClip, ActionId, ActionKey, ClipProgress, FieldKey, SampleMode,
    Segment, UId, UntypedSubjectId,
};
use motiongfx::time::{cs, s, Duration};

fn clip(start: Duration, duration: Duration) -> ActionClip {
    ActionClip {
        id: ActionId::placeholder(),
        start,
        duration,
    }
}

/// `end()` runs on every queue pass, so a saturated duration must
/// not panic there.
#[test]
fn end_saturates_instead_of_overflowing() {
    let clip = ActionClip {
        id: ActionId::placeholder(),
        start: Duration::max_value(),
        duration: Duration::max_value(),
    };

    assert_eq!(clip.end(), Duration::max_value());
}

#[test]
fn clip_end_is_start_plus_duration() {
    assert_eq!(clip(cs(100), cs(200)).end(), cs(300));
    let fresh = ActionClip::new(ActionId::new(3, 0), cs(50));
    assert_eq!(fresh.start, Duration::zero());
    assert_eq!(fresh.end(), cs(50));
}

#[test]
fn progress_parts_measure_from_the_clip_start() {
    let c = clip(cs(100), cs(200));
    assert_eq!(
        c.progress_parts(cs(200)),
        ClipProgress {
            elapsed: cs(100),
            span: cs(200)
        }
    );
    // Before the clip, nothing has elapsed.
    assert_eq!(c.progress_parts(Duration::zero()).elapsed, Duration::zero());
    assert_eq!(
        SampleMode::Interp(c.progress_parts(cs(300))),
        SampleMode::Interp(ClipProgress {
            elapsed: cs(200),
            span: cs(200)
        })
    );
}

#[test]
fn source_path_aliases_every_field() {
    assert!(paths_alias("", "::x"));
    assert!(paths_alias("::x", ""));
    assert!(paths_alias("", ""));
    assert!(paths_alias("::translation", "::translation::x"));
    assert!(paths_alias("::translation::x", "::translation"));
}

#[test]
fn sibling_and_look_alike_paths_do_not_alias() {
    assert!(!paths_alias("::x", "::y"));
    assert!(!paths_alias("::x", "::xy"));
    assert!(!paths_alias("::translation::x", "::translation::y"));
    assert!(!paths_alias("::a", "::a:b"));
}

#[test]
fn action_ids_order_by_creation() {
    let a = ActionId::new(1, 0);
    let b = ActionId::new(2, 0);
    let c = ActionId::new(1, 1);
    assert!(a.lt(&b));
    assert!(a.lt(&c));
    assert!(c.lt(&b));
    assert!(!b.lt(&a));
    assert_eq!(a.index(), 1);
    assert_eq!(c.generation(), 1);
}

struct Marker;

#[test]
fn subject_ids_compare_by_type_and_uid() {
    let a = UntypedSubjectId::new::<Marker>(UId(4));
    let b = UntypedSubjectId::new::<Marker>(UId(4));
    let c = UntypedSubjectId::new::<Marker>(UId(5));
    let p = UntypedSubjectId::placeholder_with_u64(4);
    assert!(a.same(&b));
    assert!(!a.same(&c));
    assert!(!a.same(&p));
    assert_eq!(a.uid(), UId(4));
    assert_eq!(p.uid(), UId(4));
    assert_eq!(UntypedSubjectId::placeholder().uid(), UId(u64::MAX));
    assert_eq!(a.type_id(), core::any::TypeId::of::<Marker>());
}

#[test]
fn field_keys_compare_by_types_and_path() {
    let a = FieldKey::new::<u32, f32>("::x");
    let b = FieldKey::new::<u32, f32>("::x");
    let c = FieldKey::new::<u32, f32>("::y");
    let d = FieldKey::placeholder_with_path("::x");
    assert!(a.same(&b));
    assert!(!a.same(&c));
    assert!(!a.same(&d));
    assert_eq!(a.field_path(), "::x");
    assert_eq!(a.source_id(), core::any::TypeId::of::<u32>());
    assert_eq!(a.target_id(), core::any::TypeId::of::<f32>());
}

#[test]
fn action_keys_hold_subject_and_field() {
    let subject = UntypedSubjectId::placeholder_with_u64(9);
    let field = FieldKey::placeholder_with_path("::x");
    let key = ActionKey::new(subject, field);
    assert_eq!(*key.subject_id(), subject);
    assert_eq!(*key.field(), field);
    assert!(key.same(&ActionKey::new(subject, field)));
    assert!(!key.same(&ActionKey::new(
        UntypedSubjectId::placeholder_with_u64(8),
        field
    )));
}

#[test]
fn segments_hold_both_ends() {
    let seg = Segment::new(s(1), s(2));
    assert_eq!(seg.start, s(1));
    assert_eq!(seg.end, s(2));
}

#[test]
fn field_keys_come_from_field_path_fields() {
    let untyped = field_path::field::UntypedField::placeholder_with_path("::x");
    let key = FieldKey::from_untyped(&untyped);
    assert_eq!(key.field_path(), "::x");
    assert_eq!(key.source_id(), untyped.source_id());
    assert_eq!(key.target_id(), untyped.target_id());
}
