use core::any::TypeId;

use motiongfx::action::{ActionKey, FieldKey, UId, UntypedSubjectId};
use motiongfx::pipeline::{PipelineHandle, PipelineKey};

struct World;
struct Subject;
struct Source;

#[test]
fn handle_key_matches_the_typed_key() {
    let handle = PipelineHandle::<World, Subject, Source, f32>::new();
    assert_eq!(handle.as_key(), PipelineKey::new::<World, Subject, Source, f32>());
    assert_eq!(handle.as_key().world_id(), TypeId::of::<World>());
    assert_ne!(handle.as_key(), PipelineKey::new::<World, Subject, Source, f64>());
}

#[test]
fn action_keys_name_their_pipeline() {
    let key = ActionKey::new(
        UntypedSubjectId::new::<Subject>(UId(1)),
        FieldKey::new::<Source, f32>("::x"),
    );
    assert_eq!(
        PipelineKey::from_action_key::<World>(key),
        PipelineKey::new::<World, Subject, Source, f32>()
    );
}
