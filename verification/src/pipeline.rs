//! Keys that identify a bake/sample pipeline by the types it works on.

use core::any::TypeId;
use core::marker::PhantomData;

use vstd::prelude::*;

use crate::action::{type_id_of, ActionKey};

verus! {

/// Types that can be shared and sent across threads and live for the
/// whole program.
pub trait ThreadSafe: Send + Sync + 'static {}

impl<T: Send + Sync + 'static> ThreadSafe for T {}

/// Uniquely identifies a pipeline by its world, subject, source and
/// target types.
#[derive(Debug, Clone, Copy, PartialEq, Eq, Hash, PartialOrd, Ord)]
pub struct PipelineKey {
    world_id: TypeId,
    subject_id: TypeId,
    source_id: TypeId,
    target_id: TypeId,
}

impl PipelineKey {
    pub closed spec fn spec_world_id(self) -> TypeId {
        self.world_id
    }

    pub closed spec fn spec_subject_id(self) -> TypeId {
        self.subject_id
    }

    pub closed spec fn spec_source_id(self) -> TypeId {
        self.source_id
    }

    pub closed spec fn spec_target_id(self) -> TypeId {
        self.target_id
    }

    /// The key of world `W`, subject id `I`, source `S` and target `T`.
    pub fn new<W: 'static, I: 'static, S: 'static, T: 'static>() -> (r: Self) {
        Self {
            world_id: type_id_of::<W>(),
            subject_id: type_id_of::<I>(),
            source_id: type_id_of::<S>(),
            target_id: type_id_of::<T>(),
        }
    }

    /// The key of world `W` that the action key's subject and field
    /// call for.
    pub fn from_action_key<W: 'static>(key: ActionKey) -> (r: Self)
        ensures
            r.spec_subject_id() == key.spec_subject_id().spec_type_id(),
            r.spec_source_id() == key.spec_field()@.0,
            r.spec_target_id() == key.spec_field()@.1,
    {
        Self {
            world_id: type_id_of::<W>(),
            subject_id: key.subject_id().type_id(),
            source_id: key.field().source_id(),
            target_id: key.field().target_id(),
        }
    }

    /// The type id of the world.
    pub fn world_id(&self) -> (r: TypeId)
        ensures
            r == self.spec_world_id(),
    {
        self.world_id
    }
}

/// A typed handle to the pipeline of world `W`, subject id `I`, source
/// `S` and target `T`.
pub struct PipelineHandle<W, I, S, T> {
    marker: PhantomData<(W, I, S, T)>,
}

impl<W: 'static, I: 'static, S: 'static, T: 'static> PipelineHandle<W, I, S, T> {
    pub fn new() -> (r: Self) {
        Self { marker: PhantomData }
    }

    /// The [`PipelineKey`] of this handle's types.
    pub fn as_key(&self) -> (r: PipelineKey) {
        PipelineKey::new::<W, I, S, T>()
    }
}

} // verus!
