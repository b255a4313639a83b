//! A registry of subject ids: each distinct subject id gets a unique
//! type-erased [`UId`], and the registry counts the instances using it,
//! forgetting the subject when the last instance is removed.
//!
//! Subject ids are held as `u64` values.

use hashbrown::HashMap;
use vstd::prelude::*;

use crate::action::UId;

verus! {

/// Subject id to [`UId`], in a `hashbrown::HashMap`.
#[verifier::external_body]
pub struct SubjectUids {
    inner: HashMap<u64, UId>,
}

/// The entries of a [`SubjectUids`].
pub uninterp spec fn subject_uid_items(map: SubjectUids) -> Map<u64, UId>;

/// [`UId`] to subject id, in a `hashbrown::HashMap`.
#[verifier::external_body]
pub struct UidSubjects {
    inner: HashMap<UId, u64>,
}

/// The entries of a [`UidSubjects`].
pub uninterp spec fn uid_subject_items(map: UidSubjects) -> Map<UId, u64>;

/// [`UId`] to instance count, in a `hashbrown::HashMap`.
#[verifier::external_body]
pub struct UidCounts {
    inner: HashMap<UId, u32>,
}

/// The entries of a [`UidCounts`].
pub uninterp spec fn uid_count_items(map: UidCounts) -> Map<UId, u32>;

/// Calls `hashbrown::HashMap::new` for subject ids: empty.
#[verifier::external_body]
fn subject_uids_new() -> (r: SubjectUids)
    ensures
        subject_uid_items(r) =~= Map::empty(),
{
    SubjectUids { inner: HashMap::new() }
}

/// Calls `hashbrown::HashMap::get` and copies the [`UId`] out.
#[verifier::external_body]
fn subject_uids_get<'a>(map: &'a SubjectUids, id: &u64) -> (r: Option<&'a UId>)
    ensures
        r is Some == subject_uid_items(*map).contains_key(*id),
        r matches Some(u) ==> *u == subject_uid_items(*map)[*id],
{
    map.inner.get(id)
}

/// Calls `hashbrown::HashMap::insert`.
#[verifier::external_body]
fn subject_uids_insert(map: &mut SubjectUids, id: u64, uid: UId) -> (r: Option<UId>)
    ensures
        subject_uid_items(*final(map)) == subject_uid_items(*old(map)).insert(id, uid),
        r == subject_uid_items(*old(map)).get(id),
{
    map.inner.insert(id, uid)
}

/// Calls `hashbrown::HashMap::remove`.
#[verifier::external_body]
fn subject_uids_remove(map: &mut SubjectUids, id: &u64) -> (r: Option<UId>)
    ensures
        subject_uid_items(*final(map)) == subject_uid_items(*old(map)).remove(*id),
        r == subject_uid_items(*old(map)).get(*id),
{
    map.inner.remove(id)
}

/// Calls `hashbrown::HashMap::is_empty`.
#[verifier::external_body]
fn subject_uids_is_empty(map: &SubjectUids) -> (r: bool)
    ensures
        r == (subject_uid_items(*map).dom() =~= Set::empty()),
{
    map.inner.is_empty()
}

/// Calls `hashbrown::HashMap::new` for uids: empty.
#[verifier::external_body]
fn uid_subjects_new() -> (r: UidSubjects)
    ensures
        uid_subject_items(r) =~= Map::empty(),
{
    UidSubjects { inner: HashMap::new() }
}

/// Calls `hashbrown::HashMap::get`.
#[verifier::external_body]
fn uid_subjects_get<'a>(map: &'a UidSubjects, uid: &UId) -> (r: Option<&'a u64>)
    ensures
        r is Some == uid_subject_items(*map).contains_key(*uid),
        r matches Some(i) ==> *i == uid_subject_items(*map)[*uid],
{
    map.inner.get(uid)
}

/// Calls `hashbrown::HashMap::insert`.
#[verifier::external_body]
fn uid_subjects_insert(map: &mut UidSubjects, uid: UId, id: u64) -> (r: Option<u64>)
    ensures
        uid_subject_items(*final(map)) == uid_subject_items(*old(map)).insert(uid, id),
        r == uid_subject_items(*old(map)).get(uid),
{
    map.inner.insert(uid, id)
}

/// Calls `hashbrown::HashMap::remove`.
#[verifier::external_body]
fn uid_subjects_remove(map: &mut UidSubjects, uid: &UId) -> (r: Option<u64>)
    ensures
        uid_subject_items(*final(map)) == uid_subject_items(*old(map)).remove(*uid),
        r == uid_subject_items(*old(map)).get(*uid),
{
    map.inner.remove(uid)
}

/// Calls `hashbrown::HashMap::new` for counts: empty.
#[verifier::external_body]
fn uid_counts_new() -> (r: UidCounts)
    ensures
        uid_count_items(r) =~= Map::empty(),
{
    UidCounts { inner: HashMap::new() }
}

/// Calls `hashbrown::HashMap::get` and copies the count out.
#[verifier::external_body]
fn uid_counts_get(map: &UidCounts, uid: &UId) -> (r: Option<u32>)
    ensures
        r == uid_count_items(*map).get(*uid),
{
    map.inner.get(uid).copied()
}

/// Calls `hashbrown::HashMap::insert`.
#[verifier::external_body]
fn uid_counts_insert(map: &mut UidCounts, uid: UId, count: u32) -> (r: Option<u32>)
    ensures
        uid_count_items(*final(map)) == uid_count_items(*old(map)).insert(uid, count),
        r == uid_count_items(*old(map)).get(uid),
{
    map.inner.insert(uid, count)
}

/// Calls `hashbrown::HashMap::remove`.
#[verifier::external_body]
fn uid_counts_remove(map: &mut UidCounts, uid: &UId) -> (r: Option<u32>)
    ensures
        uid_count_items(*final(map)) == uid_count_items(*old(map)).remove(*uid),
        r == uid_count_items(*old(map)).get(*uid),
{
    map.inner.remove(uid)
}

/// The maps and counter of an [`IdRegistry`], with no invariant of its
/// own, so that they can be updated step by step.
struct RegistryState {
    /// Maps subject ids to [`UId`]s.
    uid_map: SubjectUids,
    /// Maps [`UId`]s to subject ids.
    id_map: UidSubjects,
    /// The number of instances using the same [`UId`].
    instance_counts: UidCounts,
    /// The last [`UId`] handed out; incremented for every new one.
    next_uid: UId,
}

/// A [`UId`] map and generator for subject ids, with a count of the
/// instances using each.
pub struct IdRegistry {
    state: RegistryState,
}

impl Default for IdRegistry {
    fn default() -> (r: Self)
        ensures
            r.spec_uids() =~= Map::empty(),
            r.spec_ids() =~= Map::empty(),
            r.spec_counts() =~= Map::empty(),
            r.spec_last_uid() == 0,
            r.spec_wf(),
    {
        Self::new()
    }
}

impl RegistryState {
    spec fn spec_uids(self) -> Map<u64, UId> {
        subject_uid_items(self.uid_map)
    }

    spec fn spec_ids(self) -> Map<UId, u64> {
        uid_subject_items(self.id_map)
    }

    spec fn spec_counts(self) -> Map<UId, u32> {
        uid_count_items(self.instance_counts)
    }

    spec fn spec_last_uid(self) -> u64 {
        self.next_uid.0
    }

    /// The registry holding this state.
    spec fn registry(self) -> IdRegistry {
        IdRegistry { state: self }
    }

    /// [`IdRegistry::spec_wf`] of the registry holding this state.
    spec fn spec_wf(self) -> bool {
        &&& forall|id: u64|
            #[trigger] self.spec_uids().contains_key(id) ==> self.spec_ids().contains_key(
                self.spec_uids()[id],
            ) && self.spec_ids()[self.spec_uids()[id]] == id
        &&& forall|uid: UId|
            #[trigger] self.spec_ids().contains_key(uid) ==> self.spec_uids().contains_key(
                self.spec_ids()[uid],
            ) && self.spec_uids()[self.spec_ids()[uid]] == uid
        &&& forall|uid: UId|
            #[trigger] self.spec_counts().contains_key(uid) == self.spec_ids().contains_key(uid)
        &&& forall|uid: UId| #[trigger] self.spec_counts().contains_key(uid) ==> self.spec_counts()[uid] >= 1
        &&& forall|uid: UId|
            #[trigger] self.spec_ids().contains_key(uid) ==> 1 <= uid.0 <= self.spec_last_uid()
    }

    /// The state is well formed exactly when its registry is.
    proof fn lemma_wf(self)
        ensures
            self.spec_wf() == self.registry().spec_wf(),
    {
        assert(self.registry().spec_uids() == self.spec_uids());
        assert(self.registry().spec_ids() == self.spec_ids());
        assert(self.registry().spec_counts() == self.spec_counts());
        assert(self.registry().spec_last_uid() == self.spec_last_uid());
    }
}

impl IdRegistry {
    /// Subject id to [`UId`].
    pub closed spec fn spec_uids(self) -> Map<u64, UId> {
        self.state.spec_uids()
    }

    /// [`UId`] to subject id.
    pub closed spec fn spec_ids(self) -> Map<UId, u64> {
        self.state.spec_ids()
    }

    /// [`UId`] to instance count.
    pub closed spec fn spec_counts(self) -> Map<UId, u32> {
        self.state.spec_counts()
    }

    /// The last [`UId`] handed out.
    pub closed spec fn spec_last_uid(self) -> u64 {
        self.state.spec_last_uid()
    }

    #[verifier::type_invariant]
    closed spec fn inv(self) -> bool {
        self.spec_wf()
    }

    /// The two maps are inverse to each other, every registered [`UId`]
    /// has a count of at least one, and every [`UId`] handed out so far
    /// lies in `1..=last`.
    pub open spec fn spec_wf(self) -> bool {
        &&& forall|id: u64|
            #[trigger] self.spec_uids().contains_key(id) ==> self.spec_ids().contains_key(
                self.spec_uids()[id],
            ) && self.spec_ids()[self.spec_uids()[id]] == id
        &&& forall|uid: UId|
            #[trigger] self.spec_ids().contains_key(uid) ==> self.spec_uids().contains_key(
                self.spec_ids()[uid],
            ) && self.spec_uids()[self.spec_ids()[uid]] == uid
        &&& forall|uid: UId|
            #[trigger] self.spec_counts().contains_key(uid) == self.spec_ids().contains_key(uid)
        &&& forall|uid: UId| #[trigger] self.spec_counts().contains_key(uid) ==> self.spec_counts()[uid] >= 1
        &&& forall|uid: UId|
            #[trigger] self.spec_ids().contains_key(uid) ==> 1 <= uid.0 <= self.spec_last_uid()
    }

    /// `after` is `before` with one more instance of subject `id`, whose
    /// [`UId`] is `uid`: the subject's own if it was registered (its
    /// count one higher), else the next fresh one (with a count of 1).
    pub open spec fn spec_registered(before: IdRegistry, after: IdRegistry, id: u64, uid: UId) -> bool {
        &&& after.spec_uids() == before.spec_uids().insert(id, uid)
        &&& after.spec_ids() == before.spec_ids().insert(uid, id)
        &&& before.spec_uids().contains_key(id) ==> {
            &&& uid == before.spec_uids()[id]
            &&& after.spec_counts() == before.spec_counts().insert(
                uid,
                (before.spec_counts()[uid] + 1) as u32,
            )
            &&& after.spec_last_uid() == before.spec_last_uid()
        }
        &&& !before.spec_uids().contains_key(id) ==> {
            &&& uid == UId((before.spec_last_uid() + 1) as u64)
            &&& !before.spec_ids().contains_key(uid)
            &&& after.spec_counts() == before.spec_counts().insert(uid, 1)
            &&& after.spec_last_uid() == before.spec_last_uid() + 1
        }
    }

    /// `after` is `before` with one instance of `uid` fewer, `removed`
    /// telling whether `uid` was registered: the subject is forgotten
    /// with its last instance, and an unknown `uid` changes nothing.
    pub open spec fn spec_removed(before: IdRegistry, after: IdRegistry, uid: UId, removed: bool) -> bool {
        &&& removed == before.spec_counts().contains_key(uid)
        &&& after.spec_last_uid() == before.spec_last_uid()
        &&& !removed ==> {
            &&& after.spec_uids() == before.spec_uids()
            &&& after.spec_ids() == before.spec_ids()
            &&& after.spec_counts() == before.spec_counts()
        }
        &&& removed && before.spec_counts()[uid] > 1 ==> {
            &&& after.spec_uids() == before.spec_uids()
            &&& after.spec_ids() == before.spec_ids()
            &&& after.spec_counts() == before.spec_counts().insert(
                uid,
                (before.spec_counts()[uid] - 1) as u32,
            )
        }
        &&& removed && before.spec_counts()[uid] == 1 ==> {
            &&& after.spec_uids() == before.spec_uids().remove(before.spec_ids()[uid])
            &&& after.spec_ids() == before.spec_ids().remove(uid)
            &&& after.spec_counts() == before.spec_counts().remove(uid)
        }
    }

    /// An empty registry.
    pub fn new() -> (r: Self)
        ensures
            r.spec_uids() =~= Map::empty(),
            r.spec_ids() =~= Map::empty(),
            r.spec_counts() =~= Map::empty(),
            r.spec_last_uid() == 0,
            r.spec_wf(),
    {
        let state = RegistryState::new();
        proof {
            state.lemma_wf();
        }
        IdRegistry { state }
    }

    /// Registers the subject id with an initial instance count of 1 if
    /// it is not registered yet, otherwise increases its instance count.
    ///
    /// Returns the [`UId`] of the subject id.
    pub fn register_instance(&mut self, id: u64) -> (r: UId)
        requires
            old(self).spec_uids().contains_key(id) ==> old(self).spec_counts()[old(
                self,
            ).spec_uids()[id]] < u32::MAX,
            !old(self).spec_uids().contains_key(id) ==> old(self).spec_last_uid() < u64::MAX,
        ensures
            final(self).spec_wf(),
            Self::spec_registered(*old(self), *final(self), id, r),
    {
        proof {
            use_type_invariant(&*self);
        }
        let mut state = RegistryState::new();
        proof {
            state.lemma_wf();
        }
        core::mem::swap(&mut state, &mut self.state);
        proof {
            state.lemma_wf();
        }
        let r = state.register_instance(id);
        proof {
            state.lemma_wf();
        }
        self.state = state;
        r
    }

    /// Reduces the instance count of the subject id of `uid`; the last
    /// instance removed erases the subject.
    ///
    /// Returns `true` if an instance was removed, `false` if `uid` is not
    /// registered.
    pub fn remove_instance(&mut self, uid: &UId) -> (r: bool)
        ensures
            final(self).spec_wf(),
            Self::spec_removed(*old(self), *final(self), *uid, r),
    {
        proof {
            use_type_invariant(&*self);
        }
        let mut state = RegistryState::new();
        proof {
            state.lemma_wf();
        }
        core::mem::swap(&mut state, &mut self.state);
        proof {
            state.lemma_wf();
        }
        let r = state.remove_instance(uid);
        proof {
            state.lemma_wf();
        }
        self.state = state;
        r
    }

    /// Whether no subject is registered.
    pub fn is_empty(&self) -> (r: bool)
        ensures
            r == (self.spec_uids().dom() =~= Set::empty()),
    {
        self.state.is_empty()
    }

    /// The [`UId`] of a subject id.
    pub fn get_uid(&self, id: &u64) -> (r: Option<&UId>)
        ensures
            r is Some == self.spec_uids().contains_key(*id),
            r matches Some(u) ==> *u == self.spec_uids()[*id],
    {
        self.state.get_uid(id)
    }

    /// The subject id of a [`UId`].
    pub fn get_id(&self, uid: &UId) -> (r: Option<&u64>)
        ensures
            r is Some == self.spec_ids().contains_key(*uid),
            r matches Some(i) ==> *i == self.spec_ids()[*uid],
    {
        self.state.get_id(uid)
    }
}

impl RegistryState {
    /// An empty registry.
    fn new() -> (r: Self)
        ensures
            r.spec_uids() =~= Map::empty(),
            r.spec_ids() =~= Map::empty(),
            r.spec_counts() =~= Map::empty(),
            r.spec_last_uid() == 0,
            r.spec_wf(),
    {
        Self {
            uid_map: subject_uids_new(),
            id_map: uid_subjects_new(),
            instance_counts: uid_counts_new(),
            next_uid: UId(0),
        }
    }

    /// Registers the subject id with an initial instance count of 1 if
    /// it is not registered yet, otherwise increases its instance count.
    ///
    /// Returns the [`UId`] of the subject id.
    fn register_instance(&mut self, id: u64) -> (r: UId)
        requires
            old(self).spec_wf(),
            old(self).spec_uids().contains_key(id) ==> old(self).spec_counts()[old(
                self,
            ).spec_uids()[id]] < u32::MAX,
            !old(self).spec_uids().contains_key(id) ==> old(self).spec_last_uid() < u64::MAX,
        ensures
            final(self).spec_wf(),
            IdRegistry::spec_registered(old(self).registry(), final(self).registry(), id, r),
    {
        let existing = match subject_uids_get(&self.uid_map, &id) {
            Some(uid) => Some(*uid),
            None => None,
        };
        let r = match existing {
            Some(uid) => {
                proof {
                    assert(old(self).spec_uids().contains_key(id));
                    assert(old(self).spec_uids()[id] == uid);
                    assert(old(self).spec_ids().contains_key(uid));
                    assert(old(self).spec_counts().contains_key(uid));
                    assert(self.spec_ids().contains_key(uid));
                    assert(self.spec_counts().contains_key(uid));
                }
                let count = match uid_counts_get(&self.instance_counts, &uid) {
                    Some(c) => c,
                    None => 0,
                };
                let mut counts = uid_counts_new();
                core::mem::swap(&mut counts, &mut self.instance_counts);
                let _ = uid_counts_insert(&mut counts, uid, count + 1);
                self.instance_counts = counts;
                proof {
                    assert(self.spec_uids() =~= old(self).spec_uids().insert(id, uid));
                    assert(self.spec_ids() =~= old(self).spec_ids().insert(uid, id));
                    assert forall|u: UId| #[trigger] self.spec_counts().contains_key(u)
                        == self.spec_ids().contains_key(u) by {
                        assert(old(self).spec_counts().contains_key(u) == old(self).spec_ids().contains_key(u));
                    }
                    assert forall|u: UId| #[trigger] self.spec_counts().contains_key(u)
                        implies self.spec_counts()[u] >= 1 by {
                        if u != uid {
                            assert(old(self).spec_counts().contains_key(u));
                        }
                    }
                    assert(self.spec_wf());
                }
                uid
            },
            None => {
                let uid = UId(self.next_uid.0 + 1);
                proof {
                    assert(!self.spec_ids().contains_key(uid));
                }
                self.next_uid = uid;
                let mut uid_map = subject_uids_new();
                core::mem::swap(&mut uid_map, &mut self.uid_map);
                let mut id_map = uid_subjects_new();
                core::mem::swap(&mut id_map, &mut self.id_map);
                let mut counts = uid_counts_new();
                core::mem::swap(&mut counts, &mut self.instance_counts);
                let _ = uid_subjects_insert(&mut id_map, uid, id);
                let _ = uid_counts_insert(&mut counts, uid, 1);
                let _ = subject_uids_insert(&mut uid_map, id, uid);
                self.uid_map = uid_map;
                self.id_map = id_map;
                self.instance_counts = counts;
                proof {
                    let o = *old(self);
                    assert(!o.spec_uids().contains_key(id));
                    assert forall|i: u64| #[trigger] self.spec_uids().contains_key(i) implies self.spec_ids().contains_key(
                        self.spec_uids()[i],
                    ) && self.spec_ids()[self.spec_uids()[i]] == i by {
                        if i != id {
                            assert(o.spec_uids().contains_key(i));
                            assert(o.spec_ids().contains_key(o.spec_uids()[i]));
                            assert(o.spec_uids()[i] != uid);
                        }
                    }
                    assert forall|u: UId| #[trigger] self.spec_ids().contains_key(u) implies self.spec_uids().contains_key(
                        self.spec_ids()[u],
                    ) && self.spec_uids()[self.spec_ids()[u]] == u by {
                        if u != uid {
                            assert(o.spec_ids().contains_key(u));
                            assert(o.spec_uids().contains_key(o.spec_ids()[u]));
                            assert(o.spec_ids()[u] != id);
                        }
                    }
                    assert forall|u: UId| #[trigger] self.spec_counts().contains_key(u)
                        == self.spec_ids().contains_key(u) by {
                        assert(o.spec_counts().contains_key(u) == o.spec_ids().contains_key(u));
                    }
                    assert forall|u: UId| #[trigger] self.spec_counts().contains_key(u)
                        implies self.spec_counts()[u] >= 1 by {
                        if u != uid {
                            assert(o.spec_counts().contains_key(u));
                        }
                    }
                    assert forall|u: UId| #[trigger] self.spec_ids().contains_key(u)
                        implies 1 <= u.0 <= self.spec_last_uid() by {
                        if u != uid {
                            assert(o.spec_ids().contains_key(u));
                        }
                    }
                }
                uid
            },
        };
        r
    }

    /// Reduces the instance count of the subject id of `uid`; the last
    /// instance removed erases the subject.
    ///
    /// Returns `true` if an instance was removed, `false` if `uid` is not
    /// registered.
    fn remove_instance(&mut self, uid: &UId) -> (r: bool)
        requires
            old(self).spec_wf(),
        ensures
            final(self).spec_wf(),
            IdRegistry::spec_removed(old(self).registry(), final(self).registry(), *uid, r),
    {
        let count = match uid_counts_get(&self.instance_counts, uid) {
            Some(count) => count,
            None => {
                return false;
            },
        };
        assert(self.spec_counts().contains_key(*uid));
        assert(old(self).spec_counts().contains_key(*uid));
        assert(old(self).spec_ids().contains_key(*uid));
        if count > 1 {
            let mut counts = uid_counts_new();
            core::mem::swap(&mut counts, &mut self.instance_counts);
            let _ = uid_counts_insert(&mut counts, *uid, count - 1);
            self.instance_counts = counts;
        } else {
            let id = match uid_subjects_get(&self.id_map, uid) {
                Some(id) => *id,
                None => 0,
            };
            let mut uid_map = subject_uids_new();
            core::mem::swap(&mut uid_map, &mut self.uid_map);
            let mut id_map = uid_subjects_new();
            core::mem::swap(&mut id_map, &mut self.id_map);
            let mut counts = uid_counts_new();
            core::mem::swap(&mut counts, &mut self.instance_counts);
            let _ = subject_uids_remove(&mut uid_map, &id);
            let _ = uid_subjects_remove(&mut id_map, uid);
            let _ = uid_counts_remove(&mut counts, uid);
            self.uid_map = uid_map;
            self.id_map = id_map;
            self.instance_counts = counts;
            proof {
                let o = *old(self);
                assert(o.spec_ids().contains_key(*uid));
                assert(id == o.spec_ids()[*uid]);
                assert(o.spec_uids()[id] == *uid);
                assert forall|i: u64| #[trigger] self.spec_uids().contains_key(i) implies self.spec_ids().contains_key(
                    self.spec_uids()[i],
                ) && self.spec_ids()[self.spec_uids()[i]] == i by {
                    assert(o.spec_uids().contains_key(i));
                    assert(o.spec_ids()[o.spec_uids()[i]] == i);
                }
                assert forall|u: UId| #[trigger] self.spec_ids().contains_key(u) implies self.spec_uids().contains_key(
                    self.spec_ids()[u],
                ) && self.spec_uids()[self.spec_ids()[u]] == u by {
                    assert(o.spec_ids().contains_key(u));
                    assert(o.spec_uids()[o.spec_ids()[u]] == u);
                }
                assert forall|u: UId| #[trigger] self.spec_counts().contains_key(u)
                    == self.spec_ids().contains_key(u) by {
                    assert(o.spec_counts().contains_key(u) == o.spec_ids().contains_key(u));
                }
                assert forall|u: UId| #[trigger] self.spec_counts().contains_key(u)
                    implies self.spec_counts()[u] >= 1 by {
                    assert(o.spec_counts().contains_key(u));
                }
                assert forall|u: UId| #[trigger] self.spec_ids().contains_key(u)
                    implies 1 <= u.0 <= self.spec_last_uid() by {
                    assert(o.spec_ids().contains_key(u));
                }
            }
        }
        true
    }

    /// Whether no subject is registered.
    fn is_empty(&self) -> (r: bool)
        ensures
            r == (self.spec_uids().dom() =~= Set::empty()),
    {
        subject_uids_is_empty(&self.uid_map)
    }

    /// The [`UId`] of a subject id.
    fn get_uid(&self, id: &u64) -> (r: Option<&UId>)
        ensures
            r is Some == self.spec_uids().contains_key(*id),
            r matches Some(u) ==> *u == self.spec_uids()[*id],
    {
        subject_uids_get(&self.uid_map, id)
    }

    /// The subject id of a [`UId`].
    fn get_id(&self, uid: &UId) -> (r: Option<&u64>)
        ensures
            r is Some == self.spec_ids().contains_key(*uid),
            r matches Some(i) ==> *i == self.spec_ids()[*uid],
    {
        uid_subjects_get(&self.id_map, uid)
    }
}

/// Distinct subjects have distinct [`UId`]s.
pub proof fn lemma_distinct_subjects_distinct_uids(registry: IdRegistry, a: u64, b: u64)
    requires
        registry.spec_wf(),
        registry.spec_uids().contains_key(a),
        registry.spec_uids().contains_key(b),
        a != b,
    ensures
        registry.spec_uids()[a] != registry.spec_uids()[b],
{
}

/// A registered subject resolves both ways: to its [`UId`], and back.
pub proof fn lemma_register_resolves_both_ways(before: IdRegistry, after: IdRegistry, id: u64, uid: UId)
    requires
        IdRegistry::spec_registered(before, after, id, uid),
    ensures
        after.spec_uids().contains_key(id),
        after.spec_uids()[id] == uid,
        after.spec_ids().contains_key(uid),
        after.spec_ids()[uid] == id,
{
}

/// Registering the same subject twice gives the same [`UId`].
pub proof fn lemma_register_same_subject_same_uid(
    first: IdRegistry,
    second: IdRegistry,
    third: IdRegistry,
    id: u64,
    uid1: UId,
    uid2: UId,
)
    requires
        IdRegistry::spec_registered(first, second, id, uid1),
        IdRegistry::spec_registered(second, third, id, uid2),
    ensures
        uid1 == uid2,
{
}

/// Registering a new subject and removing its one instance gives back
/// the registry's maps as they were, apart from the used-up [`UId`].
pub proof fn lemma_register_remove_round_trip(
    before: IdRegistry,
    mid: IdRegistry,
    after: IdRegistry,
    id: u64,
    uid: UId,
    removed: bool,
)
    requires
        before.spec_wf(),
        !before.spec_uids().contains_key(id),
        IdRegistry::spec_registered(before, mid, id, uid),
        IdRegistry::spec_removed(mid, after, uid, removed),
    ensures
        removed,
        after.spec_uids() == before.spec_uids(),
        after.spec_ids() == before.spec_ids(),
        after.spec_counts() == before.spec_counts(),
{
    assert(!before.spec_counts().contains_key(uid));
    assert(mid.spec_counts()[uid] == 1);
    assert(mid.spec_ids()[uid] == id);
    assert(after.spec_uids() =~= before.spec_uids());
    assert(after.spec_ids() =~= before.spec_ids());
    assert(after.spec_counts() =~= before.spec_counts());
}

/// Two registrations in a row, with no removal between them, give the
/// same [`UId`] exactly when they register the same subject; afterwards
/// both subjects resolve both ways.
pub proof fn lemma_two_registrations(
    first: IdRegistry,
    second: IdRegistry,
    third: IdRegistry,
    a: u64,
    b: u64,
    uid_a: UId,
    uid_b: UId,
)
    requires
        first.spec_wf(),
        second.spec_wf(),
        IdRegistry::spec_registered(first, second, a, uid_a),
        IdRegistry::spec_registered(second, third, b, uid_b),
    ensures
        (uid_a == uid_b) == (a == b),
        third.spec_uids()[a] == uid_a,
        third.spec_ids()[uid_a] == a,
        third.spec_uids()[b] == uid_b,
        third.spec_ids()[uid_b] == b,
{
    assert(second.spec_uids().contains_key(a));
    assert(second.spec_uids()[a] == uid_a);
    if a != b {
        if second.spec_uids().contains_key(b) {
            assert(uid_b == second.spec_uids()[b]);
        } else {
            assert(second.spec_ids().contains_key(uid_a));
        }
    }
}

/// A subject registered afresh gets a [`UId`] above every one handed
/// out before, removed or not: the count of uids handed out grows by
/// one, and every uid handed out so far lies at or below that count.
pub proof fn lemma_fresh_uid_is_new(before: IdRegistry, after: IdRegistry, id: u64, uid: UId)
    requires
        before.spec_wf(),
        !before.spec_uids().contains_key(id),
        IdRegistry::spec_registered(before, after, id, uid),
    ensures
        uid.0 == before.spec_last_uid() + 1,
        after.spec_last_uid() == uid.0,
        forall|u: UId| #[trigger] before.spec_ids().contains_key(u) ==> u.0 < uid.0,
{
}

/// Removing an instance never lowers the count of uids handed out, so a
/// uid handed out before a removal is not handed out again.
pub proof fn lemma_remove_keeps_uid_count(before: IdRegistry, after: IdRegistry, uid: UId, removed: bool)
    requires
        IdRegistry::spec_removed(before, after, uid, removed),
    ensures
        after.spec_last_uid() == before.spec_last_uid(),
{
}

/// A [`UId`] is never handed out twice: a subject registered afresh,
/// after another registration and any removal, even of that other
/// subject's last instance, gets a [`UId`] other than the earlier one.
pub proof fn lemma_uid_never_reissued(
    first: IdRegistry,
    second: IdRegistry,
    third: IdRegistry,
    fourth: IdRegistry,
    a: u64,
    uid_a: UId,
    removed_uid: UId,
    removed: bool,
    b: u64,
    uid_b: UId,
)
    requires
        first.spec_wf(),
        IdRegistry::spec_registered(first, second, a, uid_a),
        IdRegistry::spec_removed(second, third, removed_uid, removed),
        !third.spec_uids().contains_key(b),
        IdRegistry::spec_registered(third, fourth, b, uid_b),
    ensures
        uid_a.0 < uid_b.0,
        uid_a != uid_b,
{
    if first.spec_uids().contains_key(a) {
        assert(first.spec_ids().contains_key(uid_a));
    }
}

} // verus!
