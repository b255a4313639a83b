//! Identities of animated subjects and fields, action clips, and the
//! rule that decides when two field paths touch the same memory.

use core::any::TypeId;

use vstd::prelude::*;
use vstd::string::StringSliceAdditionalSpecFns;

use crate::time::{sat_add, Duration};

verus! {

/// `core::any::TypeId`, carried opaquely: the library only ever asks
/// whether two of them are equal.
#[verifier::external_type_specification]
#[verifier::external_body]
pub struct ExTypeId(TypeId);

/// Calls `core::any::TypeId::of::<T>()`.
///
/// Nothing is stated of the result: Verus treats each `TypeId` as an
/// opaque token, and two calls are not known to agree.
#[verifier::external_body]
pub(crate) fn type_id_of<T: ?Sized + 'static>() -> (r: TypeId) {
    TypeId::of::<T>()
}

/// Calls `<TypeId as PartialEq>::eq`.
///
/// States that two type ids compare equal exactly when they are the
/// same value, which is what the derived equality of `TypeId` does.
#[verifier::external_body]
pub(crate) fn type_id_eq(a: &TypeId, b: &TypeId) -> (r: bool)
    ensures
        r == (*a == *b),
{
    *a == *b
}

/// A type-erased unique Id in an id registry.
#[derive(Debug, Clone, Copy, PartialEq, Eq, PartialOrd, Ord, Hash)]
pub struct UId(pub u64);

/// A subject identified by the type of its id and a type-erased
/// [`UId`].
#[derive(Debug, Clone, Copy, PartialEq, Eq, PartialOrd, Ord, Hash)]
pub struct UntypedSubjectId {
    /// The `TypeId` of the subject id type.
    type_id: TypeId,
    /// The type-erased [`UId`] of the subject id.
    uid: UId,
}

impl UntypedSubjectId {
    pub closed spec fn spec_type_id(self) -> TypeId {
        self.type_id
    }

    pub closed spec fn spec_uid(self) -> UId {
        self.uid
    }

    /// A subject of id type `I` with the given [`UId`].
    pub fn new<I: ?Sized + 'static>(uid: UId) -> (r: Self)
        ensures
            r.spec_uid() == uid,
    {
        Self { type_id: type_id_of::<I>(), uid }
    }

    /// A placeholder subject that does not name a real id type.
    pub fn placeholder_with_u64(id: u64) -> (r: Self)
        ensures
            r.spec_uid() == UId(id),
    {
        Self { type_id: type_id_of::<()>(), uid: UId(id) }
    }

    /// The placeholder subject, with [`UId`] `u64::MAX`.
    pub fn placeholder() -> (r: Self)
        ensures
            r.spec_uid() == UId(u64::MAX),
    {
        Self::placeholder_with_u64(u64::MAX)
    }

    pub fn type_id(&self) -> (r: TypeId)
        ensures
            r == self.spec_type_id(),
    {
        self.type_id
    }

    pub fn uid(&self) -> (r: UId)
        ensures
            r == self.spec_uid(),
    {
        self.uid
    }

    /// Equality of both the id type and the [`UId`].
    pub fn same(&self, other: &Self) -> (r: bool)
        ensures
            r == (*self == *other),
    {
        type_id_eq(&self.type_id, &other.type_id) && self.uid.0 == other.uid.0
    }
}

/// The plain-value identity of a field: the type ids of its source and
/// target, and its path within the source (segments joined by `::`,
/// the source itself being the empty path).
#[derive(Debug, Clone, Copy, PartialEq, Eq, PartialOrd, Ord, Hash)]
pub struct FieldKey {
    source_id: TypeId,
    target_id: TypeId,
    field_path: &'static str,
}

/// Calls `field_path::field::UntypedField::source_id`.
#[verifier::external_body]
fn untyped_field_source_id(f: &field_path::field::UntypedField) -> (r: TypeId) {
    f.source_id()
}

/// Calls `field_path::field::UntypedField::target_id`.
#[verifier::external_body]
fn untyped_field_target_id(f: &field_path::field::UntypedField) -> (r: TypeId) {
    f.target_id()
}

/// Calls `field_path::field::UntypedField::field_path`.
#[verifier::external_body]
fn untyped_field_path(f: &field_path::field::UntypedField) -> (r: &'static str) {
    f.field_path()
}

/// `field_path::field::UntypedField`, carried opaquely.
#[verifier::external_type_specification]
#[verifier::external_body]
pub struct ExUntypedField(field_path::field::UntypedField);

impl View for FieldKey {
    /// Source type, target type, and path.
    type V = (TypeId, TypeId, Seq<char>);

    closed spec fn view(&self) -> (TypeId, TypeId, Seq<char>) {
        (self.source_id, self.target_id, self.field_path@)
    }
}

impl FieldKey {
    /// A field of source type `S` and target type `T` at `field_path`.
    pub fn new<S: 'static, T: 'static>(field_path: &'static str) -> (r: Self)
        ensures
            r@.2 == field_path@,
    {
        Self { source_id: type_id_of::<S>(), target_id: type_id_of::<T>(), field_path }
    }

    /// A field at `field_path` whose source and target types are both
    /// `()`: the path may be valid, the types are placeholders.
    pub fn placeholder_with_path(field_path: &'static str) -> (r: Self)
        ensures
            r@.2 == field_path@,
    {
        Self::new::<(), ()>(field_path)
    }

    /// The identity of a field of the `field_path` crate.
    pub fn from_untyped(field: &field_path::field::UntypedField) -> (r: Self) {
        Self {
            source_id: untyped_field_source_id(field),
            target_id: untyped_field_target_id(field),
            field_path: untyped_field_path(field),
        }
    }

    pub fn source_id(&self) -> (r: TypeId)
        ensures
            r == self@.0,
    {
        self.source_id
    }

    pub fn target_id(&self) -> (r: TypeId)
        ensures
            r == self@.1,
    {
        self.target_id
    }

    pub fn field_path(&self) -> (r: &'static str)
        ensures
            r@ == self@.2,
    {
        self.field_path
    }

    /// Equality of source type, target type and path.
    pub fn same(&self, other: &Self) -> (r: bool)
        ensures
            r == (self@ == other@),
    {
        let eq_source = type_id_eq(&self.source_id, &other.source_id);
        let eq_target = type_id_eq(&self.target_id, &other.target_id);
        let eq_path = str_eq(self.field_path, other.field_path);
        eq_source && eq_target && eq_path
    }
}

/// Byte-wise equality of two strings.
pub(crate) fn str_eq(a: &str, b: &str) -> (r: bool)
    ensures
        r == (a@ == b@),
{
    let ab = a.as_bytes();
    let bb = b.as_bytes();
    proof {
        vstd::utf8::encode_utf8_decode_utf8(a@);
        vstd::utf8::encode_utf8_decode_utf8(b@);
    }
    if ab.len() != bb.len() {
        return false;
    }
    let mut i: usize = 0;
    while i < ab.len()
        invariant
            ab@ == a.spec_bytes(),
            bb@ == b.spec_bytes(),
            ab.len() == bb.len(),
            0 <= i <= ab.len(),
            forall|j: int| 0 <= j < i ==> ab@[j] == bb@[j],
        decreases ab.len() - i,
    {
        if ab[i] != bb[i] {
            return false;
        }
        i = i + 1;
    }
    assert(ab@ =~= bb@);
    true
}

/// The view of an [`ActionKey`]: its subject and its field's view.
pub type KeyView = (UntypedSubjectId, (TypeId, TypeId, Seq<char>));

/// Key that uniquely identifies a sequence of non-overlapping
/// actions: a subject and one of its fields.
#[derive(Debug, Clone, Copy, PartialEq, Eq, PartialOrd, Ord, Hash)]
pub struct ActionKey {
    /// The subject Id of the action.
    subject_id: UntypedSubjectId,
    /// The source and target field related to the subject.
    field: FieldKey,
}

impl View for ActionKey {
    type V = (UntypedSubjectId, (TypeId, TypeId, Seq<char>));

    closed spec fn view(&self) -> (UntypedSubjectId, (TypeId, TypeId, Seq<char>)) {
        (self.subject_id, self.field@)
    }
}

impl ActionKey {
    pub closed spec fn spec_subject_id(self) -> UntypedSubjectId {
        self.subject_id
    }

    pub closed spec fn spec_field(self) -> FieldKey {
        self.field
    }

    pub fn new(subject_id: UntypedSubjectId, field: FieldKey) -> (r: Self)
        ensures
            r.spec_subject_id() == subject_id,
            r.spec_field() == field,
    {
        Self { subject_id, field }
    }

    pub fn subject_id(&self) -> (r: &UntypedSubjectId)
        ensures
            *r == self.spec_subject_id(),
    {
        &self.subject_id
    }

    pub fn field(&self) -> (r: &FieldKey)
        ensures
            *r == self.spec_field(),
    {
        &self.field
    }

    /// The view is the subject together with the field's view.
    pub proof fn lemma_view(self)
        ensures
            self@ == (self.spec_subject_id(), self.spec_field()@),
    {
    }

    /// Equality of subject and field.
    pub fn same(&self, other: &Self) -> (r: bool)
        ensures
            r == (self@ == other@),
    {
        self.subject_id.same(&other.subject_id) && self.field.same(&other.field)
    }
}

/// The byte `:`.
pub const COLON: u8 = 58;

/// `p` is a segment-prefix of `s`: `s` starts with `p`, and either
/// ends there or continues with the segment separator `::`.
pub open spec fn segment_prefix(p: Seq<u8>, s: Seq<u8>) -> bool {
    &&& p.len() <= s.len()
    &&& s.subrange(0, p.len() as int) == p
    &&& (s.len() == p.len() || (s.len() >= p.len() + 2 && s[p.len() as int] == COLON
        && s[p.len() as int + 1] == COLON))
}

/// Two field paths alias in memory when one is a segment-prefix of the
/// other.
pub open spec fn spec_paths_alias(a: Seq<u8>, b: Seq<u8>) -> bool {
    segment_prefix(a, b) || segment_prefix(b, a)
}

/// Aliasing does not depend on the order of the two paths.
pub proof fn lemma_paths_alias_symmetric(a: Seq<u8>, b: Seq<u8>)
    ensures
        spec_paths_alias(a, b) == spec_paths_alias(b, a),
{
}

/// Every path aliases itself.
pub proof fn lemma_paths_alias_reflexive(a: Seq<u8>)
    ensures
        spec_paths_alias(a, a),
{
    assert(a.subrange(0, a.len() as int) =~= a);
}

/// The source itself, the empty path, aliases every field path: the
/// empty path and each path that starts with the separator `::`.
pub proof fn lemma_source_aliases_every_field(b: Seq<u8>)
    requires
        b.len() == 0 || (b.len() >= 2 && b[0] == COLON && b[1] == COLON),
    ensures
        spec_paths_alias(Seq::empty(), b),
{
    assert(b.subrange(0, 0) =~= Seq::<u8>::empty());
}

/// A path aliases every path below it, `p` and `p::rest`.
pub proof fn lemma_path_aliases_sub_path(p: Seq<u8>, rest: Seq<u8>)
    ensures
        spec_paths_alias(p, p + seq![COLON, COLON] + rest),
{
    let long = p + seq![COLON, COLON] + rest;
    assert(long.subrange(0, p.len() as int) =~= p);
    assert(long[p.len() as int] == COLON);
    assert(long[p.len() as int + 1] == COLON);
}

/// Two paths of the same length alias only when they are the same
/// path, so sibling fields never alias.
pub proof fn lemma_same_length_paths_alias_only_if_equal(a: Seq<u8>, b: Seq<u8>)
    requires
        a.len() == b.len(),
    ensures
        spec_paths_alias(a, b) == (a == b),
{
    if a == b {
        lemma_paths_alias_reflexive(a);
    }
    if spec_paths_alias(a, b) {
        if segment_prefix(a, b) {
            assert(b.subrange(0, a.len() as int) =~= b);
        } else {
            assert(a.subrange(0, b.len() as int) =~= a);
        }
    }
}

/// Whether `short` is a byte prefix of `long`.
fn bytes_prefix(short: &[u8], long: &[u8]) -> (r: bool)
    requires
        short.len() <= long.len(),
    ensures
        r == (long@.subrange(0, short@.len() as int) == short@),
{
    let mut i: usize = 0;
    while i < short.len()
        invariant
            short.len() <= long.len(),
            0 <= i <= short.len(),
            forall|j: int| 0 <= j < i ==> short@[j] == long@[j],
        decreases short.len() - i,
    {
        if short[i] != long[i] {
            assert(long@.subrange(0, short@.len() as int)[i as int] != short@[i as int]);
            return false;
        }
        i = i + 1;
    }
    assert(long@.subrange(0, short@.len() as int) =~= short@);
    true
}

/// Two field paths alias in memory when one is a segment-prefix of
/// the other. The source itself (`""`) prefixes every path.
pub fn paths_alias(a: &str, b: &str) -> (r: bool)
    ensures
        r == spec_paths_alias(a.spec_bytes(), b.spec_bytes()),
{
    let ab = a.as_bytes();
    let bb = b.as_bytes();
    let (short, long) = if ab.len() <= bb.len() { (ab, bb) } else { (bb, ab) };
    let n = short.len();
    let r = if !bytes_prefix(short, long) {
        false
    } else if long.len() == n {
        true
    } else {
        long.len() - n >= 2 && long[n] == COLON && long[n + 1] == COLON
    };
    proof {
        if ab.len() <= bb.len() {
            if segment_prefix(bb@, ab@) {
                assert(bb@.len() == ab@.len());
                assert(ab@ =~= bb@.subrange(0, ab@.len() as int));
            }
        } else {
            if segment_prefix(ab@, bb@) {
                assert(false);
            }
        }
    }
    r
}

/// Identifies one action; ordered by index, then generation, so that
/// later-created actions compare greater.
#[derive(Debug, Clone, Copy, PartialEq, Eq, PartialOrd, Ord, Hash, Structural)]
pub struct ActionId {
    index: u32,
    generation: u32,
}

impl View for ActionId {
    /// The rank of the id in its total order.
    type V = int;

    closed spec fn view(&self) -> int {
        self.index as int * 0x1_0000_0000 + self.generation as int
    }
}

impl ActionId {
    pub fn new(index: u32, generation: u32) -> (r: Self)
        ensures
            r@ == index as int * 0x1_0000_0000 + generation as int,
            r.spec_index() == index,
            r.spec_generation() == generation,
    {
        Self { index, generation }
    }

    /// An id that no real action receives.
    pub fn placeholder() -> (r: Self)
        ensures
            r@ == u32::MAX as int * 0x1_0000_0000 + u32::MAX as int,
    {
        Self::new(u32::MAX, u32::MAX)
    }

    /// The slot index of the id.
    pub closed spec fn spec_index(self) -> u32 {
        self.index
    }

    /// The generation of the id's slot.
    pub closed spec fn spec_generation(self) -> u32 {
        self.generation
    }

    pub fn index(&self) -> (r: u32)
        ensures
            r == self.spec_index(),
            self@ == r as int * 0x1_0000_0000 + self.spec_generation() as int,
    {
        self.index
    }

    pub fn generation(&self) -> (r: u32)
        ensures
            r == self.spec_generation(),
            self@ == self.spec_index() as int * 0x1_0000_0000 + r as int,
    {
        self.generation
    }

    /// Ids with the same rank are the same id.
    pub proof fn lemma_view_injective(a: ActionId, b: ActionId)
        requires
            a@ == b@,
        ensures
            a == b,
    {
        assert(a.index == b.index) by (nonlinear_arith)
            requires
                a.index as int * 0x1_0000_0000 + a.generation as int
                    == b.index as int * 0x1_0000_0000 + b.generation as int,
                a.generation < 0x1_0000_0000,
                b.generation < 0x1_0000_0000,
        ;
    }

    /// `self` was created before `other`.
    pub fn lt(&self, other: &Self) -> (r: bool)
        ensures
            r == (self@ < other@),
    {
        self.index < other.index || (self.index == other.index && self.generation
            < other.generation)
    }
}

/// One action placed on the time axis.
#[derive(Debug, Clone, Copy, PartialEq, Eq)]
pub struct ActionClip {
    pub id: ActionId,
    pub start: Duration,
    pub duration: Duration,
}

impl ActionClip {
    /// The end of the clip in nanoseconds, saturating.
    pub open spec fn spec_end(self) -> nat {
        sat_add(self.start@, self.duration@)
    }

    /// A clip starting at zero.
    pub fn new(id: ActionId, duration: Duration) -> (r: Self)
        ensures
            r.id == id,
            r.start@ == 0,
            r.duration == duration,
    {
        Self { id, start: Duration::zero(), duration }
    }

    /// Saturating, so an absurd authored duration degrades to a clamped
    /// timeline rather than a panic deep in playback.
    pub fn end(&self) -> (r: Duration)
        ensures
            r@ == self.spec_end(),
    {
        self.start.saturating_add(self.duration)
    }
}

/// A pair of start and end values.
pub struct Segment<T> {
    /// The starting value.
    pub start: T,
    /// The ending value.
    pub end: T,
}

impl<T> Segment<T> {
    pub fn new(start: T, end: T) -> (r: Self)
        ensures
            r.start == start,
            r.end == end,
    {
        Self { start, end }
    }
}

/// How far the playhead has moved into a clip: `elapsed` out of
/// `span`. A clip of zero span counts as complete.
#[derive(Debug, Clone, Copy, PartialEq, Eq)]
pub struct ClipProgress {
    pub elapsed: Duration,
    pub span: Duration,
}

/// Determines how a [`Segment`] should be sampled.
#[derive(Debug, Clone, Copy, PartialEq, Eq)]
pub enum SampleMode {
    Start,
    End,
    Interp(ClipProgress),
}

impl ActionClip {
    /// The progress of `time` through this clip.
    pub fn progress_parts(&self, time: Duration) -> (r: ClipProgress)
        ensures
            r.elapsed@ == crate::time::sat_sub(time@, self.start@),
            r.span == self.duration,
    {
        ClipProgress { elapsed: time.saturating_sub(self.start), span: self.duration }
    }
}

} // verus!
