//! Guesses at the types of the fields behind a pointer, and how guesses are merged.

use super::type_info::FIELD_SCAN_INITIAL_DEPTH;
use super::types::{AccessStateProfile, InitializationStateProfile};
use crate::common::{Address, RamAddress};
use crate::tables::{
    enumerates, lemma_take_to_set, map_get, map_insert, map_keys, set_copy, set_extend,
};
use fxhash::{FxHashMap, FxHashSet};
use vstd::prelude::*;

verus! {

broadcast use vstd::std_specs::hash::group_hash_axioms;

/// What is known of a pointer and of what it points to.
#[derive(Debug)]
pub struct PointerType {
    pub known_values: FxHashSet<RamAddress>,
    pub includes_mmio: bool,
    pub includes_misaligned_mmio: bool,
    pub includes_null: bool,
    pub to: Vec<FieldTypeGuess>,
    pub init_state_profile: InitializationStateProfile,
    pub access_state_profile: AccessStateProfile,
    pub potential_pre_buf_sizes: FxHashMap<RamAddress, u64>,
}

/// A guess at the type of a field.
#[derive(Debug)]
pub enum FieldTypeGuess {
    Zero,
    HighEntropy { val: Address },
    Pointer { pointer: PointerType },
}

/// The contents of a `PointerType`.
pub struct PointerModel {
    pub known_values: Set<RamAddress>,
    pub includes_mmio: bool,
    pub includes_misaligned_mmio: bool,
    pub includes_null: bool,
    pub to: Seq<FieldModel>,
    pub init_state_profile: InitializationStateProfile,
    pub access_state_profile: AccessStateProfile,
    pub potential_pre_buf_sizes: Map<RamAddress, u64>,
}

/// The contents of a `FieldTypeGuess`.
pub enum FieldModel {
    Zero,
    HighEntropy { val: Address },
    Pointer { pointer: PointerModel },
}

impl PointerType {
    /// The contents.
    pub open spec fn view(&self) -> PointerModel
        decreases self,
    {
        PointerModel {
            known_values: self.known_values@,
            includes_mmio: self.includes_mmio,
            includes_misaligned_mmio: self.includes_misaligned_mmio,
            includes_null: self.includes_null,
            to: field_views(self.to@),
            init_state_profile: self.init_state_profile,
            access_state_profile: self.access_state_profile,
            potential_pre_buf_sizes: self.potential_pre_buf_sizes@,
        }
    }
}

/// The contents of each field.
pub open spec fn field_views(fields: Seq<FieldTypeGuess>) -> Seq<FieldModel>
    decreases fields,
{
    Seq::new(
        fields.len(),
        |i: int|
            if 0 <= i < fields.len() {
                fields[i].view()
            } else {
                FieldModel::Zero
            },
    )
}

impl FieldTypeGuess {
    /// The contents.
    pub open spec fn view(&self) -> FieldModel
        decreases self,
    {
        match self {
            FieldTypeGuess::Zero => FieldModel::Zero,
            FieldTypeGuess::HighEntropy { val } => FieldModel::HighEntropy { val: *val },
            FieldTypeGuess::Pointer { pointer } => FieldModel::Pointer { pointer: pointer.view() },
        }
    }
}

impl Default for PointerType {
    fn default() -> (res: Self)
        ensures
            res@ == PointerModel::empty(),
    {
        let res = PointerType {
            known_values: FxHashSet::default(),
            includes_mmio: false,
            includes_misaligned_mmio: false,
            includes_null: false,
            to: Vec::new(),
            init_state_profile: InitializationStateProfile::default(),
            access_state_profile: AccessStateProfile::default(),
            potential_pre_buf_sizes: FxHashMap::default(),
        };
        assert(res@.to =~= Seq::empty());
        res
    }
}

impl PointerModel {
    /// Nothing is known.
    pub open spec fn empty() -> PointerModel {
        PointerModel {
            known_values: Set::empty(),
            includes_mmio: false,
            includes_misaligned_mmio: false,
            includes_null: false,
            to: Seq::empty(),
            init_state_profile: InitializationStateProfile::none(),
            access_state_profile: AccessStateProfile::none(),
            potential_pre_buf_sizes: Map::empty(),
        }
    }
}

fn clone_pointer(pointer: &PointerType) -> (res: PointerType)
    ensures
        res@ == pointer@,
    decreases pointer,
{
    PointerType {
        known_values: set_copy(&pointer.known_values),
        includes_mmio: pointer.includes_mmio,
        includes_misaligned_mmio: pointer.includes_misaligned_mmio,
        includes_null: pointer.includes_null,
        to: clone_fields(&pointer.to),
        init_state_profile: pointer.init_state_profile,
        access_state_profile: pointer.access_state_profile,
        potential_pre_buf_sizes: pointer.potential_pre_buf_sizes.clone(),
    }
}

fn clone_fields(fields: &Vec<FieldTypeGuess>) -> (res: Vec<FieldTypeGuess>)
    ensures
        field_views(res@) == field_views(fields@),
    decreases fields,
{
    let mut res: Vec<FieldTypeGuess> = Vec::new();
    let mut i: usize = 0;
    while i < fields.len()
        invariant
            i <= fields@.len(),
            res@.len() == i,
            forall|j: int| 0 <= j < i ==> (#[trigger] res@[j])@ == fields@[j]@,
        decreases fields.len() - i,
    {
        res.push(clone_field(&fields[i]));
        i += 1;
    }
    assert(field_views(res@) =~= field_views(fields@));
    res
}

fn clone_field(field: &FieldTypeGuess) -> (res: FieldTypeGuess)
    ensures
        res@ == field@,
    decreases field,
{
    match field {
        FieldTypeGuess::Zero => FieldTypeGuess::Zero,
        FieldTypeGuess::HighEntropy { val } => FieldTypeGuess::HighEntropy { val: *val },
        FieldTypeGuess::Pointer { pointer } => FieldTypeGuess::Pointer {
            pointer: clone_pointer(pointer),
        },
    }
}

impl Clone for PointerType {
    fn clone(&self) -> (res: Self)
        ensures
            res@ == self@,
    {
        clone_pointer(self)
    }
}

impl Clone for FieldTypeGuess {
    fn clone(&self) -> (res: Self)
        ensures
            res@ == self@,
    {
        clone_field(self)
    }
}

/// The sizes that either knows, and the smaller one where both know one.
pub open spec fn merged_pre_sizes(own: Map<RamAddress, u64>, other: Map<RamAddress, u64>) -> Map<
    RamAddress,
    u64,
> {
    Map::new(
        |a: RamAddress| own.contains_key(a) || other.contains_key(a),
        |a: RamAddress|
            if own.contains_key(a) && (!other.contains_key(a) || own[a] <= other[a]) {
                own[a]
            } else {
                other[a]
            },
    )
}

/// What is known of a pointer after `other` was merged into `own`. A pointer without a known value
/// takes over the values, the sizes and the fields of the other one; any other pointer keeps its own
/// fields, merged one by one.
pub open spec fn merged_pointer(own: PointerModel, other: PointerModel) -> PointerModel
    decreases other,
{
    let adopts = own.known_values.is_empty();
    PointerModel {
        known_values: if adopts {
            other.known_values
        } else {
            own.known_values.union(other.known_values)
        },
        includes_mmio: own.includes_mmio || other.includes_mmio,
        includes_misaligned_mmio: own.includes_misaligned_mmio || other.includes_misaligned_mmio,
        includes_null: own.includes_null || other.includes_null,
        to: if adopts {
            other.to
        } else {
            merged_fields(own.to, other.to)
        },
        init_state_profile: own.init_state_profile.merged(other.init_state_profile),
        access_state_profile: own.access_state_profile.merged(other.access_state_profile),
        potential_pre_buf_sizes: if adopts {
            other.potential_pre_buf_sizes
        } else {
            merged_pre_sizes(own.potential_pre_buf_sizes, other.potential_pre_buf_sizes)
        },
    }
}

/// Each of the own fields, merged with the field of the other list at the same place.
pub open spec fn merged_fields(own: Seq<FieldModel>, other: Seq<FieldModel>) -> Seq<FieldModel>
    decreases other,
{
    Seq::new(
        own.len(),
        |i: int|
            if 0 <= i < other.len() {
                merged_field(own[i], other[i])
            } else {
                own[i]
            },
    )
}

/// A zero gives way to anything, a high-entropy value to nothing, and a pointer to a high-entropy
/// value; a pointer that was seen as zero may be null, and two pointers are merged.
pub open spec fn merged_field(own: FieldModel, other: FieldModel) -> FieldModel
    decreases other,
{
    match own {
        FieldModel::Zero => other,
        FieldModel::HighEntropy { .. } => own,
        FieldModel::Pointer { pointer } => match other {
            FieldModel::Zero => FieldModel::Pointer {
                pointer: PointerModel { includes_null: true, ..pointer },
            },
            FieldModel::HighEntropy { .. } => other,
            FieldModel::Pointer { pointer: other_pointer } => FieldModel::Pointer {
                pointer: merged_pointer(pointer, other_pointer),
            },
        },
    }
}

/// The two can be merged: a pointer without a known value points to a register, here and in every
/// pair of fields that merging meets.
pub open spec fn mergeable(own: PointerModel, other: PointerModel) -> bool
    decreases other,
{
    if own.known_values.is_empty() {
        own.includes_mmio || other.includes_mmio
    } else {
        mergeable_fields(own.to, other.to)
    }
}

/// The fields at the same place can be merged.
pub open spec fn mergeable_fields(own: Seq<FieldModel>, other: Seq<FieldModel>) -> bool
    decreases other,
{
    forall|i: int|
        0 <= i < own.len() && i < other.len() ==> mergeable_field(own[i], #[trigger] other[i])
}

/// The two fields can be merged.
pub open spec fn mergeable_field(own: FieldModel, other: FieldModel) -> bool
    decreases other,
{
    match (own, other) {
        (FieldModel::Pointer { pointer }, FieldModel::Pointer { pointer: other_pointer }) => {
            mergeable(pointer, other_pointer)
        },
        _ => true,
    }
}

/// The buffers that end at the given addresses, their last bytes, lie in the address space.
pub open spec fn pre_sizes_in_reach(sizes: Map<RamAddress, u64>) -> bool {
    forall|a: RamAddress| #[trigger]
        sizes.contains_key(a) && sizes[a] != 0 ==> a < Address::MAX && sizes[a] <= a + 1
}

/// Every pointer has a known value or points to a register, has all the fields that are looked at
/// or none, and ends buffers in the address space only; here and in all fields below.
pub open spec fn regular(pointer: PointerModel) -> bool
    decreases pointer,
{
    &&& !pointer.known_values.is_empty() || pointer.includes_mmio
    &&& pointer.to.len() == 0 || pointer.to.len() == FIELD_SCAN_INITIAL_DEPTH
    &&& pre_sizes_in_reach(pointer.potential_pre_buf_sizes)
    &&& regular_fields(pointer.to)
}

/// Every pointer among the fields is regular.
pub open spec fn regular_fields(fields: Seq<FieldModel>) -> bool
    decreases fields,
{
    forall|i: int| 0 <= i < fields.len() ==> regular_field(#[trigger] fields[i])
}

/// The field is not a pointer, or a regular one.
pub open spec fn regular_field(field: FieldModel) -> bool
    decreases field,
{
    match field {
        FieldModel::Pointer { pointer } => regular(pointer),
        _ => true,
    }
}

/// Anything can be merged into a regular pointer, and what comes out is regular if both were.
pub proof fn lemma_regular_merge(own: PointerModel, other: PointerModel)
    requires
        regular(own),
    ensures
        mergeable(own, other),
        regular(other) ==> regular(merged_pointer(own, other)),
    decreases other,
{
    if !own.known_values.is_empty() {
        lemma_regular_merge_fields(own.to, other.to);
        if regular(other) {
            let merged = merged_pointer(own, other);
            let value = choose|v: RamAddress| own.known_values.contains(v);
            assert(own.known_values.contains(value));
            assert(merged.known_values.contains(value));
            assert(pre_sizes_in_reach(merged.potential_pre_buf_sizes)) by {
                let own_sizes = own.potential_pre_buf_sizes;
                let other_sizes = other.potential_pre_buf_sizes;
                let sizes = merged.potential_pre_buf_sizes;
                assert forall|a: RamAddress| #[trigger]
                    sizes.contains_key(a) && sizes[a] != 0 implies a < Address::MAX && sizes[a] <= a
                    + 1 by {
                    assert(own_sizes.contains_key(a) || other_sizes.contains_key(a));
                }
            }
            assert(regular(merged));
        }
    }
}

/// Any fields can be merged into regular fields, and what comes out is regular if both were.
pub proof fn lemma_regular_merge_fields(own: Seq<FieldModel>, other: Seq<FieldModel>)
    requires
        regular_fields(own),
    ensures
        mergeable_fields(own, other),
        regular_fields(other) ==> regular_fields(merged_fields(own, other)),
    decreases other,
{
    assert forall|i: int| 0 <= i < own.len() && i < other.len() implies mergeable_field(
        own[i],
        #[trigger] other[i],
    ) && (regular_field(other[i]) ==> regular_field(merged_field(own[i], other[i]))) by {
        lemma_regular_merge_field(own[i], other[i]);
    }
    if regular_fields(other) {
        let merged = merged_fields(own, other);
        assert forall|i: int| 0 <= i < merged.len() implies regular_field(#[trigger] merged[i]) by {
            assert(regular_field(own[i]));
            if i < other.len() {
                assert(regular_field(other[i]));
            }
        }
    }
}

/// Any field can be merged into a regular field, and what comes out is regular if both were.
pub proof fn lemma_regular_merge_field(own: FieldModel, other: FieldModel)
    requires
        regular_field(own),
    ensures
        mergeable_field(own, other),
        regular_field(other) ==> regular_field(merged_field(own, other)),
    decreases other,
{
    if let (
        FieldModel::Pointer { pointer },
        FieldModel::Pointer { pointer: other_pointer },
    ) = (own, other) {
        lemma_regular_merge(pointer, other_pointer);
    }
}

/// A pointer that a regular field was merged into is regular if it was.
pub proof fn lemma_regular_with_field(own: PointerModel, other: FieldModel, i: int)
    requires
        regular(own),
        regular_field(other),
    ensures
        regular(with_merged_field(own, other, i)),
        0 <= i < own.to.len() ==> mergeable_field(own.to[i], other),
{
    let res = with_merged_field(own, other, i);
    if 0 <= i < own.to.len() {
        assert(regular_field(own.to[i]));
        lemma_regular_merge_field(own.to[i], other);
        assert forall|j: int| 0 <= j < res.to.len() implies regular_field(#[trigger] res.to[j]) by {
            assert(regular_field(own.to[j]));
        }
    }
}

/// Merging a pointer into itself changes nothing.
pub proof fn lemma_merge_idempotent(pointer: PointerModel)
    ensures
        merged_pointer(pointer, pointer) == pointer,
    decreases pointer,
{
    let merged = merged_pointer(pointer, pointer);
    assert(merged.known_values =~= pointer.known_values);
    assert(merged.potential_pre_buf_sizes =~= pointer.potential_pre_buf_sizes);
    assert forall|i: int| 0 <= i < pointer.to.len() implies merged_field(
        #[trigger] pointer.to[i],
        pointer.to[i],
    ) == pointer.to[i] by {
        if let FieldModel::Pointer { pointer: target } = pointer.to[i] {
            lemma_merge_idempotent(target);
        }
    }
    assert(merged_fields(pointer.to, pointer.to) =~= pointer.to);
}

/// A pointer to registers alone adopts what the other one knows.
pub proof fn lemma_merge_adopts(own: PointerModel, other: PointerModel)
    requires
        own.known_values.is_empty(),
        own.includes_mmio || other.includes_mmio,
    ensures
        mergeable(own, other),
        merged_pointer(own, other).known_values == other.known_values,
        merged_pointer(own, other).potential_pre_buf_sizes == other.potential_pre_buf_sizes,
        merged_pointer(own, other).to == other.to,
        merged_pointer(own, other).includes_mmio,
{
}

/// A high-entropy value, once seen in a field, stays there; a zero says nothing of a field but that
/// a pointer in it may be null.
pub proof fn lemma_merge_priorities(own: FieldModel, other: FieldModel)
    ensures
        own is HighEntropy || other is HighEntropy ==> merged_field(own, other) is HighEntropy,
        own is Zero ==> merged_field(own, other) == other,
        own is HighEntropy ==> merged_field(own, other) == own,
        own matches FieldModel::Pointer { pointer } ==> (other is Zero ==> merged_field(own, other)
            == (FieldModel::Pointer { pointer: PointerModel { includes_null: true, ..pointer } })),
{
}

/// Takes over the sizes of `other`, keeping the smaller one where both know one.
fn merge_pre_sizes(own: &mut FxHashMap<RamAddress, u64>, other: &FxHashMap<RamAddress, u64>)
    ensures
        final(own)@ == merged_pre_sizes(old(own)@, other@),
{
    let keys = map_keys(other);
    let mut i: usize = 0;
    assert(keys@.take(0).to_set() =~= Set::empty());
    assert(merged_pre_sizes(own@, other@.restrict(Set::empty())) =~= own@);
    while i < keys.len()
        invariant
            i <= keys@.len(),
            enumerates(keys@, other@.dom()),
            own@ == merged_pre_sizes(old(own)@, other@.restrict(keys@.take(i as int).to_set())),
        decreases keys.len() - i,
    {
        let key = keys[i];
        proof {
            assert(keys@.to_set().contains(key));
            lemma_take_to_set(keys@, i as int);
            assert(!keys@.take(i as int).contains(key));
        }
        let other_size = *map_get(other, &key).unwrap();
        let size = match map_get(own, &key) {
            Some(own_size) => if *own_size <= other_size {
                *own_size
            } else {
                other_size
            },
            None => other_size,
        };
        map_insert(own, key, size);
        assert(own@ =~= merged_pre_sizes(
            old(own)@,
            other@.restrict(keys@.take(i + 1).to_set()),
        ));
        i += 1;
    }
    assert(keys@.take(i as int) =~= keys@);
    assert(other@.restrict(other@.dom()) =~= other@);
}

/// Merges `other` into `own`.
fn merge_pointers(own: &mut PointerType, other: &PointerType)
    requires
        mergeable(old(own)@, other@),
    ensures
        final(own)@ == merged_pointer(old(own)@, other@),
    decreases other,
{
    own.init_state_profile.merge(&other.init_state_profile);
    own.access_state_profile.merge(&other.access_state_profile);
    own.includes_misaligned_mmio = own.includes_misaligned_mmio || other.includes_misaligned_mmio;
    own.includes_mmio = own.includes_mmio || other.includes_mmio;
    own.includes_null = own.includes_null || other.includes_null;
    if own.known_values.is_empty() {
        own.known_values = set_copy(&other.known_values);
        own.potential_pre_buf_sizes = other.potential_pre_buf_sizes.clone();
        own.to = clone_fields(&other.to);
    } else {
        set_extend(&mut own.known_values, &other.known_values);
        merge_pre_sizes(&mut own.potential_pre_buf_sizes, &other.potential_pre_buf_sizes);
        merge_fields(&mut own.to, &other.to);
    }
}

/// Merges each field of `other` into the field of `own` at the same place.
fn merge_fields(own: &mut Vec<FieldTypeGuess>, other: &Vec<FieldTypeGuess>) -> (res: bool)
    requires
        mergeable_fields(field_views(old(own)@), field_views(other@)),
    ensures
        res,
        field_views(final(own)@) == merged_fields(field_views(old(own)@), field_views(other@)),
    decreases other,
{
    let mut i: usize = 0;
    while i < own.len() && i < other.len()
        invariant
            i <= own@.len(),
            i <= other@.len(),
            own@.len() == old(own)@.len(),
            mergeable_fields(field_views(old(own)@), field_views(other@)),
            forall|j: int|
                0 <= j < i ==> (#[trigger] own@[j])@ == merged_field(
                    old(own)@[j]@,
                    other@[j]@,
                ),
            forall|j: int| i <= j < own@.len() ==> own@[j] == old(own)@[j],
        decreases own.len() - i,
    {
        proof {
            let theirs = field_views(other@);
            assert(theirs[i as int] == other@[i as int]@);
            assert(field_views(old(own)@)[i as int] == old(own)@[i as int]@);
        }
        merge_field(&mut own[i], &other[i]);
        i += 1;
    }
    assert(field_views(own@) =~= merged_fields(field_views(old(own)@), field_views(other@)));
    true
}

/// Merges `other_field` into `own_field`.
fn merge_field(own_field: &mut FieldTypeGuess, other_field: &FieldTypeGuess) -> (res: bool)
    requires
        mergeable_field(old(own_field)@, other_field@),
    ensures
        res,
        final(own_field)@ == merged_field(old(own_field)@, other_field@),
    decreases other_field,
{
    match own_field {
        FieldTypeGuess::Zero => {
            *own_field = clone_field(other_field);
        },
        FieldTypeGuess::HighEntropy { .. } => {},
        FieldTypeGuess::Pointer { pointer } => {
            match other_field {
                FieldTypeGuess::Zero => {
                    pointer.includes_null = true;
                },
                FieldTypeGuess::HighEntropy { .. } => {
                    *own_field = clone_field(other_field);
                },
                FieldTypeGuess::Pointer { pointer: other_pointer } => {
                    merge_pointers(pointer, other_pointer);
                },
            }
        },
    }
    true
}

impl PointerType {
    /// Merges `other` into this guess. Always succeeds.
    pub fn merge(&mut self, other: &Self) -> (res: bool)
        requires
            mergeable(old(self)@, other@),
        ensures
            res,
            final(self)@ == merged_pointer(old(self)@, other@),
    {
        merge_pointers(self, other);
        true
    }

    /// Merges a guess into the field at `field_ind`, where there is one.
    pub fn merge_field(&mut self, other_field: &FieldTypeGuess, field_ind: usize) -> (res: bool)
        requires
            field_ind < old(self)@.to.len() ==> mergeable_field(
                old(self)@.to[field_ind as int],
                other_field@,
            ),
        ensures
            res == (field_ind < old(self)@.to.len()),
            final(self)@ == with_merged_field(old(self)@, other_field@, field_ind as int),
    {
        if field_ind < self.to.len() {
            let res = merge_field(&mut self.to[field_ind], other_field);
            assert(self@.to =~= with_merged_field(old(self)@, other_field@, field_ind as int).to);
            res
        } else {
            false
        }
    }
}

/// The pointer after `other` was merged into its field at `i`, where there is one.
pub open spec fn with_merged_field(own: PointerModel, other: FieldModel, i: int) -> PointerModel {
    if 0 <= i < own.to.len() {
        PointerModel { to: own.to.update(i, merged_field(own.to[i], other)), ..own }
    } else {
        own
    }
}

/// Whether `other` can be merged into `own`.
pub fn is_mergeable(own: &PointerType, other: &PointerType) -> (res: bool)
    ensures
        res == mergeable(own@, other@),
    decreases other,
{
    if own.known_values.is_empty() {
        own.includes_mmio || other.includes_mmio
    } else {
        are_fields_mergeable(&own.to, &other.to)
    }
}

/// Whether the fields at the same place can be merged.
fn are_fields_mergeable(own: &Vec<FieldTypeGuess>, other: &Vec<FieldTypeGuess>) -> (res: bool)
    ensures
        res == mergeable_fields(field_views(own@), field_views(other@)),
    decreases other,
{
    let ghost mine = field_views(own@);
    let ghost theirs = field_views(other@);
    let mut i: usize = 0;
    while i < own.len() && i < other.len()
        invariant
            mine == field_views(own@),
            theirs == field_views(other@),
            i <= own@.len(),
            i <= other@.len(),
            forall|j: int| 0 <= j < i ==> mergeable_field(mine[j], #[trigger] theirs[j]),
        decreases own.len() - i,
    {
        assert(theirs[i as int] == other@[i as int]@);
        assert(mine[i as int] == own@[i as int]@);
        if !is_field_mergeable(&own[i], &other[i]) {
            return false;
        }
        i += 1;
    }
    true
}

/// Whether the two fields can be merged.
fn is_field_mergeable(own: &FieldTypeGuess, other: &FieldTypeGuess) -> (res: bool)
    ensures
        res == mergeable_field(own@, other@),
    decreases other,
{
    match (own, other) {
        (
            FieldTypeGuess::Pointer { pointer },
            FieldTypeGuess::Pointer { pointer: other_pointer },
        ) => is_mergeable(pointer, other_pointer),
        _ => true,
    }
}

} // verus!
