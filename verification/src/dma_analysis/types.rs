//! What the analysis records about registers and the buffers that they point to.

use crate::common::{Address, MmioAddress, RamAddress, TraceId};
use crate::hoedur::bintrace::Access;
use crate::tables::{enumerates, lemma_take_to_set, map_get, map_insert, map_keys};
use fxhash::FxHashMap;
use vstd::prelude::*;

verus! {

broadcast use vstd::std_specs::hash::group_hash_axioms;

/// The size of a pointer of the target.
pub const POINTER_SIZE: usize = 4;

/// The null pointer of the target.
pub const NULL: Address = 0;

/// The bits that are clear in an aligned pointer.
pub const REQUIRED_POINTER_ALIGNMENT: Address = 3;

/// The least number of repetitions that make a trivial value a pattern.
pub const MIN_INIT_PATTERN_LEN: usize = 2;

/// The least number of bytes that make any other repeated value a pattern.
pub const MIN_INIT_PATTERN_LEN_COMPLEX_VALS: usize = 8;

/// A value that memory is typically initialised with.
pub open spec fn is_trivial_value(value: u64) -> bool {
    value == 0 || value == 0xff || value == 0xffff || value == 0xffffffff
}

/// Whether memory is typically initialised with `value`.
pub fn is_trivial(value: u64) -> (res: bool)
    ensures
        res == is_trivial_value(value),
{
    value == 0 || value == 0xff || value == 0xffff || value == 0xffffffff
}

/// A value that memory holds several times in a row.
#[derive(Debug, Clone, Copy, PartialEq, Eq, Structural)]
pub struct InitPattern {
    pub value: u64,
    pub pattern_len: usize,
    pub repetitions: usize,
    /// Repetitions in front of the buffer, where the buffer is part of a larger initialisation.
    pub repetitions_before: usize,
}

/// How a buffer was initialised when its address was handed to a register.
#[derive(Debug, Clone, Copy, PartialEq, Eq, Structural)]
pub enum InitializationState {
    Uninitialized {
        len: usize,
        /// The number of uninitialised bytes in front of the buffer.
        len_before: usize,
    },
    Pattern {
        latest_read_ind: Option<TraceId>,
        latest_write_ind: Option<TraceId>,
        at_config: InitPattern,
        at_bulk_init: Option<InitPattern>,
    },
    Used { latest_read_ind: Option<TraceId>, latest_write_ind: Option<TraceId> },
}

/// How a buffer was accessed after its address was handed to a register.
#[derive(Debug, Clone, Copy, PartialEq, Eq, Structural)]
pub enum AccessState {
    ReadBeforeWrite { read_time: TraceId, write_time: Option<TraceId>, offset: Address },
    WriteBeforeRead { write_time: TraceId, read_time: Option<TraceId> },
    NoAccesses,
}

/// An access with its position in the trace.
#[derive(Debug, Clone, Copy, PartialEq, Eq, Structural)]
pub struct AccessHistEntry {
    pub trace_ind: TraceId,
    pub access: Access,
}

/// Why a register does not hold pointers.
#[derive(Debug, Clone, Copy, PartialEq, Eq, Structural)]
pub enum PointerCounterExample {
    UnalignedWrite { address: Address, size: u8 },
    NonPointerWrite(u32),
}

/// The bounds of a buffer size.
#[derive(Debug, Clone, Copy, PartialEq, Eq, Hash, Structural)]
pub struct SizeRange {
    pub min: u64,
    pub max: u64,
}

/// The trace positions of a pointer write, of the previous write of the same pointer, and of the
/// next write to the same register.
#[derive(Debug, Clone, Copy, PartialEq, Eq, Structural)]
pub struct TraceIdRange {
    pub prev_id: TraceId,
    pub curr_id: TraceId,
    pub next_id: TraceId,
}

/// Two registers that take turns with one buffer: one to receive into it, one to send it.
#[derive(Debug, Clone, Copy, PartialEq, Eq, Structural)]
pub struct RxTxPair {
    pub ram_addr: RamAddress,
    pub rx_reg: MmioAddress,
    pub tx_reg: MmioAddress,
}

impl RxTxPair {
    /// The pair with the two registers in each other's role.
    pub open spec fn reversed(self) -> RxTxPair {
        RxTxPair { ram_addr: self.ram_addr, rx_reg: self.tx_reg, tx_reg: self.rx_reg }
    }

    /// The pair with the two registers in each other's role.
    pub fn create_reverse(&self) -> (res: Self)
        ensures
            res == self.reversed(),
    {
        RxTxPair { ram_addr: self.ram_addr, rx_reg: self.tx_reg, tx_reg: self.rx_reg }
    }
}

/// Turning a pair round twice gives it back.
pub proof fn lemma_reverse_twice(pair: RxTxPair)
    ensures
        pair.reversed().reversed() == pair,
{
}

/// Which access states were seen.
#[derive(Debug, Clone, Copy, PartialEq, Eq, Structural)]
pub struct AccessStateProfile {
    pub has_read_before_write: bool,
    pub has_write_before_read: bool,
    pub has_no_access: bool,
}

impl Default for AccessStateProfile {
    fn default() -> (res: Self)
        ensures
            res == AccessStateProfile::none(),
    {
        Self {
            has_read_before_write: false,
            has_write_before_read: false,
            has_no_access: false,
        }
    }
}

impl AccessStateProfile {
    /// The profile of no state at all.
    pub open spec fn none() -> AccessStateProfile {
        AccessStateProfile {
            has_read_before_write: false,
            has_write_before_read: false,
            has_no_access: false,
        }
    }

    /// The profile of one state.
    pub open spec fn of(state: AccessState) -> AccessStateProfile {
        AccessStateProfile {
            has_read_before_write: state is ReadBeforeWrite,
            has_write_before_read: state is WriteBeforeRead,
            has_no_access: state is NoAccesses,
        }
    }

    /// The profile of the states of both.
    pub open spec fn merged(self, other: AccessStateProfile) -> AccessStateProfile {
        AccessStateProfile {
            has_read_before_write: self.has_read_before_write || other.has_read_before_write,
            has_write_before_read: self.has_write_before_read || other.has_write_before_read,
            has_no_access: self.has_no_access || other.has_no_access,
        }
    }

    /// The profile of one state.
    pub fn new(access_state: &AccessState) -> (res: Self)
        ensures
            res == AccessStateProfile::of(*access_state),
    {
        Self {
            has_read_before_write: matches!(access_state, AccessState::ReadBeforeWrite { .. }),
            has_write_before_read: matches!(access_state, AccessState::WriteBeforeRead { .. }),
            has_no_access: matches!(access_state, AccessState::NoAccesses),
        }
    }

    /// Adds the states of `other`.
    pub fn merge(&mut self, other: &Self)
        ensures
            *final(self) == old(self).merged(*other),
    {
        self.has_read_before_write = self.has_read_before_write || other.has_read_before_write;
        self.has_write_before_read = self.has_write_before_read || other.has_write_before_read;
        self.has_no_access = self.has_no_access || other.has_no_access;
    }
}

/// Which initialisation states were seen, and whether every value seen in them was trivial.
#[derive(Debug, Clone, Copy, PartialEq, Eq, Structural)]
pub struct InitializationStateProfile {
    pub has_used: bool,
    pub has_pattern: bool,
    pub has_uninitialized: bool,
    pub all_writes_trivial: bool,
}

impl Default for InitializationStateProfile {
    fn default() -> (res: Self)
        ensures
            res == InitializationStateProfile::none(),
    {
        Self {
            has_used: false,
            has_pattern: false,
            has_uninitialized: false,
            all_writes_trivial: true,
        }
    }
}

/// The state shows only trivial values.
pub open spec fn shows_trivial_writes(state: InitializationState) -> bool {
    match state {
        InitializationState::Uninitialized { .. } => true,
        InitializationState::Pattern { at_config, at_bulk_init, .. } => {
            &&& is_trivial_value(at_config.value)
            &&& at_bulk_init matches Some(pattern) ==> is_trivial_value(pattern.value)
        },
        InitializationState::Used { .. } => false,
    }
}

impl InitializationStateProfile {
    /// The profile of no state at all.
    pub open spec fn none() -> InitializationStateProfile {
        InitializationStateProfile {
            has_used: false,
            has_pattern: false,
            has_uninitialized: false,
            all_writes_trivial: true,
        }
    }

    /// The profile of one state.
    pub open spec fn of(state: InitializationState) -> InitializationStateProfile {
        InitializationStateProfile {
            has_used: state is Used,
            has_pattern: state is Pattern,
            has_uninitialized: state is Uninitialized,
            all_writes_trivial: shows_trivial_writes(state),
        }
    }

    /// The profile of the states of both.
    pub open spec fn merged(self, other: InitializationStateProfile) -> InitializationStateProfile {
        InitializationStateProfile {
            has_used: self.has_used || other.has_used,
            has_pattern: self.has_pattern || other.has_pattern,
            has_uninitialized: self.has_uninitialized || other.has_uninitialized,
            all_writes_trivial: self.all_writes_trivial && other.all_writes_trivial,
        }
    }

    /// The profile of one state.
    pub fn new(init_state: &InitializationState) -> (res: Self)
        ensures
            res == InitializationStateProfile::of(*init_state),
    {
        Self {
            has_used: matches!(init_state, InitializationState::Used { .. }),
            has_pattern: matches!(init_state, InitializationState::Pattern { .. }),
            has_uninitialized: matches!(init_state, InitializationState::Uninitialized { .. }),
            all_writes_trivial: match init_state {
                InitializationState::Uninitialized { .. } => true,
                InitializationState::Pattern { at_config, at_bulk_init, .. } => {
                    is_trivial(at_config.value) && match at_bulk_init {
                        Some(at_bulk_init) => is_trivial(at_bulk_init.value),
                        None => true,
                    }
                },
                InitializationState::Used { .. } => false,
            },
        }
    }

    /// Adds the states of `other`.
    pub fn merge(&mut self, other: &Self)
        ensures
            *final(self) == old(self).merged(*other),
    {
        self.has_used = self.has_used || other.has_used;
        self.has_pattern = self.has_pattern || other.has_pattern;
        self.has_uninitialized = self.has_uninitialized || other.has_uninitialized;
        self.all_writes_trivial = self.all_writes_trivial && other.all_writes_trivial;
    }
}

/// Profiles are merged in any order and grouping, and merging one with itself changes nothing.
pub proof fn lemma_profile_merge_laws(
    a: InitializationStateProfile,
    b: InitializationStateProfile,
    c: InitializationStateProfile,
)
    ensures
        a.merged(b) == b.merged(a),
        a.merged(b).merged(c) == a.merged(b.merged(c)),
        a.merged(a) == a,
        InitializationStateProfile::none().merged(a) == a,
{
}

/// Access profiles are merged in any order and grouping, and merging one with itself changes
/// nothing.
pub proof fn lemma_access_profile_merge_laws(
    a: AccessStateProfile,
    b: AccessStateProfile,
    c: AccessStateProfile,
)
    ensures
        a.merged(b) == b.merged(a),
        a.merged(b).merged(c) == a.merged(b.merged(c)),
        a.merged(a) == a,
        AccessStateProfile::none().merged(a) == a,
{
}

/// A pointer is aligned.
pub open spec fn pointer_aligned(val: Address) -> bool {
    val % 4 == 0
}

/// Whether a pointer is aligned.
pub fn is_pointer_aligned(val: Address) -> (res: bool)
    ensures
        res == pointer_aligned(val),
{
    assert((val & 3 == 0) == (val % 4 == 0)) by (bit_vector);
    val & REQUIRED_POINTER_ALIGNMENT == 0
}

/// The address of the register that `address` lies in.
pub open spec fn aligned_register(address: u32) -> u32 {
    (address - address % 4) as u32
}

/// The address of the register that `address` lies in.
pub fn align_mmio_addr(address: u32) -> (res: u32)
    ensures
        res == aligned_register(address),
{
    assert(address & !3u32 == address - address % 4) by (bit_vector);
    address & !(POINTER_SIZE as u32 - 1)
}

/// `rep_count_total` repetitions of a value of `val_size` bytes make a pattern.
pub open spec fn makes_pattern(rep_count_total: int, val: u64, val_size: int) -> bool {
    if is_trivial_value(val) {
        rep_count_total >= MIN_INIT_PATTERN_LEN
    } else {
        rep_count_total * val_size >= MIN_INIT_PATTERN_LEN_COMPLEX_VALS
    }
}

/// Whether the repetitions of a value make a pattern.
pub fn is_pattern(
    rep_count_before: usize,
    rep_count_after: usize,
    val: u64,
    val_size: usize,
) -> (res: bool)
    requires
        rep_count_before + rep_count_after <= usize::MAX,
    ensures
        res == makes_pattern(rep_count_before + rep_count_after, val, val_size as int),
{
    let rep_count_total = rep_count_before + rep_count_after;
    if is_trivial(val) {
        rep_count_total >= MIN_INIT_PATTERN_LEN
    } else {
        assert(rep_count_total * val_size <= u128::MAX) by (nonlinear_arith)
            requires
                0 <= rep_count_total <= 0xffff_ffff_ffff_ffff,
                0 <= val_size <= 0xffff_ffff_ffff_ffff,
        ;
        rep_count_total as u128 * val_size as u128 >= MIN_INIT_PATTERN_LEN_COMPLEX_VALS as u128
    }
}

/// A buffer, or several of them, that one register points to.
#[derive(Debug)]
pub struct DmaBuf {
    pub known_sizes: FxHashMap<RamAddress, SizeRange>,
}

/// The buffers of a register, and the code that handed over and that used the first of them.
#[derive(Debug)]
pub struct DmaBufMeta {
    pub mmio_address: MmioAddress,
    pub dma_buf: DmaBuf,
    pub config_pc: Address,
    pub access_pc: Address,
}

/// The contents of a `DmaBufMeta`.
pub struct BufModel {
    pub mmio_address: MmioAddress,
    pub known_sizes: Map<RamAddress, SizeRange>,
    pub config_pc: Address,
    pub access_pc: Address,
}

/// The sizes that both bounds admit.
pub open spec fn narrowed(own: SizeRange, other: SizeRange) -> SizeRange {
    SizeRange {
        min: if own.min >= other.min {
            own.min
        } else {
            other.min
        },
        max: if own.max <= other.max {
            own.max
        } else {
            other.max
        },
    }
}

/// The known sizes of both, narrowed where both know one.
pub open spec fn merged_known_sizes(
    own: Map<RamAddress, SizeRange>,
    other: Map<RamAddress, SizeRange>,
) -> Map<RamAddress, SizeRange> {
    Map::new(
        |a: RamAddress| own.contains_key(a) || other.contains_key(a),
        |a: RamAddress|
            if own.contains_key(a) && other.contains_key(a) {
                narrowed(own[a], other[a])
            } else if own.contains_key(a) {
                own[a]
            } else {
                other[a]
            },
    )
}

impl View for DmaBufMeta {
    type V = BufModel;

    open spec fn view(&self) -> BufModel {
        BufModel {
            mmio_address: self.mmio_address,
            known_sizes: self.dma_buf.known_sizes@,
            config_pc: self.config_pc,
            access_pc: self.access_pc,
        }
    }
}

impl Clone for DmaBufMeta {
    fn clone(&self) -> (res: Self)
        ensures
            res@ == self@,
    {
        DmaBufMeta {
            mmio_address: self.mmio_address,
            dma_buf: DmaBuf { known_sizes: self.dma_buf.known_sizes.clone() },
            config_pc: self.config_pc,
            access_pc: self.access_pc,
        }
    }
}

impl BufModel {
    /// The buffers of both, where they belong to one register.
    pub open spec fn merged(self, other: BufModel) -> BufModel {
        if self.mmio_address == other.mmio_address {
            BufModel {
                known_sizes: merged_known_sizes(self.known_sizes, other.known_sizes),
                ..self
            }
        } else {
            self
        }
    }
}

impl DmaBufMeta {
    /// Takes over the buffers of `other`, unless they belong to another register.
    pub fn merge_into(&mut self, other: &Self) -> (res: bool)
        ensures
            res == (old(self).mmio_address == other.mmio_address),
            final(self)@ == old(self)@.merged(other@),
    {
        if self.mmio_address != other.mmio_address {
            return false;
        }
        let ghost own = self.dma_buf.known_sizes@;
        let ghost theirs = other.dma_buf.known_sizes@;
        let keys = map_keys(&other.dma_buf.known_sizes);
        let mut i: usize = 0;
        assert(merged_known_sizes(own, theirs.restrict(Set::empty())) =~= own);
        assert(keys@.take(0).to_set() =~= Set::empty());
        while i < keys.len()
            invariant
                i <= keys@.len(),
                enumerates(keys@, theirs.dom()),
                theirs == other.dma_buf.known_sizes@,
                self.mmio_address == old(self).mmio_address,
                self.config_pc == old(self).config_pc,
                self.access_pc == old(self).access_pc,
                self.dma_buf.known_sizes@ == merged_known_sizes(
                    own,
                    theirs.restrict(keys@.take(i as int).to_set()),
                ),
            decreases keys.len() - i,
        {
            let key = keys[i];
            proof {
                assert(keys@.to_set().contains(key));
                lemma_take_to_set(keys@, i as int);
                assert(!keys@.take(i as int).contains(key));
            }
            let other_size = *map_get(&other.dma_buf.known_sizes, &key).unwrap();
            let size = match map_get(&self.dma_buf.known_sizes, &key) {
                Some(own_size) => SizeRange {
                    min: if own_size.min >= other_size.min {
                        own_size.min
                    } else {
                        other_size.min
                    },
                    max: if own_size.max <= other_size.max {
                        own_size.max
                    } else {
                        other_size.max
                    },
                },
                None => other_size,
            };
            map_insert(&mut self.dma_buf.known_sizes, key, size);
            assert(self.dma_buf.known_sizes@ =~= merged_known_sizes(
                own,
                theirs.restrict(keys@.take(i + 1).to_set()),
            ));
            i += 1;
        }
        assert(keys@.take(i as int) =~= keys@);
        assert(theirs.restrict(theirs.dom()) =~= theirs);
        true
    }

    /// Any two findings on one register go together.
    pub fn is_compatible_with(&self, _other: &Self) -> (res: bool)
        ensures
            res,
    {
        true
    }
}

} // verus!
