//! What all snippets together tell of registers.

use crate::common::MmioAddress;
use crate::dma_analysis::merge::{
    is_mergeable, mergeable, merged_pointer, PointerModel, PointerType,
};
use crate::dma_snippet::{snippet_views, type_views, DmaAnalysisSnippet, SnippetModel};
use crate::tables::{
    enumerates, lemma_take_to_set, map_get, map_insert, map_keys, map_remove, set_contains,
    set_insert,
};
use fxhash::{FxHashMap, FxHashSet};
use vstd::prelude::*;

verus! {

broadcast use vstd::std_specs::hash::group_hash_axioms;

/// The registers that some snippet shows not to hold pointers.
pub open spec fn non_pointer_registers(snippets: Seq<SnippetModel>) -> Set<MmioAddress> {
    Set::new(
        |r: MmioAddress|
            exists|i: int|
                0 <= i < snippets.len()
                    && (#[trigger] snippets[i]).mmio_pointer_counterexamples.contains_key(r),
    )
}

/// The registers that hold misaligned pointers in some snippet.
pub open spec fn misaligned_registers(snippets: Seq<SnippetModel>) -> Set<MmioAddress> {
    Set::new(
        |r: MmioAddress|
            exists|i: int|
                0 <= i < snippets.len() && (
                #[trigger] snippets[i]).misaligned_mmio_writes.contains_key(r),
    )
}

/// The registers that some snippet analyses.
pub open spec fn analyzed_registers(snippets: Seq<SnippetModel>) -> Set<MmioAddress> {
    Set::new(
        |r: MmioAddress|
            exists|i: int|
                0 <= i < snippets.len() && (
                #[trigger] snippets[i]).analysis_by_mmio_addr.contains_key(r),
    )
}

/// Adds the keys of a table to a set.
fn add_keys<V>(s: &mut FxHashSet<MmioAddress>, m: &FxHashMap<MmioAddress, V>)
    ensures
        final(s)@ == old(s)@.union(m@.dom()),
{
    let keys = map_keys(m);
    let mut i: usize = 0;
    assert(s@ =~= s@.union(keys@.take(0).to_set()));
    while i < keys.len()
        invariant
            enumerates(keys@, m@.dom()),
            i <= keys@.len(),
            s@ == old(s)@.union(keys@.take(i as int).to_set()),
        decreases keys.len() - i,
    {
        set_insert(s, keys[i]);
        proof {
            lemma_take_to_set(keys@, i as int);
            assert(s@ =~= old(s)@.union(keys@.take(i + 1).to_set()));
        }
        i += 1;
    }
    assert(keys@.take(i as int) =~= keys@);
}

/// Finds the registers that some snippet shows not to hold pointers.
pub fn extract_pointer_counterexamples(snippets: &[DmaAnalysisSnippet]) -> (res: FxHashSet<
    MmioAddress,
>)
    ensures
        res@ == non_pointer_registers(snippet_views(snippets@)),
{
    let ghost views = snippet_views(snippets@);
    let mut res: FxHashSet<MmioAddress> = FxHashSet::default();
    let mut i: usize = 0;
    assert(res@ =~= non_pointer_registers(views.take(0)));
    while i < snippets.len()
        invariant
            views == snippet_views(snippets@),
            i <= snippets@.len(),
            res@ == non_pointer_registers(views.take(i as int)),
        decreases snippets.len() - i,
    {
        let ghost before = res@;
        add_keys(&mut res, &snippets[i].mmio_pointer_counterexamples);
        proof {
            let now = views.take(i as int);
            let more = views.take(i + 1);
            assert(more[i as int] == snippets@[i as int]@);
            assert forall|r: MmioAddress| res@.contains(r) <==> non_pointer_registers(
                more,
            ).contains(r) by {
                if before.contains(r) {
                    let j = choose|j: int|
                        0 <= j < now.len() && (
                        #[trigger] now[j]).mmio_pointer_counterexamples.contains_key(r);
                    assert(more[j] == now[j]);
                }
                if non_pointer_registers(more).contains(r) {
                    let j = choose|j: int|
                        0 <= j < more.len() && (
                        #[trigger] more[j]).mmio_pointer_counterexamples.contains_key(r);
                    if j < i {
                        assert(now[j] == more[j]);
                    }
                }
            }
            assert(res@ =~= non_pointer_registers(more));
        }
        i += 1;
    }
    assert(views.take(i as int) =~= views);
    res
}

/// Finds the registers that hold misaligned pointers in some snippet.
pub fn extract_misaligned_pointer_regs(snippets: &[DmaAnalysisSnippet]) -> (res: FxHashSet<
    MmioAddress,
>)
    ensures
        res@ == misaligned_registers(snippet_views(snippets@)),
{
    let ghost views = snippet_views(snippets@);
    let mut res: FxHashSet<MmioAddress> = FxHashSet::default();
    let mut i: usize = 0;
    assert(res@ =~= misaligned_registers(views.take(0)));
    while i < snippets.len()
        invariant
            views == snippet_views(snippets@),
            i <= snippets@.len(),
            res@ == misaligned_registers(views.take(i as int)),
        decreases snippets.len() - i,
    {
        let ghost before = res@;
        add_keys(&mut res, &snippets[i].misaligned_mmio_writes);
        proof {
            let now = views.take(i as int);
            let more = views.take(i + 1);
            assert(more[i as int] == snippets@[i as int]@);
            assert forall|r: MmioAddress| res@.contains(r) <==> misaligned_registers(
                more,
            ).contains(r) by {
                if before.contains(r) {
                    let j = choose|j: int|
                        0 <= j < now.len() && (
                        #[trigger] now[j]).misaligned_mmio_writes.contains_key(r);
                    assert(more[j] == now[j]);
                }
                if misaligned_registers(more).contains(r) {
                    let j = choose|j: int|
                        0 <= j < more.len() && (
                        #[trigger] more[j]).misaligned_mmio_writes.contains_key(r);
                    if j < i {
                        assert(now[j] == more[j]);
                    }
                }
            }
            assert(res@ =~= misaligned_registers(more));
        }
        i += 1;
    }
    assert(views.take(i as int) =~= views);
    res
}

/// Finds the registers that some snippet analyses.
pub fn extract_analyzed_mmio_addrs(snippets: &[DmaAnalysisSnippet]) -> (res: FxHashSet<
    MmioAddress,
>)
    ensures
        res@ == analyzed_registers(snippet_views(snippets@)),
{
    let ghost views = snippet_views(snippets@);
    let mut res: FxHashSet<MmioAddress> = FxHashSet::default();
    let mut i: usize = 0;
    assert(res@ =~= analyzed_registers(views.take(0)));
    while i < snippets.len()
        invariant
            views == snippet_views(snippets@),
            i <= snippets@.len(),
            res@ == analyzed_registers(views.take(i as int)),
        decreases snippets.len() - i,
    {
        let ghost before = res@;
        add_keys(&mut res, &snippets[i].analysis_by_mmio_addr);
        proof {
            let now = views.take(i as int);
            let more = views.take(i + 1);
            assert(more[i as int] == snippets@[i as int]@);
            assert(snippets@[i as int]@.analysis_by_mmio_addr.dom()
                =~= snippets@[i as int].analysis_by_mmio_addr@.dom());
            assert forall|r: MmioAddress| res@.contains(r) <==> analyzed_registers(
                more,
            ).contains(r) by {
                if before.contains(r) {
                    let j = choose|j: int|
                        0 <= j < now.len() && (
                        #[trigger] now[j]).analysis_by_mmio_addr.contains_key(r);
                    assert(more[j] == now[j]);
                }
                if analyzed_registers(more).contains(r) {
                    let j = choose|j: int|
                        0 <= j < more.len() && (
                        #[trigger] more[j]).analysis_by_mmio_addr.contains_key(r);
                    if j < i {
                        assert(now[j] == more[j]);
                    }
                }
            }
            assert(res@ =~= analyzed_registers(more));
        }
        i += 1;
    }
    assert(views.take(i as int) =~= views);
    res
}

/// The guesses of the snippets at what lies behind a register, merged in their order.
pub open spec fn common_type(snippets: Seq<SnippetModel>, r: MmioAddress) -> Option<PointerModel>
    decreases snippets.len(),
{
    if snippets.len() == 0 {
        None
    } else {
        let before = common_type(snippets.drop_last(), r);
        let types = snippets.last().guessed_type_by_mmio_addr;
        if types.contains_key(r) {
            match before {
                Some(before) => Some(merged_pointer(before, types[r])),
                None => Some(types[r]),
            }
        } else {
            before
        }
    }
}

/// The guesses of the snippets at what lies behind a register can be merged in their order.
pub open spec fn types_mergeable(snippets: Seq<SnippetModel>, r: MmioAddress) -> bool
    decreases snippets.len(),
{
    if snippets.len() == 0 {
        true
    } else {
        let types = snippets.last().guessed_type_by_mmio_addr;
        &&& types_mergeable(snippets.drop_last(), r)
        &&& types.contains_key(r) ==> (common_type(snippets.drop_last(), r) matches Some(before)
            ==> mergeable(before, types[r]))
    }
}

/// The guesses at what lies behind registers can be merged, apart from the registers in `skipped`.
pub open spec fn all_types_mergeable(
    snippets: Seq<SnippetModel>,
    skipped: Set<MmioAddress>,
) -> bool {
    forall|r: MmioAddress| !skipped.contains(r) ==> #[trigger] types_mergeable(snippets, r)
}

/// The merged guesses at what lies behind registers, apart from the registers in `skipped`.
pub open spec fn common_types(snippets: Seq<SnippetModel>, skipped: Set<MmioAddress>) -> Map<
    MmioAddress,
    PointerModel,
> {
    Map::new(
        |r: MmioAddress| !skipped.contains(r) && common_type(snippets, r) is Some,
        |r: MmioAddress| common_type(snippets, r)->0,
    )
}

/// Guesses that cannot be merged at some point cannot be merged at all.
proof fn lemma_unmergeable(snippets: Seq<SnippetModel>, r: MmioAddress, n: int)
    requires
        0 <= n <= snippets.len(),
        !types_mergeable(snippets.take(n), r),
    ensures
        !types_mergeable(snippets, r),
    decreases snippets.len() - n,
{
    if n < snippets.len() {
        assert(snippets.take(n + 1).drop_last() =~= snippets.take(n));
        lemma_unmergeable(snippets, r, n + 1);
    } else {
        assert(snippets.take(n) =~= snippets);
    }
}

/// Merges the guess of one more snippet at what lies behind a register. False where it cannot be
/// merged.
fn merge_type(
    types: &mut FxHashMap<MmioAddress, PointerType>,
    r: MmioAddress,
    guess: &PointerType,
) -> (res: bool)
    ensures
        res == (type_views(old(types)@).contains_key(r) ==> mergeable(
            type_views(old(types)@)[r],
            guess@,
        )),
        res ==> type_views(final(types)@) == type_views(old(types)@).insert(
            r,
            if type_views(old(types)@).contains_key(r) {
                merged_pointer(type_views(old(types)@)[r], guess@)
            } else {
                guess@
            },
        ),
{
    let ghost before = type_views(types@);
    match map_remove(types, &r) {
        Some(mut existing) => {
            assert(before[r] == existing@);
            if !is_mergeable(&existing, guess) {
                return false;
            }
            existing.merge(guess);
            map_insert(types, r, existing);
            assert(type_views(types@) =~= before.insert(r, existing@));
        },
        None => {
            map_insert(types, r, guess.clone());
            assert(type_views(types@) =~= before.insert(r, guess@));
        },
    }
    true
}

/// Merges the guesses of one more snippet at what lies behind registers. False where some of them
/// cannot be merged.
fn merge_snippet_types(
    types: &mut FxHashMap<MmioAddress, PointerType>,
    guesses: &FxHashMap<MmioAddress, PointerType>,
    non_pointers: &FxHashSet<MmioAddress>,
    misaligned_pointers: &FxHashSet<MmioAddress>,
    tx_pointers: &FxHashSet<MmioAddress>,
    Ghost(before): Ghost<Seq<SnippetModel>>,
    Ghost(snippet): Ghost<SnippetModel>,
) -> (res: bool)
    requires
        snippet.guessed_type_by_mmio_addr == type_views(guesses@),
        type_views(old(types)@) == common_types(
            before,
            non_pointers@.union(misaligned_pointers@).union(tx_pointers@),
        ),
        all_types_mergeable(
            before,
            non_pointers@.union(misaligned_pointers@).union(tx_pointers@),
        ),
    ensures
        res == all_types_mergeable(
            before.push(snippet),
            non_pointers@.union(misaligned_pointers@).union(tx_pointers@),
        ),
        res ==> type_views(final(types)@) == common_types(
            before.push(snippet),
            non_pointers@.union(misaligned_pointers@).union(tx_pointers@),
        ),
{
    let ghost skipped = non_pointers@.union(misaligned_pointers@).union(tx_pointers@);
    let ghost more = before.push(snippet);
    let ghost old_types = common_types(before, skipped);
    let ghost views = type_views(guesses@);
    let keys = map_keys(guesses);
    let mut i: usize = 0;
    assert(more.drop_last() =~= before);
    while i < keys.len()
        invariant
            skipped == non_pointers@.union(misaligned_pointers@).union(tx_pointers@),
            more == before.push(snippet),
            more.drop_last() == before,
            views == type_views(guesses@),
            snippet.guessed_type_by_mmio_addr == views,
            old_types == common_types(before, skipped),
            all_types_mergeable(before, skipped),
            enumerates(keys@, guesses@.dom()),
            i <= keys@.len(),
            forall|j: int|
                0 <= j < i && !skipped.contains(#[trigger] keys@[j]) ==> types_mergeable(
                    more,
                    keys@[j],
                ),
            forall|r: MmioAddress| #[trigger]
                type_views(types@).contains_key(r) <==> (if keys@.take(i as int).contains(r) {
                    common_types(more, skipped).contains_key(r)
                } else {
                    old_types.contains_key(r)
                }),
            forall|r: MmioAddress| #[trigger]
                type_views(types@).contains_key(r) ==> type_views(types@)[r] == (if keys@.take(
                    i as int,
                ).contains(r) {
                    common_types(more, skipped)[r]
                } else {
                    old_types[r]
                }),
        decreases keys.len() - i,
    {
        let r = keys[i];
        proof {
            assert(keys@.to_set().contains(r));
            assert(views.contains_key(r));
            lemma_take_to_set(keys@, i as int);
            assert(!keys@.take(i as int).contains(r));
            assert forall|q: MmioAddress| keys@.take(i + 1).contains(q) <==> (keys@.take(
                i as int,
            ).contains(q) || q == r) by {
                assert(keys@.take(i + 1).to_set().contains(q) <==> keys@.take(i + 1).contains(q));
                assert(keys@.take(i as int).to_set().contains(q) <==> keys@.take(
                    i as int,
                ).contains(q));
            }
        }
        if set_contains(non_pointers, &r) || set_contains(misaligned_pointers, &r) || set_contains(
            tx_pointers,
            &r,
        ) {
            assert(skipped.contains(r));
            assert(!type_views(types@).contains_key(r));
        } else {
            let ghost now = type_views(types@);
            assert(now.contains_key(r) <==> old_types.contains_key(r));
            let guess = map_get(guesses, &r).unwrap();
            assert(views[r] == guess@);
            if !merge_type(types, r, guess) {
                assert(types_mergeable(before, r));
                assert(!types_mergeable(more, r));
                return false;
            }
            assert(types_mergeable(before, r));
            assert(types_mergeable(more, r));
        }
        i += 1;
    }
    proof {
        assert(keys@.take(i as int) =~= keys@);
        let after = type_views(types@);
        let wanted = common_types(more, skipped);
        assert forall|r: MmioAddress| keys@.contains(r) <==> views.contains_key(r) by {
            assert(keys@.to_set().contains(r) <==> keys@.contains(r));
        }
        assert forall|r: MmioAddress| !skipped.contains(r) implies #[trigger] types_mergeable(
            more,
            r,
        ) by {
            assert(types_mergeable(before, r));
            if views.contains_key(r) {
                let j = choose|j: int| 0 <= j < keys@.len() && keys@[j] == r;
                assert(types_mergeable(more, keys@[j]));
            }
        }
        assert forall|r: MmioAddress|
            #![trigger after.dom().contains(r)]
            #![trigger wanted.dom().contains(r)]
            #![trigger after[r]]
            (after.dom().contains(r) <==> wanted.dom().contains(r)) && (after.dom().contains(r)
                ==> after[r] == wanted[r]) by {
            assert(after.contains_key(r) == after.dom().contains(r));
            if !keys@.contains(r) {
                assert(!views.contains_key(r));
                assert(common_type(more, r) == common_type(before, r));
            }
        }
        assert(after =~= wanted);
    }
    true
}

/// Merges the guesses of all snippets at what lies behind registers, apart from registers that do
/// not hold pointers, hold misaligned ones, or send. None where some guesses cannot be merged.
pub fn gather_common_types(
    snippets: &[DmaAnalysisSnippet],
    non_pointers: &FxHashSet<MmioAddress>,
    misaligned_pointers: &FxHashSet<MmioAddress>,
    tx_pointers: &FxHashSet<MmioAddress>,
) -> (res: Option<FxHashMap<MmioAddress, PointerType>>)
    ensures
        res is Some <==> all_types_mergeable(
            snippet_views(snippets@),
            non_pointers@.union(misaligned_pointers@).union(tx_pointers@),
        ),
        res matches Some(types) ==> type_views(types@) == common_types(
            snippet_views(snippets@),
            non_pointers@.union(misaligned_pointers@).union(tx_pointers@),
        ),
{
    let ghost skipped = non_pointers@.union(misaligned_pointers@).union(tx_pointers@);
    let ghost views = snippet_views(snippets@);
    let mut res: FxHashMap<MmioAddress, PointerType> = FxHashMap::default();
    let mut i: usize = 0;
    assert(type_views(res@) =~= common_types(views.take(0), skipped));
    while i < snippets.len()
        invariant
            skipped == non_pointers@.union(misaligned_pointers@).union(tx_pointers@),
            views == snippet_views(snippets@),
            i <= snippets@.len(),
            type_views(res@) == common_types(views.take(i as int), skipped),
            all_types_mergeable(views.take(i as int), skipped),
        decreases snippets.len() - i,
    {
        assert(views.take(i as int).push(views[i as int]) =~= views.take(i + 1));
        if !merge_snippet_types(
            &mut res,
            &snippets[i].guessed_type_by_mmio_addr,
            non_pointers,
            misaligned_pointers,
            tx_pointers,
            Ghost(views.take(i as int)),
            Ghost(views[i as int]),
        ) {
            proof {
                let r = choose|r: MmioAddress|
                    !skipped.contains(r) && !#[trigger] types_mergeable(views.take(i + 1), r);
                lemma_unmergeable(views, r, i + 1);
            }
            return None;
        }
        i += 1;
    }
    assert(views.take(i as int) =~= views);
    Some(res)
}

} // verus!
