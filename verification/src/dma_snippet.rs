//! What the analysis of one trace found out.

use crate::common::MmioAddress;
use crate::dma_analysis::merge::{PointerModel, PointerType};
use crate::dma_analysis::result::{result_views, results_by_key, AccessAnalysisResult, ResultModel};
use crate::dma_analysis::types::{BufModel, DmaBufMeta, PointerCounterExample, RxTxPair};
use crate::hoedur::bintrace::Access;
use crate::tables::{enumerates, lists_values, map_get, map_insert, map_keys, map_remove};
use fxhash::FxHashMap;
use vstd::prelude::*;

verus! {

broadcast use vstd::std_specs::hash::group_hash_axioms;

/// What the analysis of one trace found out.
#[derive(Debug)]
pub struct DmaAnalysisSnippet {
    pub detected_candidates: FxHashMap<MmioAddress, DmaBufMeta>,
    pub mmio_pointer_counterexamples: FxHashMap<MmioAddress, PointerCounterExample>,
    pub misaligned_mmio_writes: FxHashMap<MmioAddress, Access>,
    pub discarded_candidates: Vec<DmaBufMeta>,
    pub analysis_by_mmio_addr: FxHashMap<MmioAddress, Vec<AccessAnalysisResult>>,
    pub guessed_type_by_mmio_addr: FxHashMap<MmioAddress, PointerType>,
    pub collided_descriptors: Vec<DmaBufMeta>,
    pub ambiguous_candidate_mmio_addrs: Vec<MmioAddress>,
    pub rx_tx_pairs: Vec<RxTxPair>,
}

/// The contents of a `DmaAnalysisSnippet`.
#[verifier::ext_equal]
pub struct SnippetModel {
    pub detected_candidates: Map<MmioAddress, BufModel>,
    pub mmio_pointer_counterexamples: Map<MmioAddress, PointerCounterExample>,
    pub misaligned_mmio_writes: Map<MmioAddress, Access>,
    pub discarded_candidates: Seq<BufModel>,
    pub analysis_by_mmio_addr: Map<MmioAddress, Seq<ResultModel>>,
    pub guessed_type_by_mmio_addr: Map<MmioAddress, PointerModel>,
    pub collided_descriptors: Seq<BufModel>,
    pub ambiguous_candidate_mmio_addrs: Seq<MmioAddress>,
    pub rx_tx_pairs: Seq<RxTxPair>,
}

/// The contents of each buffer.
pub open spec fn buf_views<K>(m: Map<K, DmaBufMeta>) -> Map<K, BufModel> {
    m.map_values(|b: DmaBufMeta| b@)
}

/// The contents of each buffer.
pub open spec fn buf_list_views(s: Seq<DmaBufMeta>) -> Seq<BufModel> {
    s.map_values(|b: DmaBufMeta| b@)
}

/// The contents of each pointer.
pub open spec fn type_views<K>(m: Map<K, PointerType>) -> Map<K, PointerModel> {
    m.map_values(|p: PointerType| p@)
}

impl View for DmaAnalysisSnippet {
    type V = SnippetModel;

    open spec fn view(&self) -> SnippetModel {
        SnippetModel {
            detected_candidates: buf_views(self.detected_candidates@),
            mmio_pointer_counterexamples: self.mmio_pointer_counterexamples@,
            misaligned_mmio_writes: self.misaligned_mmio_writes@,
            discarded_candidates: buf_list_views(self.discarded_candidates@),
            analysis_by_mmio_addr: results_by_key(self.analysis_by_mmio_addr@),
            guessed_type_by_mmio_addr: type_views(self.guessed_type_by_mmio_addr@),
            collided_descriptors: buf_list_views(self.collided_descriptors@),
            ambiguous_candidate_mmio_addrs: self.ambiguous_candidate_mmio_addrs@,
            rx_tx_pairs: self.rx_tx_pairs@,
        }
    }
}

/// The contents of each snippet.
pub open spec fn snippet_views(s: Seq<DmaAnalysisSnippet>) -> Seq<SnippetModel> {
    s.map_values(|snippet: DmaAnalysisSnippet| snippet@)
}

impl SnippetModel {
    /// Nothing was found out.
    pub open spec fn empty() -> SnippetModel {
        SnippetModel {
            detected_candidates: Map::empty(),
            mmio_pointer_counterexamples: Map::empty(),
            misaligned_mmio_writes: Map::empty(),
            discarded_candidates: Seq::empty(),
            analysis_by_mmio_addr: Map::empty(),
            guessed_type_by_mmio_addr: Map::empty(),
            collided_descriptors: Seq::empty(),
            ambiguous_candidate_mmio_addrs: Seq::empty(),
            rx_tx_pairs: Seq::empty(),
        }
    }
}

impl Default for DmaAnalysisSnippet {
    fn default() -> (res: Self)
        ensures
            res@ == SnippetModel::empty(),
    {
        Self::new()
    }
}

/// The results that are kept where there are more than `max` of them: the first and the last of
/// them, half as many as `max` each.
pub open spec fn kept<T>(results: Seq<T>, max: int) -> Seq<T> {
    if results.len() > max {
        results.take(max / 2) + results.skip(results.len() - max / 2)
    } else {
        results
    }
}

/// Keeping some of the results keeps at most `max` of them, and all of them if there are no more;
/// what was kept is kept again.
pub proof fn lemma_kept<T>(results: Seq<T>, max: int)
    requires
        max >= 0,
    ensures
        kept(results, max).len() <= max,
        results.len() <= max ==> kept(results, max) == results,
        kept(kept(results, max), max) == kept(results, max),
{
}

/// Of too many results the first ones and the last ones are kept, as many of the one as of the
/// other, and one less than `max` where that is odd.
pub proof fn lemma_kept_ends<T>(results: Seq<T>, max: int, i: int)
    requires
        0 <= max < results.len(),
        0 <= i < max / 2,
    ensures
        kept(results, max).len() == max - max % 2,
        kept(results, max)[i] == results[i],
        kept(results, max)[max - max % 2 - 1 - i] == results[results.len() - 1 - i],
{
}

/// Drops the results in the middle where there are more than `max` of them.
fn keep_ends(results: &mut Vec<AccessAnalysisResult>, max: usize)
    ensures
        final(results)@ == kept(old(results)@, max as int),
{
    let half = max / 2;
    let len = results.len();
    if len > max {
        let mut tail = results.split_off(len - half);
        results.truncate(half);
        results.append(&mut tail);
        assert(results@ =~= kept(old(results)@, max as int));
    }
}

impl DmaAnalysisSnippet {
    /// Nothing was found out yet.
    pub fn new() -> (res: Self)
        ensures
            res@ == SnippetModel::empty(),
    {
        let res = DmaAnalysisSnippet {
            detected_candidates: FxHashMap::default(),
            mmio_pointer_counterexamples: FxHashMap::default(),
            misaligned_mmio_writes: FxHashMap::default(),
            discarded_candidates: Vec::new(),
            analysis_by_mmio_addr: FxHashMap::default(),
            guessed_type_by_mmio_addr: FxHashMap::default(),
            collided_descriptors: Vec::new(),
            ambiguous_candidate_mmio_addrs: Vec::new(),
            rx_tx_pairs: Vec::new(),
        };
        assert(res@ =~= SnippetModel::empty());
        res
    }

    /// Sets the pairs: the pair of every register, in an order that is left open.
    pub fn set_rx_tx_pairs(&mut self, rx_tx_pairs: &FxHashMap<MmioAddress, RxTxPair>)
        ensures
            final(self)@ == (SnippetModel { rx_tx_pairs: final(self).rx_tx_pairs@, ..old(self)@ }),
            lists_values(final(self).rx_tx_pairs@, rx_tx_pairs@),
    {
        let keys = map_keys(rx_tx_pairs);
        let mut pairs: Vec<RxTxPair> = Vec::new();
        let mut i: usize = 0;
        while i < keys.len()
            invariant
                i <= keys@.len(),
                enumerates(keys@, rx_tx_pairs@.dom()),
                pairs@.len() == i,
                forall|j: int| 0 <= j < i ==> #[trigger] pairs@[j] == rx_tx_pairs@[keys@[j]],
            decreases keys.len() - i,
        {
            assert(keys@.to_set().contains(keys@[i as int]));
            pairs.push(*map_get(rx_tx_pairs, &keys[i]).unwrap());
            i += 1;
        }
        assert(pairs@ =~= keys@.map_values(|k: MmioAddress| rx_tx_pairs@[k]));
        self.rx_tx_pairs = pairs;
    }

    /// Keeps at most the given number of results for each register.
    pub fn minimize(&mut self, max_entries_per_mmio: usize)
        ensures
            final(self)@ == (SnippetModel {
                analysis_by_mmio_addr: old(self)@.analysis_by_mmio_addr.map_values(
                    |results: Seq<ResultModel>| kept(results, max_entries_per_mmio as int),
                ),
                ..old(self)@
            }),
    {
        let keys = map_keys(&self.analysis_by_mmio_addr);
        let ghost all = self.analysis_by_mmio_addr@;
        let ghost max = max_entries_per_mmio as int;
        let mut i: usize = 0;
        while i < keys.len()
            invariant
                i <= keys@.len(),
                enumerates(keys@, all.dom()),
                max == max_entries_per_mmio,
                self@ == (SnippetModel {
                    analysis_by_mmio_addr: self@.analysis_by_mmio_addr,
                    ..old(self)@
                }),
                self.analysis_by_mmio_addr@.dom() == all.dom(),
                forall|j: int|
                    0 <= j < i ==> self.analysis_by_mmio_addr@[#[trigger] keys@[j]]@ == kept(
                        all[keys@[j]]@,
                        max,
                    ),
                forall|j: int|
                    i <= j < keys@.len() ==> self.analysis_by_mmio_addr@[#[trigger] keys@[j]]
                        == all[keys@[j]],
            decreases keys.len() - i,
        {
            let key = keys[i];
            assert(keys@.to_set().contains(key));
            let mut results = map_remove(&mut self.analysis_by_mmio_addr, &key).unwrap();
            keep_ends(&mut results, max_entries_per_mmio);
            map_insert(&mut self.analysis_by_mmio_addr, key, results);
            assert(self.analysis_by_mmio_addr@.dom() =~= all.dom());
            i += 1;
        }
        proof {
            let keep = |results: Seq<ResultModel>| kept(results, max);
            let after = self@.analysis_by_mmio_addr;
            let wanted = old(self)@.analysis_by_mmio_addr.map_values(keep);
            assert forall|r: MmioAddress| all.contains_key(r) implies after[r] == wanted[r] by {
                assert(keys@.to_set().contains(r));
                let j = choose|j: int| 0 <= j < keys@.len() && keys@[j] == r;
                let before = all[keys@[j]]@;
                assert(self.analysis_by_mmio_addr@[keys@[j]]@ == kept(before, max));
                assert(result_views(kept(before, max)) =~= kept(result_views(before), max));
            }
            assert(after =~= wanted);
        }
    }
}

} // verus!
