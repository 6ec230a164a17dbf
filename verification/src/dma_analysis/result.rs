//! What the analysis finds out about single pointer writes.

use super::merge::{PointerModel, PointerType};
use super::type_info::pointer_of;
use super::types::{AccessHistEntry, AccessState, InitializationState, TraceIdRange};
use vstd::prelude::*;

verus! {

/// What was found out about one pointer that was written to a register.
#[derive(Debug)]
pub struct AccessAnalysisResult {
    pub trace_range: TraceIdRange,
    pub mmio_access: AccessHistEntry,
    pub init_state: InitializationState,
    pub access_state: AccessState,
    pub raw_type_guess: Option<PointerType>,
}

/// The contents of an `AccessAnalysisResult`.
pub struct ResultModel {
    pub trace_range: TraceIdRange,
    pub mmio_access: AccessHistEntry,
    pub init_state: InitializationState,
    pub access_state: AccessState,
    pub raw_type_guess: Option<PointerModel>,
}

impl View for AccessAnalysisResult {
    type V = ResultModel;

    open spec fn view(&self) -> ResultModel {
        ResultModel {
            trace_range: self.trace_range,
            mmio_access: self.mmio_access,
            init_state: self.init_state,
            access_state: self.access_state,
            raw_type_guess: pointer_of(self.raw_type_guess),
        }
    }
}

/// The contents of each result.
pub open spec fn result_views(results: Seq<AccessAnalysisResult>) -> Seq<ResultModel> {
    results.map_values(|r: AccessAnalysisResult| r@)
}

/// The contents of the results of each key.
pub open spec fn results_by_key<K>(m: Map<K, Vec<AccessAnalysisResult>>) -> Map<
    K,
    Seq<ResultModel>,
> {
    m.map_values(|v: Vec<AccessAnalysisResult>| result_views(v@))
}

} // verus!
