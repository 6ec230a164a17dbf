//! Finds the registers of a traced target that hold pointers to DMA buffers or DMA descriptors.

pub mod access_state;
pub mod candidates;
pub mod detect;
pub mod detect_laws;
pub mod event_laws;
pub mod init_laws;
pub mod init_state;
pub mod merge;
pub mod pairs;
pub mod pointer_table;
pub mod register_analysis;
pub mod register_laws;
pub mod registers;
pub mod result;
pub mod result_laws;
pub mod trace_info;
pub mod type_info;
pub mod type_laws;
pub mod types;

pub use detect::{detect_dma, DetectError};
pub use merge::{FieldModel, FieldTypeGuess, PointerModel, PointerType};
pub use result::{AccessAnalysisResult, ResultModel};
pub use trace_info::{TraceInfo, TraceModel};
pub use type_info::InitStateCache;
pub use types::{
    AccessHistEntry, AccessState, AccessStateProfile, BufModel, DmaBuf, DmaBufMeta, InitPattern,
    InitializationState, InitializationStateProfile, PointerCounterExample, RxTxPair, SizeRange,
    TraceIdRange, NULL, POINTER_SIZE, REQUIRED_POINTER_ALIGNMENT,
};
