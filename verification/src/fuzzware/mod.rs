//! The configurations and traces of the emulator.

pub mod fuzzware_config;
pub mod fuzzware_dma_config;
pub mod fuzzware_trace;
pub mod text_laws;
pub mod trace_laws;
