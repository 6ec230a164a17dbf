//! Detection of DMA buffers and descriptors in firmware memory access traces.

pub mod common;
pub mod config_laws;
pub mod dma_analysis;
pub mod dma_config;
pub mod dma_snippet;
pub mod fuzzware;
pub mod history_laws;
pub mod hoedur;
pub mod mem_laws;
pub mod mem_map;
pub mod mem_text;
pub mod mem_view;
pub mod scan;
pub mod serialization_helpers;
pub mod summary;
pub mod tables;
pub mod text;
