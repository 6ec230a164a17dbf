//! A configuration of the DMA descriptors of a target, from what was found out about many traces.

pub mod configs;
pub mod descriptor_laws;
pub mod descriptors;
pub mod layout;
pub mod layout_laws;
pub mod ranking;
pub mod regular;
pub mod senders;
pub mod summarize;
pub mod summary_laws;
pub mod types;
pub mod vote_laws;
pub mod votes;

pub use layout::DescriptorLayoutCandidate;
pub use summarize::{summarize_snippets, SummaryError};
pub use senders::RxTxPairVote;
pub use votes::BufVoteEntry;
