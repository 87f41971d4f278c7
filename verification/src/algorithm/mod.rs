//! The summary and the structures it is built from.

pub mod incoming_merge_state;
pub mod ranks;
pub mod samples_compressor;
pub mod samples_tree;
pub mod source;
pub mod stream;
pub mod summary;

pub use incoming_merge_state::IncomingMergeState;
pub use samples_compressor::SamplesCompressor;
pub use source::{SampleSource, VecSource, WholeSource};
pub use summary::Summary;
