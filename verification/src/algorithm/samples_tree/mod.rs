//! The tree of checkpoints.

pub mod checkpoint;
pub mod checkpoints;
pub mod iter;
pub mod node;
pub mod sample;
pub mod sequence;
pub mod tree;

pub use checkpoint::Checkpoint;
pub use iter::{IntoIter, Iter};
pub use sample::Sample;
pub use tree::SamplesTree;
