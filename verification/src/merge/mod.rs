//! Merging sorted inputs.

pub mod cmp;
pub mod heap;
pub mod laws;
pub mod merged;
pub mod merger;
pub mod sort;
pub mod source;
pub mod tree;

pub use cmp::{ByteComparable, BytewiseComparator, InternalKeyComparator, KeyComparator};
pub use heap::HeapMerger;
pub use merger::{KWayMerge, LoserTreeMerger};
pub use source::{ArenaSource, ArenaSourceBuilder, MergeSource, VecSource};
