//! Persistent (immutable, structurally shared) container data structures:
//! a singly-linked stack, a two-list FIFO queue, height-balanced ordered
//! maps and sets, hash-prefix-trie maps and sets, and a rose tree whose
//! mutations rebuild only the spine from the root to the changed node.
//!
//! Every operation takes its container by shared reference and returns
//! a new one; older versions keep their contents.  Operations that need
//! a non-empty container (`pop`, `top`, `dequeue`, removing a tree
//! node) state that as a precondition instead of failing at run time,
//! uniformly across the crate; absent keys are not errors.
pub mod capabilities;
pub mod hashmap;
pub mod hashset;
pub mod list;
pub mod map;
pub mod queue;
pub mod set;
pub mod tree;

pub use capabilities::{EquatableAndCloneable, Hashable, TotallyOrdered};
pub use hashmap::{HMIter, HashMap};
pub use hashset::{HSIter, HashSet};

pub use list::{Iter, List};
pub use map::{MapIter, OrderedMap};
pub use queue::{Queue, QueueIter};
pub use set::{OrderedSet, SetIter};
pub use tree::{Path, TreeAcc};
