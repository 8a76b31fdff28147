//! The items most uses need: `use nodify::prelude::*;` brings the node
//! traits, the engines and the traits through which they are called.
pub use crate::nodifyied::{Nodifyied, NodifyiedBuilder, WeightedNodifyied};
pub use crate::process::{Contains, DeltaStepping, FindAny, FindFirst, ParallelDFS, Process, DFS};
pub use crate::{AsValue, Node, Weighted};
