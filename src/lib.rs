//! A wildcard prefix tree: maps paths of key parts to values, with lookups
//! that may bind wildcard positions to the elements that matched them.
//!
//! A `PrefixTreeMapBuilder` grows the tree; `build` freezes it into a
//! `PrefixTreeMap`, whose lookups are `find_exact` (exact key parts only),
//! `find` (wildcards too, with backtracking) and `find_and_capture` (as `find`,
//! and reports the elements that the wildcards of the match bound).

mod backtrack;
mod builder;
mod captures;
mod key_part;
pub mod laws;
mod node;
mod prefix_tree_map;

pub use crate::builder::{PrefixTreeMapBuilder, exact_path};
pub use crate::captures::Captures;
pub use crate::key_part::{KeyPart, key_part_lt};
pub use crate::node::Path;
pub use crate::prefix_tree_map::{PrefixTreeMap, best_match, bind_all, captures_of, is_best_match, path_lt, path_matches};
