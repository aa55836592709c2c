//! A single-file, page-based B-tree storage layer: page buffers, the meta
//! record, the free-page allocator and B-tree nodes with their on-page format.
use vstd::prelude::*;

pub mod bytes;
pub mod data_access_layer;
pub mod error;
pub mod free_list;
pub mod meta;
pub mod node;
pub mod node_codec;
pub mod options;
pub mod page;
pub mod page_size;
pub mod tree;

verus! {

} // verus!
