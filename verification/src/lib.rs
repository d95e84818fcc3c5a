//! A contiguous growable container that assigns a stable ID to each value
//! added to it.
//!
//! The IDs act like indices, except that they stay valid even when other
//! values are removed, when positions are swapped, or when the whole
//! container is sorted.  Values themselves are kept densely packed in one
//! slice, so iteration over all live values is as cheap as iterating a
//! vector.

mod arena;
mod codec;
mod handle;
mod laws;
mod sort;
mod views;

pub use arena::Arena;
pub use codec::Entry;
pub use codec::valid_encoding;
pub use handle::ArenaId;
pub use laws::lemma_distinct_ids_distinct_positions;
pub use laws::lemma_dual_mapping;
pub use laws::lemma_index_of_id_at;
pub use laws::lemma_live_tag_below_counter;
pub use sort::comparator_leq;
pub use views::Ids;
pub use views::Pairs;
