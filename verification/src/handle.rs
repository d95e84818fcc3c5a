use vstd::prelude::*;

verus! {

/// An ID assigned to a value when it was added to an arena.
///
/// Unlike a plain index, an ID remains a valid handle to its value even if
/// other values are removed from the arena and the value sequence gets
/// re-ordered.  IDs are plain `Copy` data and can be passed around freely.
///
/// An ID is made of three parts: the instance discriminator of the arena
/// that issued it, a generation tag that is never reused by that arena, and
/// the index of the slot that maps the ID to a position.  IDs are ordered
/// lexicographically by these three parts, so that deterministic sets and
/// maps of IDs can be built.
#[derive(Debug, Clone, Copy, PartialEq, Eq, Hash, PartialOrd, Ord, Structural)]
pub struct ArenaId {
    pub(crate) disc: u128,
    pub(crate) uid: u64,
    pub(crate) idx: usize,
}

} // verus!
