use vstd::prelude::*;

use crate::arena::Arena;
use crate::handle::ArenaId;

verus! {

/// Walker over an arena's ID/value pairs, created by
/// [`pairs`](Arena::pairs).  It visits positions `0..len` in order and
/// reconstructs the owning ID of each from the back-pointer; it is
/// consistent for as long as the arena is not mutated, which the borrow it
/// holds guarantees.
pub struct Pairs<'a, T> {
    pub(crate) arena: &'a Arena<T>,
    pub(crate) pos: usize,
}

/// Walker over an arena's IDs, created by [`ids`](Arena::ids): like
/// [`Pairs`] without the values.
pub struct Ids<'a, T> {
    pub(crate) arena: &'a Arena<T>,
    pub(crate) pos: usize,
}

impl<'a, T> Pairs<'a, T> {
    /// The arena being walked.
    pub closed spec fn arena_of(self) -> Arena<T> {
        *self.arena
    }

    /// The next position to visit.
    pub closed spec fn at(self) -> int {
        self.pos as int
    }

    /// Yields the ID/value pair at the next position, or `None` after the
    /// last live position.
    pub fn next(&mut self) -> (r: Option<(ArenaId, &'a T)>)
        requires
            old(self).arena_of().wf(),
        ensures
            final(self).arena_of() == old(self).arena_of(),
            old(self).at() >= old(self).arena_of()@.len() ==> r is None && final(self).at()
                == old(self).at(),
            old(self).at() < old(self).arena_of()@.len() ==> ({
                &&& final(self).at() == old(self).at() + 1
                &&& r matches Some((h, v)) && Some(h) == old(self).arena_of().spec_id_at(
                    old(self).at(),
                ) && *v == old(self).arena_of()@[old(self).at()]
            }),
    {
        if self.pos >= self.arena.len() {
            return None;
        }
        let h = match self.arena.id_at(self.pos) {
            Some(h) => h,
            None => unreached(),
        };
        let v = &self.arena.as_slice()[self.pos];
        self.pos = self.pos + 1;
        Some((h, v))
    }
}

impl<'a, T> Ids<'a, T> {
    /// The arena being walked.
    pub closed spec fn arena_of(self) -> Arena<T> {
        *self.arena
    }

    /// The next position to visit.
    pub closed spec fn at(self) -> int {
        self.pos as int
    }

    /// Yields the ID owning the next position, or `None` after the last
    /// live position.
    pub fn next(&mut self) -> (r: Option<ArenaId>)
        requires
            old(self).arena_of().wf(),
        ensures
            final(self).arena_of() == old(self).arena_of(),
            old(self).at() >= old(self).arena_of()@.len() ==> r is None && final(self).at()
                == old(self).at(),
            old(self).at() < old(self).arena_of()@.len() ==> ({
                &&& final(self).at() == old(self).at() + 1
                &&& r == old(self).arena_of().spec_id_at(old(self).at())
            }),
    {
        if self.pos >= self.arena.len() {
            return None;
        }
        let h = match self.arena.id_at(self.pos) {
            Some(h) => h,
            None => unreached(),
        };
        self.pos = self.pos + 1;
        Some(h)
    }
}

impl<T> Arena<T> {
    /// Returns a walker over all ID/value pairs, in position order.
    pub fn pairs(&self) -> (r: Pairs<'_, T>)
        requires
            self.wf(),
        ensures
            r.arena_of() == *self,
            r.at() == 0,
    {
        Pairs { arena: self, pos: 0 }
    }

    /// Returns a walker over all IDs, in position order.
    pub fn ids(&self) -> (r: Ids<'_, T>)
        requires
            self.wf(),
        ensures
            r.arena_of() == *self,
            r.at() == 0,
    {
        Ids { arena: self, pos: 0 }
    }
}

} // verus!
