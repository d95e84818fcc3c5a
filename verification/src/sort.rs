use vstd::prelude::*;

use vstd::relations::sorted_by;
use vstd::relations::transitive;

use core::cmp::Ordering;

use crate::arena::Arena;
use crate::handle::ArenaId;

verus! {

/// What it means for the spec-level order `leq` to model the executable
/// comparator: `leq` is transitive, and whenever the comparator can answer
/// `o` on a pair, a non-`Greater` answer puts the pair in order and a
/// non-`Less` answer puts the reversed pair in order.  For any genuine
/// comparator ("sort by this field") such a `leq` exists; an inconsistent
/// comparator is modelled by no `leq`, and the sortedness clause below then
/// promises nothing, matching a comparison sort's unspecified behaviour.
pub open spec fn comparator_leq<T, F: Fn(&T, &T) -> Ordering>(
    compare: F,
    leq: spec_fn(T, T) -> bool,
) -> bool {
    &&& transitive(leq)
    &&& forall|x: &T, y: &T, o: Ordering|
        #[trigger] call_ensures(compare, (x, y), o) ==> ((o != Ordering::Greater ==> leq(*x, *y))
            && (o != Ordering::Less ==> leq(*y, *x)))
}

/// Exchanging two elements of a sequence leaves its multiset unchanged.
pub(crate) proof fn lemma_swap_multiset<A>(s: Seq<A>, i: int, j: int)
    requires
        0 <= i < s.len(),
        0 <= j < s.len(),
    ensures
        s.update(i, s[j]).update(j, s[i]).to_multiset() == s.to_multiset(),
    decreases (if i <= j {
        0int
    } else {
        1int
    }),
{
    broadcast use vstd::multiset::group_multiset_axioms;
    broadcast use vstd::seq_lib::group_to_multiset_ensures;

    if i == j {
        assert(s.update(i, s[j]).update(j, s[i]) =~= s);
    } else if i < j {
        let t = s.update(i, s[j]).update(j, s[i]);
        let r = t.remove(i).remove(j - 1);
        assert(r =~= s.remove(i).remove(j - 1));
        assert(t.remove(i)[j - 1] == t[j]);
        assert(s.remove(i)[j - 1] == s[j]);
        assert(t.remove(i).to_multiset() == t.to_multiset().remove(t[i]));
        assert(r.to_multiset() == t.remove(i).to_multiset().remove(t[j]));
        assert(s.remove(i).to_multiset() == s.to_multiset().remove(s[i]));
        assert(r.to_multiset() == s.remove(i).to_multiset().remove(s[j]));
        assert(t.to_multiset() =~= r.to_multiset().insert(t[j]).insert(t[i]));
        assert(s.to_multiset() =~= r.to_multiset().insert(s[j]).insert(s[i]));
        assert(r.to_multiset().insert(s[i]).insert(s[j]) =~= r.to_multiset().insert(
            s[j],
        ).insert(s[i]));
    } else {
        lemma_swap_multiset(s, j, i);
        assert(s.update(j, s[i]).update(i, s[j]) =~= s.update(i, s[j]).update(j, s[i]));
    }
}

impl<T: Ord> Arena<T> {
    /// Sorts the arena's values into `Ord` order without invalidating any
    /// ID, by handing [`Ord::cmp`] to [`sort_by`](Arena::sort_by): for
    /// every transitive order that models `T::cmp`, the value sequence is
    /// in that order afterwards.
    pub fn sort(&mut self)
        requires
            old(self).wf(),
        ensures
            final(self).wf(),
            final(self)@.len() == old(self)@.len(),
            final(self)@.to_multiset() == old(self)@.to_multiset(),
            final(self).spec_counter() == old(self).spec_counter(),
            final(self).spec_instance() == old(self).spec_instance(),
            final(self).spec_slot_count() == old(self).spec_slot_count(),
            forall|h: ArenaId| #[trigger] final(self).spec_get(h) == old(self).spec_get(h),
            forall|h: ArenaId|
                old(self).spec_retired(h) ==> #[trigger] final(self).spec_retired(h),
            forall|leq: spec_fn(T, T) -> bool|
                #[trigger] comparator_leq(T::cmp, leq) ==> sorted_by(final(self)@, leq),
    {
        self.sort_by(T::cmp)
    }
}

impl<T> Arena<T> {
    /// Sorts the arena's values with the provided comparator, without
    /// invalidating any ID: every element exchange goes through the same
    /// position-swap bookkeeping as [`swap`](Arena::swap), so only
    /// positions change.  For every transitive order that models the
    /// comparator, the value sequence is in that order afterwards.
    #[verifier::rlimit(60)]
    pub fn sort_by<F: Fn(&T, &T) -> Ordering>(&mut self, compare: F)
        requires
            old(self).wf(),
            forall|x: &T, y: &T| #[trigger] call_requires(compare, (x, y)),
        ensures
            final(self).wf(),
            final(self)@.len() == old(self)@.len(),
            final(self)@.to_multiset() == old(self)@.to_multiset(),
            final(self).spec_counter() == old(self).spec_counter(),
            final(self).spec_instance() == old(self).spec_instance(),
            final(self).spec_slot_count() == old(self).spec_slot_count(),
            forall|h: ArenaId| #[trigger] final(self).spec_get(h) == old(self).spec_get(h),
            forall|h: ArenaId|
                old(self).spec_retired(h) ==> #[trigger] final(self).spec_retired(h),
            forall|leq: spec_fn(T, T) -> bool|
                #[trigger] comparator_leq(compare, leq) ==> sorted_by(final(self)@, leq),
    {
        let n = self.len();
        let mut i: usize = 0;
        while i < n
            invariant
                self.wf(),
                n == self@.len(),
                self@.len() == old(self)@.len(),
                i <= n,
                self@.to_multiset() == old(self)@.to_multiset(),
                self.spec_counter() == old(self).spec_counter(),
                self.spec_instance() == old(self).spec_instance(),
                self.spec_slot_count() == old(self).spec_slot_count(),
                forall|h: ArenaId| #[trigger] self.spec_get(h) == old(self).spec_get(h),
                forall|h: ArenaId|
                    old(self).spec_retired(h) ==> #[trigger] self.spec_retired(h),
                forall|x: &T, y: &T| #[trigger] call_requires(compare, (x, y)),
                forall|leq: spec_fn(T, T) -> bool|
                    #[trigger] comparator_leq(compare, leq) ==> ((forall|a: int, b: int|
                        0 <= a < b < i ==> leq(self@[a], self@[b])) && (forall|a: int, b: int|
                        0 <= a < i <= b < n ==> leq(self@[a], self@[b]))),
            decreases n - i,
        {
            let mut m: usize = i;
            let mut k: usize = i + 1;
            while k < n
                invariant
                    self.wf(),
                    n == self@.len(),
                    i <= m < k <= n,
                    i < n,
                    forall|x: &T, y: &T| #[trigger] call_requires(compare, (x, y)),
                    forall|leq: spec_fn(T, T) -> bool|
                        #[trigger] comparator_leq(compare, leq) ==> (forall|t: int|
                            i <= t < k && t != m ==> leq(self@[m as int], self@[t])),
                decreases n - k,
            {
                let vs = self.as_slice();
                let ord = compare(&vs[k], &vs[m]);
                let ghost prev_m = m;
                match ord {
                    Ordering::Less => {
                        m = k;
                    },
                    _ => {},
                }
                proof {
                    assert forall|leq: spec_fn(T, T) -> bool|
                        #[trigger] comparator_leq(compare, leq) implies (forall|t: int|
                        i <= t < k + 1 && t != m ==> leq(self@[m as int], self@[t])) by {
                        assert forall|t: int|
                            i <= t < k + 1 && t != m implies leq(self@[m as int], self@[t]) by {
                            if ord == Ordering::Less {
                                assert(leq(self@[k as int], self@[prev_m as int]));
                                if t != prev_m as int && t < k {
                                    assert(leq(self@[prev_m as int], self@[t]));
                                }
                            } else {
                                if t == k {
                                    assert(leq(self@[m as int], self@[k as int]));
                                }
                            }
                        }
                    }
                }
                k = k + 1;
            }
            let ghost before = *self;
            self.swap(i, m);
            proof {
                lemma_swap_multiset(before@, i as int, m as int);
                assert forall|leq: spec_fn(T, T) -> bool|
                    #[trigger] comparator_leq(compare, leq) implies ((forall|a: int, b: int|
                    0 <= a < b < i + 1 ==> leq(self@[a], self@[b])) && (forall|a: int, b: int|
                    0 <= a < i + 1 <= b < n ==> leq(self@[a], self@[b]))) by {
                    assert forall|a: int, b: int|
                        0 <= a < i + 1 <= b < n implies leq(self@[a], self@[b]) by {
                        if a < i {
                            assert(leq(before@[a], before@[b]) || b == m as int || b
                                == i as int);
                            assert(leq(before@[a], before@[i as int]));
                            assert(leq(before@[a], before@[m as int]));
                        } else {
                            // a == i holds the chosen least element of the suffix
                            if b == m as int {
                                assert(leq(before@[m as int], before@[i as int]) || i
                                    == m as int);
                            } else {
                                assert(leq(before@[m as int], before@[b]));
                            }
                        }
                    }
                }
            }
            i = i + 1;
        }
        proof {
            assert forall|leq: spec_fn(T, T) -> bool|
                #[trigger] comparator_leq(compare, leq) implies sorted_by(self@, leq) by {
                assert forall|a: int, b: int| 0 <= a < b < self@.len() implies leq(
                    self@[a],
                    self@[b],
                ) by {}
            }
        }
    }
}

} // verus!
