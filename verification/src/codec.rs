use vstd::prelude::*;

use crate::arena::Arena;
use crate::arena::Slot;
use crate::arena::State;
use crate::arena::fresh_discriminator;
use crate::arena::lemma_handle;
use crate::arena::lemma_model;
use crate::arena::swap_in_vec;
use crate::handle::ArenaId;
use crate::sort::lemma_swap_multiset;

verus! {

/// One record of the arena's persisted form: the generation tag and slot
/// index of a live ID, together with its value.  Free slots are not
/// persisted; the running counter and the list of records for the occupied
/// slots describe the arena completely.
#[derive(Clone, Debug, PartialEq, Eq)]
pub struct Entry<T> {
    pub uid: u64,
    pub idx: usize,
    pub val: T,
}

/// A well-formed persisted image: no two records claim the same slot, and
/// every stamped tag is below the running counter it is persisted with.
pub open spec fn valid_encoding<T>(counter: u64, entries: Seq<Entry<T>>) -> bool {
    &&& forall|k1: int, k2: int|
        0 <= k1 < k2 < entries.len() ==> (#[trigger] entries[k1]).idx != (
        #[trigger] entries[k2]).idx
    &&& forall|k: int| 0 <= k < entries.len() ==> (#[trigger] entries[k]).uid < counter
}

impl<T: Clone> Arena<T> {
    /// Encodes the arena into its persisted form: the running generation
    /// counter and one record per live position, in position order.
    pub fn to_entries(&self) -> (r: (u64, Vec<Entry<T>>))
        requires
            self.wf(),
        ensures
            r.0 == self.spec_counter(),
            r.1@.len() == self@.len(),
            forall|p: int|
                0 <= p < self@.len() ==> ({
                    &&& Some(self.handle_for((#[trigger] r.1@[p]).uid, r.1@[p].idx))
                        == self.spec_id_at(p)
                    &&& cloned::<T>(self@[p], r.1@[p].val)
                }),
            valid_encoding(r.0, r.1@),
    {
        let n = self.len();
        let mut entries: Vec<Entry<T>> = Vec::new();
        let mut p: usize = 0;
        while p < n
            invariant
                self.wf(),
                n == self@.len(),
                p <= n,
                entries@.len() == p,
                forall|k: int|
                    0 <= k < p ==> ({
                        &&& Some(self.handle_for((#[trigger] entries@[k]).uid, entries@[k].idx))
                            == self.spec_id_at(k)
                        &&& cloned::<T>(self@[k], entries@[k].val)
                        &&& entries@[k].idx == self.slots@[k].value_slot
                        &&& (self.slots@[entries@[k].idx as int].state matches State::Used {
                            uid,
                            value,
                        } && value == k && uid < self.spec_counter())
                    }),
            decreases n - p,
        {
            let id = match self.id_at(p) {
                Some(h) => h,
                None => unreached(),
            };
            let v = self.as_slice()[p].clone();
            proof {
                lemma_model(*self);
                lemma_handle(id);
                assert(self.backref_ok(p as int));
                assert(self.slot_ok(id.idx as int));
            }
            entries.push(Entry { uid: id.uid, idx: id.idx, val: v });
            p = p + 1;
        }
        proof {
            lemma_model(*self);
            assert forall|k1: int, k2: int|
                0 <= k1 < k2 < entries@.len() implies (#[trigger] entries@[k1]).idx != (
            #[trigger] entries@[k2]).idx by {
                assert(self.slots@[entries@[k1].idx as int].state->value == k1);
                assert(self.slots@[entries@[k2].idx as int].state->value == k2);
            }
        }
        (self.counter_value(), entries)
    }
}

/// Link `k` of a free chain threaded through a slot table under
/// construction: a free slot in range, linking to the next chain entry, or
/// ending the list after the last entry.
spec fn links_ok(slots: Seq<Slot>, chain: Seq<int>, k: int) -> bool {
    &&& 0 <= chain[k] < slots.len()
    &&& slots[chain[k]].state matches State::Free { next_free } && next_free == (if k + 1
        < chain.len() {
        Some(chain[k + 1] as usize)
    } else {
        None::<usize>
    })
}

/// A well-formed free list for a slot table under construction.
spec fn free_part_ok(slots: Seq<Slot>, chain: Seq<int>, first_free: Option<usize>) -> bool {
    &&& chain.no_duplicates()
    &&& (if chain.len() == 0 {
        first_free is None
    } else {
        first_free matches Some(h) && h as int == chain[0]
    })
    &&& forall|k: int| 0 <= k < chain.len() ==> #[trigger] links_ok(slots, chain, k)
    &&& forall|s: int|
        0 <= s < slots.len() && (#[trigger] slots[s].state) is Free ==> chain.contains(s)
}

/// An element of one sequence is an element of any rearrangement of it.
proof fn lemma_contains_permuted<A>(s: Seq<A>, t: Seq<A>, x: A)
    requires
        s.to_multiset() == t.to_multiset(),
        s.contains(x),
    ensures
        t.contains(x),
{
    broadcast use vstd::multiset::group_multiset_axioms;
    broadcast use vstd::seq_lib::group_to_multiset_ensures;

    assert(s.to_multiset().count(x) > 0);
}

/// A value sitting at two positions occurs at least twice in the multiset.
proof fn lemma_count_two<A>(s: Seq<A>, k1: int, k2: int)
    requires
        0 <= k1 < k2 < s.len(),
        s[k1] == s[k2],
    ensures
        s.to_multiset().count(s[k1]) >= 2,
{
    broadcast use vstd::multiset::group_multiset_axioms;
    broadcast use vstd::seq_lib::group_to_multiset_ensures;

    let r = s.remove(k1);
    assert(r.to_multiset() == s.to_multiset().remove(s[k1]));
    assert(r[k2 - 1] == s[k2]);
    assert(r.contains(s[k1]));
    assert(r.to_multiset().count(s[k1]) > 0);
}

/// A value occurring at least twice in the multiset sits at two positions.
proof fn lemma_two_positions<A>(s: Seq<A>, x: A)
    requires
        s.to_multiset().count(x) >= 2,
    ensures
        exists|k1: int, k2: int| 0 <= k1 < k2 < s.len() && s[k1] == x && s[k2] == x,
{
    broadcast use vstd::multiset::group_multiset_axioms;
    broadcast use vstd::seq_lib::group_to_multiset_ensures;

    assert(s.to_multiset().count(x) > 0);
    assert(s.contains(x));
    let k1 = choose|k: int| 0 <= k < s.len() && s[k] == x;
    let r = s.remove(k1);
    assert(r.to_multiset() == s.to_multiset().remove(x));
    assert(r.to_multiset().count(x) > 0);
    assert(r.contains(x));
    let j = choose|j: int| 0 <= j < r.len() && r[j] == x;
    if j < k1 {
        assert(s[j] == x && s[k1] == x);
        assert(0 <= j < k1 < s.len() && s[j] == x && s[k1] == x);
    } else {
        assert(s[j + 1] == x);
        assert(0 <= k1 < j + 1 < s.len() && s[k1] == x && s[j + 1] == x);
    }
}

/// Slot-index distinctness survives rearrangement.
proof fn lemma_distinct_idx_permuted<T>(s: Seq<Entry<T>>, t: Seq<Entry<T>>)
    requires
        s.to_multiset() == t.to_multiset(),
        forall|k1: int, k2: int|
            0 <= k1 < k2 < s.len() ==> (#[trigger] s[k1]).idx != (#[trigger] s[k2]).idx,
    ensures
        forall|k1: int, k2: int|
            0 <= k1 < k2 < t.len() ==> (#[trigger] t[k1]).idx != (#[trigger] t[k2]).idx,
{
    broadcast use vstd::multiset::group_multiset_axioms;
    broadcast use vstd::seq_lib::group_to_multiset_ensures;

    assert forall|k1: int, k2: int|
        0 <= k1 < k2 < t.len() implies (#[trigger] t[k1]).idx != (#[trigger] t[k2]).idx by {
        if t[k1].idx == t[k2].idx {
            if t[k1] == t[k2] {
                lemma_count_two(t, k1, k2);
                lemma_two_positions(s, t[k1]);
                let (j1, j2) = choose|j1: int, j2: int|
                    0 <= j1 < j2 < s.len() && s[j1] == t[k1] && s[j2] == t[k1];
                assert(s[j1].idx != s[j2].idx);
                assert(false);
            } else {
                lemma_contains_permuted(t, s, t[k1]);
                lemma_contains_permuted(t, s, t[k2]);
                let j1 = choose|j: int| 0 <= j < s.len() && s[j] == t[k1];
                let j2 = choose|j: int| 0 <= j < s.len() && s[j] == t[k2];
                assert(j1 != j2);
                assert(s[j1].idx != s[j2].idx);
                assert(false);
            }
        }
    }
}

/// In a strictly idx-sorted record list, the `p`th slot index is at least
/// `p`: there is room for one slot per record.
proof fn lemma_idx_lower_bound<T>(se: Seq<Entry<T>>, p: int)
    requires
        forall|a: int, b: int|
            0 <= a < b < se.len() ==> (#[trigger] se[a]).idx < (#[trigger] se[b]).idx,
        0 <= p < se.len(),
    ensures
        se[p].idx >= p,
    decreases p,
{
    if p > 0 {
        lemma_idx_lower_bound(se, p - 1);
        assert(se[p - 1].idx < se[p].idx);
    }
}

/// Sorts the records by slot index (not necessarily strictly: duplicates,
/// if any, end up adjacent), preserving them as a multiset.
fn sort_entries<T>(entries: &mut Vec<Entry<T>>)
    ensures
        final(entries)@.len() == old(entries)@.len(),
        final(entries)@.to_multiset() == old(entries)@.to_multiset(),
        forall|a: int, b: int|
            0 <= a < b < final(entries)@.len() ==> (#[trigger] final(entries)@[a]).idx <= (
            #[trigger] final(entries)@[b]).idx,
{
    let n = entries.len();
    let mut i: usize = 0;
    while i < n
        invariant
            n == entries@.len(),
            entries@.len() == old(entries)@.len(),
            i <= n,
            entries@.to_multiset() == old(entries)@.to_multiset(),
            forall|a: int, b: int|
                0 <= a < b < i ==> (#[trigger] entries@[a]).idx <= (#[trigger] entries@[b]).idx,
            forall|a: int, b: int|
                0 <= a < i <= b < n ==> (#[trigger] entries@[a]).idx <= (
                #[trigger] entries@[b]).idx,
        decreases n - i,
    {
        let mut m: usize = i;
        let mut k: usize = i + 1;
        while k < n
            invariant
                n == entries@.len(),
                i <= m < k <= n,
                i < n,
                forall|t: int| i <= t < k ==> (#[trigger] entries@[m as int]).idx <= entries@[t].idx,
            decreases n - k,
        {
            if entries[k].idx < entries[m].idx {
                m = k;
            }
            k = k + 1;
        }
        let ghost before = entries@;
        swap_in_vec(entries, i, m);
        proof {
            lemma_swap_multiset(before, i as int, m as int);
        }
        i = i + 1;
    }
}

impl<T> Arena<T> {
    /// The running generation counter's current value.
    pub fn counter_value(&self) -> (r: u64)
        ensures
            r == self.spec_counter(),
    {
        proof {
            lemma_model(*self);
        }
        self.next_uid
    }

    /// Decodes a persisted image back into an arena, as a fresh instance
    /// (with its own discriminator).  Records are laid out in slot-index
    /// order; gaps between the claimed slot indices become free slots
    /// threaded onto the free list; the dual mapping is rebuilt from
    /// scratch.  Every live ID's generation tag and value survive the round
    /// trip.  An image that claims one slot twice, or carries a tag at or
    /// above its own counter, is rejected.
    #[verifier::rlimit(100)]
    #[verifier::spinoff_prover]
    pub fn from_entries(counter: u64, entries: Vec<Entry<T>>) -> (r: Option<Arena<T>>)
        ensures
            r is Some <==> valid_encoding(counter, entries@),
            r matches Some(a) ==> ({
                &&& a.wf()
                &&& a.spec_counter() == counter
                &&& a@.len() == entries@.len()
                &&& forall|e: Entry<T>|
                    #[trigger] entries@.contains(e) ==> a.spec_get(a.handle_for(e.uid, e.idx))
                        == Some(e.val)
                &&& exists|se: Seq<Entry<T>>|
                    #![trigger se.to_multiset()]
                    {
                        &&& se.to_multiset() == entries@.to_multiset()
                        &&& se.len() == entries@.len()
                        &&& (forall|p1: int, p2: int|
                            0 <= p1 < p2 < se.len() ==> (#[trigger] se[p1]).idx < (
                            #[trigger] se[p2]).idx)
                        &&& (forall|p: int|
                            0 <= p < se.len() ==> #[trigger] a.spec_id_at(p) == Some(
                                a.handle_for(se[p].uid, se[p].idx),
                            ) && a@[p] == se[p].val)
                    }
            }),
    {
        let n = entries.len();
        // reject an image that reuses a slot or spends a tag the counter
        // has not reached
        let mut k: usize = 0;
        while k < n
            invariant
                n == entries@.len(),
                k <= n,
                forall|k1: int| 0 <= k1 < k ==> (#[trigger] entries@[k1]).uid < counter,
                forall|k1: int, k2: int|
                    0 <= k1 < k && k1 < k2 < n ==> (#[trigger] entries@[k1]).idx != (
                    #[trigger] entries@[k2]).idx,
            decreases n - k,
        {
            if entries[k].uid >= counter {
                return None;
            }
            let mut k2: usize = k + 1;
            while k2 < n
                invariant
                    n == entries@.len(),
                    k < n,
                    k + 1 <= k2 <= n,
                    forall|j: int|
                        k < j < k2 ==> (#[trigger] entries@[j]).idx != entries@[k as int].idx,
                decreases n - k2,
            {
                if entries[k2].idx == entries[k].idx {
                    return None;
                }
                k2 = k2 + 1;
            }
            k = k + 1;
        }
        proof {
            assert(valid_encoding(counter, entries@));
        }
        let ghost orig = entries@;
        let mut entries = entries;
        sort_entries(&mut entries);
        let ghost se = entries@;
        proof {
            lemma_distinct_idx_permuted(orig, se);
            assert forall|p: int| 0 <= p < se.len() implies (#[trigger] se[p]).uid < counter by {
                lemma_contains_permuted(se, orig, se[p]);
                let j = choose|j: int| 0 <= j < orig.len() && orig[j] == se[p];
            }
            assert forall|p1: int, p2: int|
                0 <= p1 < p2 < se.len() implies (#[trigger] se[p1]).idx < (
            #[trigger] se[p2]).idx by {}
        }
        // lay the slots out in slot-index order, threading each gap onto
        // the free list
        let mut slots: Vec<Slot> = Vec::new();
        let mut first_free: Option<usize> = None;
        let ghost mut chain: Seq<int> = Seq::empty();
        let mut k: usize = 0;
        while k < n
            invariant
                n == entries@.len(),
                entries@ == se,
                k <= n,
                forall|p1: int, p2: int|
                    0 <= p1 < p2 < se.len() ==> (#[trigger] se[p1]).idx < (#[trigger] se[p2]).idx,
                forall|p: int| 0 <= p < se.len() ==> (#[trigger] se[p]).uid < counter,
                slots@.len() == (if k == 0 {
                    0int
                } else {
                    se[k - 1].idx + 1
                }),
                forall|q: int|
                    0 <= q < k ==> slots@[(#[trigger] se[q]).idx as int].state == (State::Used {
                        uid: se[q].uid,
                        value: q as usize,
                    }),
                forall|s: int|
                    0 <= s < slots@.len() && (#[trigger] slots@[s].state) is Used ==> (exists|
                        q: int,
                    |
                        0 <= q < k && (#[trigger] se[q]).idx == s),
                chain.len() + k == slots@.len(),
                free_part_ok(slots@, chain, first_free),
            decreases n - k,
        {
            let target = entries[k].idx;
            proof {
                if k > 0 {
                    assert(se[k - 1].idx < se[k as int].idx);
                }
            }
            while slots.len() < target
                invariant
                    k < n,
                    n == entries@.len(),
                    entries@ == se,
                    target == se[k as int].idx,
                    slots@.len() <= target,
                    forall|q: int| 0 <= q < k ==> (#[trigger] se[q]).idx < slots@.len(),
                    forall|q: int|
                        0 <= q < k ==> slots@[(#[trigger] se[q]).idx as int].state == (
                        State::Used { uid: se[q].uid, value: q as usize }),
                    forall|p1: int, p2: int|
                        0 <= p1 < p2 < se.len() ==> (#[trigger] se[p1]).idx < (
                        #[trigger] se[p2]).idx,
                    forall|s: int|
                        0 <= s < slots@.len() && (#[trigger] slots@[s].state) is Used ==> (exists|
                            q: int,
                        |
                            0 <= q < k && (#[trigger] se[q]).idx == s),
                    chain.len() + k == slots@.len(),
                    free_part_ok(slots@, chain, first_free),
                decreases target - slots.len(),
            {
                let idx_new = slots.len();
                let ghost pre_slots = slots@;
                let ghost pre_chain = chain;
                slots.push(Slot { value_slot: 0, state: State::Free { next_free: first_free } });
                first_free = Some(idx_new);
                proof {
                    chain = seq![idx_new as int] + pre_chain;
                    assert forall|c: int| 0 <= c < chain.len() implies #[trigger] links_ok(
                        slots@,
                        chain,
                        c,
                    ) by {
                        if c == 0 {
                            if pre_chain.len() > 0 {
                                assert(links_ok(pre_slots, pre_chain, 0));
                                assert(chain[1] == pre_chain[0]);
                            }
                        } else {
                            assert(links_ok(pre_slots, pre_chain, c - 1));
                            assert(chain[c] == pre_chain[c - 1]);
                            if c + 1 < chain.len() {
                                assert(chain[c + 1] == pre_chain[c]);
                            }
                        }
                    }
                    assert forall|a: int, b: int|
                        0 <= a < b < chain.len() implies chain[a] != chain[b] by {
                        if a > 0 {
                            assert(chain[a] == pre_chain[a - 1]);
                        }
                        assert(chain[b] == pre_chain[b - 1]);
                        if a == 0 {
                            assert(links_ok(pre_slots, pre_chain, b - 1));
                        }
                    }
                    assert(chain.no_duplicates());
                    assert forall|s: int|
                        0 <= s < slots@.len() && (#[trigger] slots@[s].state)
                            is Free implies chain.contains(s) by {
                        if s < pre_slots.len() {
                            assert(pre_chain.contains(s));
                            let c = choose|c: int|
                                0 <= c < pre_chain.len() && pre_chain[c] == s;
                            assert(chain[c + 1] == s);
                        } else {
                            assert(chain[0] == s);
                        }
                    }
                }
            }
            let ghost pre_build = slots@;
            slots.push(Slot { value_slot: 0, state: State::Used { uid: entries[k].uid, value: k } });
            proof {
                let pre = pre_build;
                assert forall|c: int| 0 <= c < chain.len() implies #[trigger] links_ok(
                    slots@,
                    chain,
                    c,
                ) by {
                    assert(links_ok(pre, chain, c));
                }
                assert forall|s: int|
                    0 <= s < slots@.len() && (#[trigger] slots@[s].state)
                        is Free implies chain.contains(s) by {
                    assert(s < pre.len());
                    assert(pre[s].state is Free);
                }
                assert forall|q: int|
                    0 <= q < k + 1 implies slots@[(#[trigger] se[q]).idx as int].state == (
                State::Used { uid: se[q].uid, value: q as usize }) by {
                    if q < k {
                        assert(se[q].idx < se[k as int].idx);
                        assert(slots@[se[q].idx as int] == pre[se[q].idx as int]);
                    }
                }
            }
            k = k + 1;
        }
        proof {
            if n > 0 {
                lemma_idx_lower_bound(se, n - 1);
            }
        }
        // record the back-pointers: position p is owned by slot se[p].idx
        let ghost built = slots@;
        let mut p: usize = 0;
        while p < n
            invariant
                p <= n,
                n == entries@.len(),
                entries@ == se,
                n <= slots@.len(),
                slots@.len() == built.len(),
                forall|s: int| 0 <= s < slots@.len() ==> (#[trigger] slots@[s]).state
                    == built[s].state,
                forall|q: int| 0 <= q < p ==> (#[trigger] slots@[q]).value_slot == se[q].idx,
                forall|q: int|
                    0 <= q < n ==> built[(#[trigger] se[q]).idx as int].state == (State::Used {
                        uid: se[q].uid,
                        value: q as usize,
                    }),
                forall|s: int|
                    0 <= s < built.len() && (#[trigger] built[s].state) is Used ==> (exists|q: int|
                        0 <= q < n && (#[trigger] se[q]).idx == s),
                chain.len() + n == built.len(),
                free_part_ok(built, chain, first_free),
            decreases n - p,
        {
            let cur = slots[p];
            let idxp = entries[p].idx;
            slots.set(p, Slot { value_slot: idxp, state: cur.state });
            p = p + 1;
        }
        // collect the values, in position order
        proof {
            assert(entries@ =~= se.subrange(0, n as int));
        }
        let mut values: Vec<T> = Vec::new();
        while values.len() < n
            invariant
                se.len() == n,
                values@.len() <= n,
                values@.len() + entries@.len() == n,
                entries@ == se.subrange(values@.len() as int, n as int),
                forall|q: int| 0 <= q < values@.len() ==> #[trigger] values@[q] == se[q].val,
            decreases n - values.len(),
        {
            let ghost pre_entries = entries@;
            let ghost v = values@.len() as int;
            let e = entries.remove(0);
            proof {
                assert(0 <= v < n);
                assert(se.len() == n);
                assert(pre_entries == se.subrange(v, n as int));
                pre_entries.remove_ensures(0);
                assert(e == pre_entries[0]);
                assert(se.subrange(v, n as int)[0] == se[v]);
                assert(e == se[v]);
                assert(entries@ == pre_entries.remove(0));
                assert forall|q: int|
                    0 <= q < entries@.len() implies #[trigger] entries@[q] == se[v + 1 + q] by {
                    assert(entries@[q] == pre_entries[q + 1]);
                    assert(pre_entries[q + 1] == se.subrange(v, n as int)[q + 1]);
                }
                assert(entries@ =~= se.subrange(v + 1, n as int));
            }
            values.push(e.val);
        }
        let a = Arena {
            values,
            slots,
            next_uid: counter,
            first_free,
            disc: fresh_discriminator(),
            free_chain: Ghost(chain),
        };
        proof {
            lemma_model(a);
            assert forall|q: int| 0 <= q < n implies a.backref_ok(q) by {
                assert(a.slots@[q].value_slot == se[q].idx);
                assert(built[se[q].idx as int].state == (State::Used {
                    uid: se[q].uid,
                    value: q as usize,
                }));
                assert(a.slots@[se[q].idx as int].state == built[se[q].idx as int].state);
            }
            assert forall|s: int| 0 <= s < a.slots@.len() implies a.slot_ok(s) by {
                if a.slots@[s].state is Used {
                    assert(built[s].state is Used);
                    let q = choose|q: int| 0 <= q < n && se[q].idx == s;
                    assert(built[se[q].idx as int].state == (State::Used {
                        uid: se[q].uid,
                        value: q as usize,
                    }));
                    assert(a.slots@[q].value_slot == se[q].idx);
                    assert(se[q].uid < counter);
                }
            }
            assert forall|c: int| 0 <= c < a.free_chain@.len() implies #[trigger] a.chain_ok(
                c,
            ) by {
                assert(links_ok(built, chain, c));
                assert(a.slots@[chain[c]].state == built[chain[c]].state);
            }
            assert forall|s: int|
                0 <= s < a.slots@.len() && (#[trigger] a.slots@[s].state)
                    is Free implies a.free_chain@.contains(s) by {
                assert(built[s].state is Free);
            }
            assert(a.inv());
            assert forall|p0: int| 0 <= p0 < se.len() implies #[trigger] a.spec_id_at(p0) == Some(
                a.handle_for(se[p0].uid, se[p0].idx),
            ) && a@[p0] == se[p0].val by {
                assert(a.backref_ok(p0));
                assert(a.slots@[p0].value_slot == se[p0].idx);
                assert(a.owner_at(p0) == Some(ArenaId {
                    disc: a.disc,
                    uid: se[p0].uid,
                    idx: se[p0].idx,
                }));
            }
            assert forall|e: Entry<T>| #[trigger] orig.contains(e) implies a.spec_get(
                a.handle_for(e.uid, e.idx),
            ) == Some(e.val) by {
                lemma_contains_permuted(orig, se, e);
                let q = choose|q: int| 0 <= q < se.len() && se[q] == e;
                assert(a.backref_ok(q));
                assert(a.lookup(ArenaId { disc: a.disc, uid: e.uid, idx: e.idx }) == Some(q));
            }
        }
        Some(a)
    }
}

} // verus!
