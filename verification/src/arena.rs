use vstd::prelude::*;

use crate::handle::ArenaId;

verus! {

/// One entry of the slot table.
///
/// An entry carries two independent pieces of information:
///
/// * `state`, keyed by *slot index*: whether this slot currently maps an ID
///   to a position (`Used`, with the generation tag stamped at allocation
///   and the forward pointer to the owned position), or sits on the free
///   list (`Free`, with the link to the next free slot).
/// * `value_slot`, keyed by *position*: for every live position `p`,
///   `slots[p].value_slot` is the index of the slot that owns the value at
///   `p` (the back-pointer).  It is meaningful only for `p` below the live
///   count, which is always at most the slot count.
#[derive(Clone, Copy)]
pub(crate) struct Slot {
    pub(crate) value_slot: usize,
    pub(crate) state: State,
}

#[derive(Clone, Copy)]
pub(crate) enum State {
    Used { uid: u64, value: usize },
    Free { next_free: Option<usize> },
}

/// A contiguous growable container which assigns and returns IDs to values
/// when they are added to it.
///
/// Values are kept densely packed in `values`.  The slot table translates
/// a stable ID into the value's current position and back; `next_uid` is
/// the running generation counter (strictly increasing, never reused) and
/// `first_free` heads the singly linked list of free slots threaded through
/// the slot table itself.  Every arena instance is stamped with a random
/// discriminator so that IDs minted by another instance are rejected.
#[derive(Clone)]
pub struct Arena<T> {
    pub(crate) values: Vec<T>,
    pub(crate) slots: Vec<Slot>,
    pub(crate) next_uid: u64,
    pub(crate) first_free: Option<usize>,
    pub(crate) disc: u128,
    /// The indices of the free slots, in the order the free list links them.
    pub(crate) free_chain: Ghost<Seq<int>>,
}

/// Relies on `uuid::Uuid::new_v4` (via `Uuid::as_u128`): a freshly
/// generated, random 128-bit identifier.  Nothing can be promised of a
/// random value, so this has no `ensures`.
#[verifier::external_body]
pub(crate) fn fresh_discriminator() -> u128 {
    uuid::Uuid::new_v4().as_u128()
}

impl ArenaId {
    /// The discriminator of the arena instance that issued this ID.
    pub closed spec fn instance(self) -> u128 {
        self.disc
    }

    /// The generation tag stamped into the slot when this ID was issued.
    pub closed spec fn gen_tag(self) -> u64 {
        self.uid
    }

    /// The index of the slot this ID refers to.
    pub closed spec fn slot_index(self) -> usize {
        self.idx
    }
}

/// Bridge between the public (`closed`) ID accessors and the ID's fields,
/// for the proofs that live outside this module.
pub(crate) proof fn lemma_handle(id: ArenaId)
    ensures
        id.instance() == id.disc,
        id.gen_tag() == id.uid,
        id.slot_index() == id.idx,
{
}

impl<T> View for Arena<T> {
    type V = Seq<T>;

    /// The mathematical model of the arena's value store: the sequence of
    /// live values in position order.
    closed spec fn view(&self) -> Seq<T> {
        self.values@
    }
}

impl<T> Arena<T> {
    /// The back-pointer of position `p` is in range and points to an
    /// occupied slot whose forward pointer returns to `p`.
    pub(crate) open spec fn backref_ok(self, p: int) -> bool {
        let s = self.slots@[p].value_slot;
        &&& (s as int) < self.slots@.len()
        &&& self.slots@[s as int].state matches State::Used { value, .. } && value == p
    }

    /// Back-pointers of live positions are in range and point to occupied
    /// slots whose forward pointer returns to the same position.
    pub(crate) open spec fn wf_positions(self) -> bool {
        forall|p: int| 0 <= p < self.values@.len() ==> #[trigger] self.backref_ok(p)
    }

    /// If slot `s` is occupied, its forward pointer is a live position
    /// whose back-pointer returns to `s`, and its stamped generation tag is
    /// below the running counter.
    pub(crate) open spec fn slot_ok(self, s: int) -> bool {
        self.slots@[s].state matches State::Used { uid, value } ==> {
            &&& (value as int) < self.values@.len()
            &&& self.slots@[value as int].value_slot == s
            &&& uid < self.next_uid
        }
    }

    /// Forward pointers of occupied slots are live positions whose
    /// back-pointer returns to the same slot, and every stamped generation
    /// tag is below the running counter.
    pub(crate) open spec fn wf_slots(self) -> bool {
        forall|s: int| 0 <= s < self.slots@.len() ==> #[trigger] self.slot_ok(s)
    }

    /// Link `k` of the free chain: a free slot in range, linking to the
    /// next chain entry, or ending the list after the last entry.
    pub(crate) open spec fn chain_ok(self, k: int) -> bool {
        let fl = self.free_chain@;
        &&& 0 <= fl[k] < self.slots@.len()
        &&& self.slots@[fl[k]].state matches State::Free { next_free } && next_free == (if k + 1
            < fl.len() {
            Some(fl[k + 1] as usize)
        } else {
            None::<usize>
        })
    }

    /// The ghost `free_chain` lists exactly the free slots, without
    /// repetition, in the order the links thread them, starting at
    /// `first_free`; the number of free slots is the difference between
    /// slot count and live count.
    pub(crate) open spec fn wf_free(self) -> bool {
        let fl = self.free_chain@;
        &&& fl.no_duplicates()
        &&& fl.len() + self.values@.len() == self.slots@.len()
        &&& if fl.len() == 0 {
            self.first_free is None
        } else {
            self.first_free matches Some(h) && h as int == fl[0]
        }
        &&& forall|k: int| 0 <= k < fl.len() ==> #[trigger] self.chain_ok(k)
        &&& forall|s: int|
            0 <= s < self.slots@.len() && (#[trigger] self.slots@[s].state) is Free
                ==> fl.contains(s)
    }

    pub(crate) open spec fn inv(self) -> bool {
        &&& self.values@.len() <= self.slots@.len()
        &&& self.wf_positions()
        &&& self.wf_slots()
        &&& self.wf_free()
    }

    /// Well-formedness of the dual mapping: every constructor establishes
    /// it and every operation preserves it.
    pub closed spec fn wf(self) -> bool {
        self.inv()
    }

    /// The running generation counter: every tag ever stamped is below it.
    pub closed spec fn spec_counter(self) -> u64 {
        self.next_uid
    }

    /// The instance discriminator stamped into every ID this arena issues.
    pub closed spec fn spec_instance(self) -> u128 {
        self.disc
    }

    /// How many slots the arena is using to map IDs (occupied plus free).
    pub closed spec fn spec_slot_count(self) -> nat {
        self.slots@.len()
    }

    /// The ID made of the given generation tag and slot index, stamped with
    /// this arena's discriminator.
    pub closed spec fn handle_for(self, tag: u64, slot: usize) -> ArenaId {
        ArenaId { disc: self.disc, uid: tag, idx: slot }
    }

    /// The position the ID currently resolves to: its slot must exist, be
    /// occupied, and carry the ID's own generation tag, and the ID must
    /// have been minted by this very instance.
    pub(crate) open spec fn lookup(self, id: ArenaId) -> Option<int> {
        if id.disc == self.disc && (id.idx as int) < self.slots@.len() {
            match self.slots@[id.idx as int].state {
                State::Used { uid, value } => if uid == id.uid {
                    Some(value as int)
                } else {
                    None
                },
                State::Free { .. } => None,
            }
        } else {
            None
        }
    }

    /// The position of the value the ID resolves to, if the ID is live.
    pub closed spec fn spec_index_of(self, id: ArenaId) -> Option<int> {
        self.lookup(id)
    }

    /// The value the ID resolves to, if the ID is live.
    pub closed spec fn spec_get(self, id: ArenaId) -> Option<T> {
        match self.lookup(id) {
            Some(p) => Some(self.values@[p]),
            None => None,
        }
    }

    /// Whether the ID currently resolves to a live value.
    pub open spec fn spec_contains(self, id: ArenaId) -> bool {
        self.spec_get(id) is Some
    }

    /// The ID owning the given position, if the position is live.
    pub(crate) open spec fn owner_at(self, p: int) -> Option<ArenaId> {
        if 0 <= p < self.values@.len() {
            let s = self.slots@[p].value_slot;
            Some(ArenaId { disc: self.disc, uid: self.slots@[s as int].state->uid, idx: s })
        } else {
            None
        }
    }

    /// The ID currently owning the value at the given position, or `None`
    /// if the position is not live.
    pub closed spec fn spec_id_at(self, p: int) -> Option<ArenaId> {
        self.owner_at(p)
    }

    /// A retired ID: one whose tag has already been spent (it is below the
    /// running counter) and which resolves to nothing.  Every operation
    /// keeps retired IDs retired: that is what makes a removed ID fail
    /// safely forever, even when its slot index is reused.
    pub open spec fn spec_retired(self, id: ArenaId) -> bool {
        &&& id.gen_tag() < self.spec_counter()
        &&& self.spec_get(id) is None
    }
}

impl<T> Default for Arena<T> {
    /// An empty arena, as by [`Arena::new`].
    fn default() -> (r: Self)
        ensures
            r.wf(),
            r@.len() == 0,
            r.spec_slot_count() == 0,
            r.spec_counter() == 1,
    {
        Arena::new()
    }
}

/// Bridge between the public (`closed`) model functions and their
/// crate-internal definitions, for the proofs that live outside this
/// module.
pub(crate) proof fn lemma_model<T>(a: Arena<T>)
    ensures
        a.wf() <==> a.inv(),
        a@ == a.values@,
        a.spec_counter() == a.next_uid,
        a.spec_instance() == a.disc,
        a.spec_slot_count() == a.slots@.len(),
        forall|id: ArenaId| #[trigger] a.spec_index_of(id) == a.lookup(id),
        forall|id: ArenaId|
            #[trigger] a.spec_get(id) == match a.lookup(id) {
                Some(p) => Some(a.values@[p]),
                None => None::<T>,
            },
        forall|p: int| #[trigger] a.spec_id_at(p) == a.owner_at(p),
        forall|tag: u64, slot: usize|
            #[trigger] a.handle_for(tag, slot) == (ArenaId { disc: a.disc, uid: tag, idx: slot }),
{
}

impl<T> Arena<T> {
    /// Constructs a new, empty arena.
    pub fn new() -> (r: Self)
        ensures
            r.wf(),
            r@.len() == 0,
            r.spec_slot_count() == 0,
            r.spec_counter() == 1,
            forall|id: ArenaId| #[trigger] r.spec_get(id) is None,
    {
        Arena {
            values: Vec::new(),
            slots: Vec::new(),
            next_uid: 1,
            first_free: None,
            disc: fresh_discriminator(),
            free_chain: Ghost(Seq::empty()),
        }
    }

    /// Constructs a new, empty arena with at least the given capacity
    /// reserved for both the value store and the slot table.
    pub fn with_capacity(capacity: usize) -> (r: Self)
        ensures
            r.wf(),
            r@.len() == 0,
            r.spec_slot_count() == 0,
            r.spec_counter() == 1,
            forall|id: ArenaId| #[trigger] r.spec_get(id) is None,
    {
        Arena {
            values: Vec::with_capacity(capacity),
            slots: Vec::with_capacity(capacity),
            next_uid: 1,
            first_free: None,
            disc: fresh_discriminator(),
            free_chain: Ghost(Seq::empty()),
        }
    }

    /// The number of live values in the arena.
    pub fn len(&self) -> (r: usize)
        ensures
            r == self@.len(),
    {
        self.values.len()
    }

    /// Returns `true` if the arena contains no values.
    pub fn is_empty(&self) -> (r: bool)
        ensures
            r == (self@.len() == 0),
    {
        self.values.is_empty()
    }

    /// The number of slots the arena is using to map IDs.
    pub fn slot_count(&self) -> (r: usize)
        ensures
            r == self.spec_slot_count(),
    {
        self.slots.len()
    }

    /// The number of free slots.  Values added to the arena reuse these
    /// slots before any new slot is created.
    pub fn free_slot_count(&self) -> (r: usize)
        requires
            self.wf(),
        ensures
            r == self.spec_slot_count() - self@.len(),
    {
        self.slots.len() - self.values.len()
    }

    /// Extracts a slice containing all the arena's values, in position
    /// order.
    pub fn as_slice(&self) -> (r: &[T])
        ensures
            r@ == self@,
    {
        self.values.as_slice()
    }

    /// Returns `true` if the ID was minted by this arena instance (whether
    /// or not it still resolves to a value).
    pub fn match_id(&self, id: &ArenaId) -> (r: bool)
        ensures
            r == (id.instance() == self.spec_instance()),
    {
        id.disc == self.disc
    }

    /// Returns a reference to the value assigned to the ID, or `None` if
    /// the ID does not resolve: wrong instance, slot out of range or free,
    /// or generation tag already retired.
    pub fn get(&self, id: ArenaId) -> (r: Option<&T>)
        requires
            self.wf(),
        ensures
            match r {
                Some(v) => self.spec_get(id) == Some(*v),
                None => self.spec_get(id) is None,
            },
    {
        if id.disc != self.disc {
            return None;
        }
        if id.idx >= self.slots.len() {
            return None;
        }
        match &self.slots[id.idx].state {
            State::Used { uid, value } => {
                if *uid == id.uid {
                    proof {
                        assert(self.slot_ok(id.idx as int));
                    }
                    Some(&self.values[*value])
                } else {
                    None
                }
            },
            State::Free { .. } => None,
        }
    }

    /// Returns `true` if the arena contains a value assigned to the ID.
    pub fn contains(&self, id: ArenaId) -> (r: bool)
        requires
            self.wf(),
        ensures
            r == self.spec_contains(id),
    {
        if !self.match_id(&id) {
            return false;
        }
        self.get(id).is_some()
    }

    /// Returns the position of the value assigned to the ID, or `None` if
    /// the ID does not resolve.
    pub fn index_of(&self, id: ArenaId) -> (r: Option<usize>)
        requires
            self.wf(),
        ensures
            match r {
                Some(p) => self.spec_index_of(id) == Some(p as int) && p < self@.len(),
                None => self.spec_index_of(id) is None,
            },
    {
        if id.disc != self.disc {
            return None;
        }
        if id.idx >= self.slots.len() {
            return None;
        }
        match &self.slots[id.idx].state {
            State::Used { uid, value } => {
                if *uid == id.uid {
                    proof {
                        assert(self.slot_ok(id.idx as int));
                    }
                    Some(*value)
                } else {
                    None
                }
            },
            State::Free { .. } => None,
        }
    }

    /// Returns the ID owning the value at the given position — the inverse
    /// of [`index_of`](Arena::index_of) — or `None` if the position is out
    /// of range.
    pub fn id_at(&self, index: usize) -> (r: Option<ArenaId>)
        requires
            self.wf(),
        ensures
            r == self.spec_id_at(index as int),
            r is Some <==> index < self@.len(),
    {
        if index >= self.values.len() {
            return None;
        }
        proof {
            assert(self.backref_ok(index as int));
        }
        let s = self.slots[index].value_slot;
        match &self.slots[s].state {
            State::Used { uid, .. } => Some(ArenaId { disc: self.disc, uid: *uid, idx: s }),
            State::Free { .. } => unreached(),
        }
    }
}

/// The slot-table surgery done by an insertion that reuses the free-list
/// head: popping the head, stamping it, and recording the back-pointer of
/// the new position preserves the invariant, resolves the new ID to the new
/// position, and leaves every other ID's resolution unchanged.
#[verifier::rlimit(100)]
#[verifier::spinoff_prover]
proof fn lemma_insert_free_head<T>(o: Arena<T>, n: Arena<T>, idx: usize, uid0: u64)
    requires
        o.inv(),
        uid0 == o.next_uid,
        uid0 < u64::MAX,
        o.values@.len() <= usize::MAX,
        o.slots@.len() <= usize::MAX,
        o.first_free == Some(idx),
        n.disc == o.disc,
        n.next_uid == uid0 + 1,
        n.values@.drop_last() == o.values@,
        n.values@.len() == o.values@.len() + 1,
        n.free_chain@ == o.free_chain@.drop_first(),
        n.first_free == o.slots@[idx as int].state->next_free,
        n.slots@ == insert_mid(o, idx, uid0).update(
            o.values@.len() as int,
            Slot {
                value_slot: idx,
                state: insert_mid(o, idx, uid0)[o.values@.len() as int].state,
            },
        ),
    ensures
        n.inv(),
        n.lookup(ArenaId { disc: o.disc, uid: uid0, idx }) == Some(o.values@.len() as int),
        o.lookup(ArenaId { disc: o.disc, uid: uid0, idx }) is None,
        forall|j: ArenaId|
            j != (ArenaId { disc: o.disc, uid: uid0, idx }) ==> #[trigger] n.lookup(j)
                == o.lookup(j),
        n.slots@.len() == o.slots@.len(),
{
    let vp = o.values@.len() as int;
    let rid = ArenaId { disc: o.disc, uid: uid0, idx };
    let ofl = o.free_chain@;
    let fl = n.free_chain@;
    let mid = insert_mid(o, idx, uid0);
    assert(o.chain_ok(0));
    assert(ofl[0] == idx as int);
    assert(vp < o.slots@.len());
    assert(n.slots@.len() == o.slots@.len());
    // The two updates leave every state but the stamped one unchanged, and
    // every back-pointer but the new position's one unchanged.
    assert forall|s: int|
        0 <= s < n.slots@.len() && s != idx as int implies #[trigger] n.slots@[s].state
        == o.slots@[s].state by {
        assert(mid[s].state == o.slots@[s].state);
    }
    assert forall|p: int|
        0 <= p < n.slots@.len() && p != vp implies #[trigger] n.slots@[p].value_slot
        == o.slots@[p].value_slot by {
        assert(mid[p].value_slot == o.slots@[p].value_slot);
    }
    assert(n.slots@[idx as int].state == State::Used { uid: uid0, value: vp as usize });
    assert(n.slots@[vp].value_slot == idx);
    assert forall|p: int| 0 <= p < n.values@.len() implies #[trigger] n.backref_ok(p) by {
        if p < o.values@.len() {
            assert(o.backref_ok(p));
            let s = o.slots@[p].value_slot;
            assert(n.slots@[p].value_slot == s);
            assert(o.slots@[s as int].state is Used);
            assert(s != idx);
            assert(n.slots@[s as int].state == o.slots@[s as int].state);
        } else {
            assert(p == vp);
            assert(n.slots@[p].value_slot == idx);
        }
    }
    assert forall|s: int| 0 <= s < n.slots@.len() implies #[trigger] n.slot_ok(s) by {
        if s != idx as int && n.slots@[s].state is Used {
            assert(n.slots@[s].state == o.slots@[s].state);
            assert(o.slot_ok(s));
            let v = o.slots@[s].state->value;
            assert((v as int) < o.values@.len());
            assert(v as int != vp);
            assert(n.slots@[v as int].value_slot == o.slots@[v as int].value_slot);
        } else if n.slots@[s].state is Used {
            assert(s == idx as int);
            assert(n.slots@[vp].value_slot == idx);
        }
    }
    assert(fl.len() == ofl.len() - 1);
    assert forall|a: int, b: int| 0 <= a < b < fl.len() implies fl[a] != fl[b] by {
        assert(ofl[a + 1] == fl[a]);
        assert(ofl[b + 1] == fl[b]);
    }
    assert(fl.no_duplicates());
    assert forall|k: int| 0 <= k < fl.len() implies #[trigger] n.chain_ok(k) by {
        assert(o.chain_ok(k + 1));
        assert(ofl[k + 1] == fl[k]);
        assert(fl[k] != idx as int);
        assert(n.slots@[fl[k]].state == o.slots@[fl[k]].state);
        if k + 1 < fl.len() {
            assert(ofl[k + 2] == fl[k + 1]);
        }
    }
    if fl.len() > 0 {
        assert(o.chain_ok(1));
        assert(ofl[1] == fl[0]);
        assert(n.first_free == Some(fl[0] as usize));
    } else {
        assert(n.first_free is None);
    }
    assert(n.values@.len() <= n.slots@.len());
    assert forall|s: int|
        0 <= s < n.slots@.len() && (#[trigger] n.slots@[s].state) is Free implies fl.contains(
        s,
    ) by {
        assert(s != idx as int);
        assert(ofl.contains(s));
        let k = choose|k: int| 0 <= k < ofl.len() && ofl[k] == s;
        assert(k != 0);
        assert(fl[k - 1] == s);
    }
    assert(n.inv());
    assert forall|j: ArenaId| j != rid implies #[trigger] n.lookup(j) == o.lookup(j) by {
        if j.disc == n.disc && (j.idx as int) < n.slots@.len() {
            if j.idx == idx {
                assert(j.uid != uid0);
            }
        }
    }
    assert(n.lookup(rid) == Some(vp));
}

/// The slot table after stamping slot `idx` as freshly occupied, before the
/// back-pointer of the new position is recorded.
spec fn insert_mid<T>(o: Arena<T>, idx: usize, uid0: u64) -> Seq<Slot> {
    o.slots@.update(
        idx as int,
        Slot {
            value_slot: o.slots@[idx as int].value_slot,
            state: State::Used { uid: uid0, value: o.values@.len() as usize },
        },
    )
}

/// The slot table after appending a freshly stamped slot.
spec fn insert_end<T>(o: Arena<T>, uid0: u64) -> Seq<Slot> {
    o.slots@.push(
        Slot { value_slot: 0, state: State::Used { uid: uid0, value: o.values@.len() as usize } },
    )
}

/// The slot-table surgery done by an insertion that grows the table: the
/// counterpart of `lemma_insert_free_head` for an empty free list.
proof fn lemma_insert_grow<T>(o: Arena<T>, n: Arena<T>, idx: usize, uid0: u64)
    requires
        o.inv(),
        uid0 == o.next_uid,
        uid0 < u64::MAX,
        o.values@.len() <= usize::MAX,
        o.slots@.len() <= usize::MAX,
        o.first_free is None,
        idx == o.slots@.len(),
        n.disc == o.disc,
        n.next_uid == uid0 + 1,
        n.values@.drop_last() == o.values@,
        n.values@.len() == o.values@.len() + 1,
        n.free_chain@ == o.free_chain@,
        n.first_free is None,
        n.slots@ == insert_end(o, uid0).update(
            o.values@.len() as int,
            Slot { value_slot: idx, state: insert_end(o, uid0)[o.values@.len() as int].state },
        ),
    ensures
        n.inv(),
        n.lookup(ArenaId { disc: o.disc, uid: uid0, idx }) == Some(o.values@.len() as int),
        o.lookup(ArenaId { disc: o.disc, uid: uid0, idx }) is None,
        forall|j: ArenaId|
            j != (ArenaId { disc: o.disc, uid: uid0, idx }) ==> #[trigger] n.lookup(j)
                == o.lookup(j),
        n.slots@.len() == o.slots@.len() + 1,
{
    let vp = o.values@.len() as int;
    let rid = ArenaId { disc: o.disc, uid: uid0, idx };
    let mid = insert_end(o, uid0);
    assert(o.free_chain@.len() == 0);
    assert(vp <= o.slots@.len());
    assert(n.slots@.len() == o.slots@.len() + 1);
    assert forall|s: int| 0 <= s < o.slots@.len() implies #[trigger] n.slots@[s].state
        == o.slots@[s].state by {
        assert(mid[s].state == o.slots@[s].state);
    }
    assert forall|p: int|
        0 <= p < o.slots@.len() && p != vp implies #[trigger] n.slots@[p].value_slot
        == o.slots@[p].value_slot by {
        assert(mid[p].value_slot == o.slots@[p].value_slot);
    }
    assert(n.slots@[idx as int].state == State::Used { uid: uid0, value: vp as usize });
    assert(n.slots@[vp].value_slot == idx);
    assert forall|p: int| 0 <= p < n.values@.len() implies #[trigger] n.backref_ok(p) by {
        if p < o.values@.len() {
            assert(o.backref_ok(p));
            let s = o.slots@[p].value_slot;
            assert(o.slots@[s as int].state is Used);
        }
    }
    assert forall|s: int| 0 <= s < n.slots@.len() implies #[trigger] n.slot_ok(s) by {
        if s != idx as int && n.slots@[s].state is Used {
            assert(o.slot_ok(s));
            let v = o.slots@[s].state->value;
            assert((v as int) < o.values@.len());
            assert(v as int != vp);
        }
    }
    assert(n.free_chain@.len() == 0);
    assert forall|s: int|
        0 <= s < n.slots@.len() && (#[trigger] n.slots@[s].state) is Free implies n
            .free_chain@.contains(s) by {
        assert(s != idx as int);
        assert(o.slots@[s].state is Free);
        assert(o.free_chain@.contains(s));
    }
    assert(n.inv());
    assert forall|j: ArenaId| j != rid implies #[trigger] n.lookup(j) == o.lookup(j) by {
        if j.disc == n.disc && (j.idx as int) < n.slots@.len() {
            if j.idx == idx {
                assert(j.uid != uid0);
            }
        }
    }
    assert(n.lookup(rid) == Some(vp));
}

/// Relies on `slice::swap`: exchanges the elements at the two given
/// indices, which must be in bounds (`swap` panics otherwise).
#[verifier::external_body]
pub(crate) fn swap_in_vec<T>(v: &mut Vec<T>, a: usize, b: usize)
    requires
        a < old(v)@.len(),
        b < old(v)@.len(),
    ensures
        final(v)@ == old(v)@.update(a as int, old(v)@[b as int]).update(
            b as int,
            old(v)@[a as int],
        ),
{
    v.swap(a, b);
}

/// The slot table after exchanging positions `i` and `j`: the two owning
/// slots' forward pointers are crossed, then the two positions'
/// back-pointers are crossed.
spec fn swap_slots<T>(o: Arena<T>, i: int, j: int) -> Seq<Slot> {
    let si = o.slots@[i].value_slot;
    let sj = o.slots@[j].value_slot;
    let u1 = o.slots@.update(
        si as int,
        Slot {
            value_slot: o.slots@[si as int].value_slot,
            state: State::Used { uid: o.slots@[si as int].state->uid, value: j as usize },
        },
    );
    let u2 = u1.update(
        sj as int,
        Slot {
            value_slot: u1[sj as int].value_slot,
            state: State::Used { uid: u1[sj as int].state->uid, value: i as usize },
        },
    );
    let u3 = u2.update(i, Slot { value_slot: sj, state: u2[i].state });
    u3.update(j, Slot { value_slot: si, state: u3[j].state })
}

/// Exchanging two live positions updates both back-pointers and both
/// forward pointers, preserves the invariant and every ID's value, and
/// exchanges exactly the two IDs' positions.
#[verifier::rlimit(60)]
#[verifier::spinoff_prover]
proof fn lemma_swap<T>(o: Arena<T>, n: Arena<T>, i: int, j: int)
    requires
        o.inv(),
        o.values@.len() <= usize::MAX,
        o.slots@.len() <= usize::MAX,
        0 <= i < o.values@.len(),
        0 <= j < o.values@.len(),
        i != j,
        n.disc == o.disc,
        n.next_uid == o.next_uid,
        n.first_free == o.first_free,
        n.free_chain@ == o.free_chain@,
        n.values@ == o.values@.update(i, o.values@[j]).update(j, o.values@[i]),
        n.slots@ == swap_slots(o, i, j),
    ensures
        n.inv(),
        n.slots@.len() == o.slots@.len(),
        forall|h: ArenaId|
            #[trigger] n.lookup(h) == (if o.lookup(h) == Some(i) {
                Some(j)
            } else if o.lookup(h) == Some(j) {
                Some(i)
            } else {
                o.lookup(h)
            }),
        forall|h: ArenaId| #[trigger] n.spec_get(h) == o.spec_get(h),
{
    assert(o.backref_ok(i));
    assert(o.backref_ok(j));
    let si = o.slots@[i].value_slot;
    let sj = o.slots@[j].value_slot;
    let uidi = o.slots@[si as int].state->uid;
    let uidj = o.slots@[sj as int].state->uid;
    assert(o.slots@[si as int].state == (State::Used { uid: uidi, value: i as usize }));
    assert(o.slots@[sj as int].state == (State::Used { uid: uidj, value: j as usize }));
    assert(si != sj);
    assert(o.slot_ok(si as int));
    assert(o.slot_ok(sj as int));
    assert(n.slots@.len() == o.slots@.len());
    assert(n.slots@[si as int].state == (State::Used { uid: uidi, value: j as usize }));
    assert(n.slots@[sj as int].state == (State::Used { uid: uidj, value: i as usize }));
    assert(n.slots@[i].value_slot == sj);
    assert(n.slots@[j].value_slot == si);
    assert forall|s: int|
        0 <= s < n.slots@.len() && s != si as int && s != sj as int implies (
    #[trigger] n.slots@[s].state) == o.slots@[s].state by {}
    assert forall|q: int| 0 <= q < n.slots@.len() && q != i && q != j implies #[trigger] n
        .slots@[q].value_slot == o.slots@[q].value_slot by {}
    assert forall|q: int| 0 <= q < n.values@.len() implies #[trigger] n.backref_ok(q) by {
        if q != i && q != j {
            assert(o.backref_ok(q));
            let s = o.slots@[q].value_slot;
            assert(o.slots@[s as int].state is Used);
            assert(s != si && s != sj);
        }
    }
    assert forall|s: int| 0 <= s < n.slots@.len() implies #[trigger] n.slot_ok(s) by {
        if s != si as int && s != sj as int && n.slots@[s].state is Used {
            assert(o.slot_ok(s));
            let v = o.slots@[s].state->value;
            assert(v as int != i) by {
                if v as int == i {
                    assert(o.slots@[i].value_slot == s);
                }
            }
            assert(v as int != j) by {
                if v as int == j {
                    assert(o.slots@[j].value_slot == s);
                }
            }
        }
    }
    let fl = n.free_chain@;
    assert forall|k: int| 0 <= k < fl.len() implies #[trigger] n.chain_ok(k) by {
        assert(o.chain_ok(k));
        assert(fl[k] != si as int && fl[k] != sj as int);
    }
    assert forall|s: int|
        0 <= s < n.slots@.len() && (#[trigger] n.slots@[s].state) is Free implies fl.contains(
        s,
    ) by {
        assert(s != si as int && s != sj as int);
        assert(o.slots@[s].state is Free);
    }
    assert(n.inv());
    assert forall|h: ArenaId| #[trigger] n.lookup(h) == (if o.lookup(h) == Some(i) {
        Some(j)
    } else if o.lookup(h) == Some(j) {
        Some(i)
    } else {
        o.lookup(h)
    }) by {
        if h.disc == o.disc && (h.idx as int) < o.slots@.len() {
            if h.idx != si && h.idx != sj {
                if o.lookup(h) is Some {
                    let q = o.lookup(h).unwrap();
                    assert(o.slot_ok(h.idx as int));
                    if q == i {
                        assert(o.slots@[i].value_slot == h.idx);
                        assert(false);
                    }
                    if q == j {
                        assert(o.slots@[j].value_slot == h.idx);
                        assert(false);
                    }
                }
            }
        }
    }
    assert forall|h: ArenaId| #[trigger] n.spec_get(h) == o.spec_get(h) by {
        if o.lookup(h) is Some {
            let q = o.lookup(h).unwrap();
            assert(o.slot_ok(h.idx as int));
            if q == i {
                assert(n.values@[j] == o.values@[i]);
            } else if q == j {
                assert(n.values@[i] == o.values@[j]);
            } else {
                assert(n.values@[q] == o.values@[q]);
            }
        }
    }
}

/// The invariant does not read the values themselves: replacing the value
/// store by one of equal length preserves it, and every ID still resolves
/// to the same position.
pub(crate) proof fn lemma_inv_values_irrelevant<T>(o: Arena<T>, n: Arena<T>)
    requires
        o.inv(),
        n.slots@ == o.slots@,
        n.values@.len() == o.values@.len(),
        n.next_uid == o.next_uid,
        n.disc == o.disc,
        n.first_free == o.first_free,
        n.free_chain@ == o.free_chain@,
    ensures
        n.inv(),
        forall|j: ArenaId| #[trigger] n.lookup(j) == o.lookup(j),
{
    assert forall|p: int| 0 <= p < n.values@.len() implies #[trigger] n.backref_ok(p) by {
        assert(o.backref_ok(p));
    }
    assert forall|s: int| 0 <= s < n.slots@.len() implies #[trigger] n.slot_ok(s) by {
        assert(o.slot_ok(s));
    }
    assert forall|c: int| 0 <= c < n.free_chain@.len() implies #[trigger] n.chain_ok(c) by {
        assert(o.chain_ok(c));
    }
    assert(n.inv());
}

/// Replacing the one value an ID resolves to, in place, changes what that
/// ID finds and nothing else.
proof fn lemma_value_update_glue<T>(o: Arena<T>, n: Arena<T>, id: ArenaId, p: int)
    requires
        o.inv(),
        o.lookup(id) == Some(p),
        n.slots@ == o.slots@,
        n.values@.len() == o.values@.len(),
        n.next_uid == o.next_uid,
        n.disc == o.disc,
        n.first_free == o.first_free,
        n.free_chain@ == o.free_chain@,
        forall|q: int| 0 <= q < o.values@.len() && q != p ==> n.values@[q] == o.values@[q],
    ensures
        n.inv(),
        forall|j: ArenaId| #[trigger] n.lookup(j) == o.lookup(j),
        forall|j: ArenaId| j != id ==> #[trigger] n.spec_get(j) == o.spec_get(j),
        n.spec_get(id) == Some(n.values@[p]),
    {
    lemma_inv_values_irrelevant(o, n);
    assert(o.slot_ok(id.idx as int));
    assert forall|j: ArenaId| j != id implies #[trigger] n.spec_get(j) == o.spec_get(j) by {
        if o.lookup(j) is Some {
            let q = o.lookup(j).unwrap();
            assert(o.slot_ok(j.idx as int));
            if q == p {
                lemma_owner_unique(o, j, id);
                assert(false);
            }
            assert(n.values@[q] == o.values@[q]);
        }
    }
}

/// At most one live ID resolves to any given position: the back-pointer of
/// the position determines the slot, and the slot determines the tag.
pub(crate) proof fn lemma_owner_unique<T>(a: Arena<T>, j1: ArenaId, j2: ArenaId)
    requires
        a.inv(),
        a.lookup(j1) is Some,
        a.lookup(j1) == a.lookup(j2),
    ensures
        j1 == j2,
{
    let p = a.lookup(j1).unwrap();
    assert(a.slot_ok(j1.idx as int));
    assert(a.slot_ok(j2.idx as int));
    assert(a.slots@[p].value_slot == j1.idx);
    assert(a.slots@[p].value_slot == j2.idx);
}

/// The slot table after a removal at position `p` that relocates the last
/// value: the removed ID's slot `fs` is freed, the back-pointer of `p` is
/// redirected to the slot owning the last position, and that slot's forward
/// pointer is redirected to `p`.
spec fn remove_swap_slots<T>(o: Arena<T>, fs: usize, p: int) -> Seq<Slot> {
    let last = o.values@.len() - 1;
    let u1 = o.slots@.update(
        fs as int,
        Slot {
            value_slot: o.slots@[fs as int].value_slot,
            state: State::Free { next_free: o.first_free },
        },
    );
    let ls = u1[last].value_slot;
    let u2 = u1.update(p, Slot { value_slot: ls, state: u1[p].state });
    let luid = u2[ls as int].state->uid;
    u2.update(
        ls as int,
        Slot {
            value_slot: u2[ls as int].value_slot,
            state: State::Used { uid: luid, value: p as usize },
        },
    )
}

/// Freeing one occupied slot preserves the free-chain part of the
/// invariant: the slot becomes the new head and links to the old head.
#[verifier::spinoff_prover]
proof fn lemma_push_free_chain<T>(o: Arena<T>, n: Arena<T>, fs: usize)
    requires
        o.free_chain@.no_duplicates(),
        if o.free_chain@.len() == 0 {
            o.first_free is None
        } else {
            o.first_free matches Some(h) && h as int == o.free_chain@[0]
        },
        forall|k: int| 0 <= k < o.free_chain@.len() ==> #[trigger] o.chain_ok(k),
        forall|s: int|
            0 <= s < o.slots@.len() && (#[trigger] o.slots@[s].state) is Free
                ==> o.free_chain@.contains(s),
        o.slots@.len() <= usize::MAX,
        (fs as int) < o.slots@.len(),
        o.slots@[fs as int].state is Used,
        n.first_free == Some(fs),
        n.free_chain@ == seq![fs as int] + o.free_chain@,
        n.slots@.len() == o.slots@.len(),
        n.slots@[fs as int].state == (State::Free { next_free: o.first_free }),
        forall|s: int|
            0 <= s < n.slots@.len() && s != fs as int ==> ((#[trigger] n.slots@[s].state)
                is Free <==> o.slots@[s].state is Free),
        forall|s: int|
            0 <= s < n.slots@.len() && s != fs as int && o.slots@[s].state is Free ==> (
            #[trigger] n.slots@[s].state) == o.slots@[s].state,
    ensures
        n.free_chain@.no_duplicates(),
        n.free_chain@.len() == o.free_chain@.len() + 1,
        n.first_free matches Some(h) && h as int == n.free_chain@[0],
        forall|k: int| 0 <= k < n.free_chain@.len() ==> #[trigger] n.chain_ok(k),
        forall|s: int|
            0 <= s < n.slots@.len() && (#[trigger] n.slots@[s].state) is Free
                ==> n.free_chain@.contains(s),
{
    let ofl = o.free_chain@;
    let fl = n.free_chain@;
    assert(fl[0] == fs as int);
    assert forall|k: int| 0 <= k < fl.len() implies #[trigger] n.chain_ok(k) by {
        if k == 0 {
            if ofl.len() > 0 {
                assert(o.chain_ok(0));
                assert(fl[1] == ofl[0]);
            }
        } else {
            assert(o.chain_ok(k - 1));
            assert(fl[k] == ofl[k - 1]);
            assert(ofl[k - 1] != fs as int);
            if k + 1 < fl.len() {
                assert(fl[k + 1] == ofl[k]);
            }
        }
    }
    assert forall|a: int, b: int| 0 <= a < b < fl.len() implies fl[a] != fl[b] by {
        if a == 0 {
            assert(o.chain_ok(b - 1));
            assert(fl[b] == ofl[b - 1]);
        } else {
            assert(fl[a] == ofl[a - 1]);
            assert(fl[b] == ofl[b - 1]);
        }
    }
    assert(fl.no_duplicates());
    assert forall|s: int|
        0 <= s < n.slots@.len() && (#[trigger] n.slots@[s].state) is Free implies fl.contains(
        s,
    ) by {
        if s != fs as int {
            assert(o.slots@[s].state is Free);
            assert(ofl.contains(s));
            let k = choose|k: int| 0 <= k < ofl.len() && ofl[k] == s;
            assert(fl[k + 1] == s);
        } else {
            assert(fl[0] == s);
        }
    }
}

/// Removing the value at the last position: its slot is freed and the value
/// store shrinks by one; every other ID still resolves as before.
#[verifier::rlimit(50)]
#[verifier::spinoff_prover]
proof fn lemma_free_tail<T>(o: Arena<T>, n: Arena<T>, fs: usize)
    requires
        o.inv(),
        o.values@.len() > 0,
        o.values@.len() <= usize::MAX,
        o.slots@.len() <= usize::MAX,
        fs == o.slots@[o.values@.len() - 1].value_slot,
        n.disc == o.disc,
        n.next_uid == o.next_uid,
        n.values@ == o.values@.drop_last(),
        n.first_free == Some(fs),
        n.free_chain@ == seq![fs as int] + o.free_chain@,
        n.slots@ == o.slots@.update(
            fs as int,
            Slot {
                value_slot: o.slots@[fs as int].value_slot,
                state: State::Free { next_free: o.first_free },
            },
        ),
    ensures
        n.inv(),
        n.slots@.len() == o.slots@.len(),
        forall|j: ArenaId|
            #[trigger] n.lookup(j) == (if o.lookup(j) == Some(o.values@.len() - 1) {
                None
            } else {
                o.lookup(j)
            }),
{
    let last = o.values@.len() - 1;
    assert(o.backref_ok(last));
    assert(o.slots@[fs as int].state == (State::Used {
        uid: o.slots@[fs as int].state->uid,
        value: last as usize,
    }));
    assert forall|s: int|
        0 <= s < n.slots@.len() && s != fs as int implies (#[trigger] n.slots@[s].state)
            == o.slots@[s].state by {}
    assert forall|p: int| 0 <= p < n.slots@.len() implies #[trigger] n.slots@[p].value_slot
        == o.slots@[p].value_slot by {}
    lemma_push_free_chain(o, n, fs);
    assert forall|p: int| 0 <= p < n.values@.len() implies #[trigger] n.backref_ok(p) by {
        assert(o.backref_ok(p));
        let s = o.slots@[p].value_slot;
        assert(o.slots@[s as int].state is Used);
        assert(s != fs) by {
            assert(o.slot_ok(s as int));
        }
    }
    assert forall|s: int| 0 <= s < n.slots@.len() implies #[trigger] n.slot_ok(s) by {
        if s != fs as int && n.slots@[s].state is Used {
            assert(o.slot_ok(s));
            let v = o.slots@[s].state->value;
            assert(v as int != last) by {
                if v as int == last {
                    assert(o.backref_ok(last));
                    assert(o.slots@[last].value_slot == s);
                }
            }
        }
    }
    assert(n.inv());
    assert forall|j: ArenaId| #[trigger] n.lookup(j) == (if o.lookup(j) == Some(last) {
        None
    } else {
        o.lookup(j)
    }) by {
        if j.disc == o.disc && (j.idx as int) < o.slots@.len() {
            if j.idx == fs {
                assert(o.slot_ok(fs as int));
            } else if o.lookup(j) is Some && o.lookup(j).unwrap() == last {
                assert(o.slot_ok(j.idx as int));
                assert(o.slots@[last].value_slot == j.idx);
            }
        }
    }
}

/// Removing a value from the middle: exactly the last value moves into the
/// freed position, the removed ID stops resolving, and every other ID still
/// resolves to its own value (the relocated one now at the freed position).
#[verifier::rlimit(50)]
#[verifier::spinoff_prover]
proof fn lemma_remove_swap<T>(o: Arena<T>, n: Arena<T>, id: ArenaId)
    requires
        o.inv(),
        o.values@.len() <= usize::MAX,
        o.slots@.len() <= usize::MAX,
        o.lookup(id) is Some,
        o.lookup(id).unwrap() < o.values@.len() - 1,
        n.disc == o.disc,
        n.next_uid == o.next_uid,
        n.values@ == o.values@.update(o.lookup(id).unwrap(), o.values@.last()).drop_last(),
        n.first_free == Some(id.idx),
        n.free_chain@ == seq![id.idx as int] + o.free_chain@,
        n.slots@ == remove_swap_slots(o, id.idx, o.lookup(id).unwrap()),
    ensures
        n.inv(),
        n.slots@.len() == o.slots@.len(),
        n.lookup(id) is None,
        forall|j: ArenaId|
            j != id ==> #[trigger] n.lookup(j) == (if o.lookup(j) == Some(
                o.values@.len() - 1,
            ) {
                Some(o.lookup(id).unwrap())
            } else {
                o.lookup(j)
            }),
{
    let p = o.lookup(id).unwrap();
    let last = o.values@.len() - 1;
    let fs = id.idx;
    assert(o.slot_ok(fs as int));
    assert(o.slots@[fs as int].state == (State::Used { uid: id.uid, value: p as usize }));
    assert(o.slots@[p].value_slot == fs);
    assert(o.backref_ok(last));
    let ls = o.slots@[last].value_slot;
    let luid = o.slots@[ls as int].state->uid;
    assert(o.slots@[ls as int].state == (State::Used { uid: luid, value: last as usize }));
    assert(ls != fs);
    assert(o.slot_ok(ls as int));
    // the exact shape of the new slot table
    assert(n.slots@.len() == o.slots@.len());
    assert(n.slots@[fs as int].state == (State::Free { next_free: o.first_free }));
    assert(n.slots@[ls as int].state == (State::Used { uid: luid, value: p as usize }));
    assert forall|s: int|
        0 <= s < n.slots@.len() && s != fs as int && s != ls as int implies (
        #[trigger] n.slots@[s].state) == o.slots@[s].state by {}
    assert(n.slots@[p].value_slot == ls);
    assert forall|q: int| 0 <= q < n.slots@.len() && q != p implies #[trigger] n.slots@[q].value_slot
        == o.slots@[q].value_slot by {}
    lemma_push_free_chain(o, n, fs);
    assert forall|q: int| 0 <= q < n.values@.len() implies #[trigger] n.backref_ok(q) by {
        if q != p {
            assert(o.backref_ok(q));
            let s = o.slots@[q].value_slot;
            assert(o.slots@[s as int].state is Used);
            assert(o.slot_ok(s as int));
            assert(s != fs);
            assert(s != ls);
        }
    }
    assert forall|s: int| 0 <= s < n.slots@.len() implies #[trigger] n.slot_ok(s) by {
        if s != fs as int && s != ls as int && n.slots@[s].state is Used {
            assert(o.slot_ok(s));
            let v = o.slots@[s].state->value;
            assert(v as int != p) by {
                if v as int == p {
                    assert(o.slots@[p].value_slot == s);
                }
            }
            assert(v as int != last) by {
                if v as int == last {
                    assert(o.slots@[last].value_slot == s);
                }
            }
        }
    }
    assert(n.inv());
    assert(n.lookup(id) is None);
    assert forall|j: ArenaId| j != id implies #[trigger] n.lookup(j) == (if o.lookup(j) == Some(
        last,
    ) {
        Some(p)
    } else {
        o.lookup(j)
    }) by {
        if j.disc == o.disc && (j.idx as int) < o.slots@.len() {
            if j.idx == fs {
                assert(j.uid != id.uid);
            } else if j.idx == ls {
                if j.uid == luid {
                    assert(o.lookup(j) == Some(last));
                    assert(n.lookup(j) == Some(p));
                }
            } else {
                if o.lookup(j) is Some && o.lookup(j).unwrap() == last {
                    assert(o.slot_ok(j.idx as int));
                    assert(o.slots@[last].value_slot == j.idx);
                    assert(false);
                }
            }
        }
    }
}

impl<T> Arena<T> {
    /// Inserts a value created by the provided function, which receives the
    /// ID about to be assigned — useful for values that want to store their
    /// own ID on construction.  Allocates a slot (reusing the free-list
    /// head if there is one, else growing the table), stamps it with a
    /// fresh generation tag, and appends the value at the end of the store.
    #[verifier::rlimit(100)]
    pub fn insert_with<F: FnOnce(ArenaId) -> T>(&mut self, create: F) -> (r: ArenaId)
        requires
            old(self).wf(),
            old(self).spec_counter() < u64::MAX,
            forall|id: ArenaId| #[trigger] call_requires(create, (id,)),
        ensures
            final(self).wf(),
            r.instance() == old(self).spec_instance(),
            r.gen_tag() == old(self).spec_counter(),
            final(self).spec_counter() == old(self).spec_counter() + 1,
            final(self).spec_instance() == old(self).spec_instance(),
            final(self)@.len() == old(self)@.len() + 1,
            final(self)@.drop_last() == old(self)@,
            call_ensures(create, (r,), final(self)@.last()),
            final(self).spec_get(r) == Some(final(self)@.last()),
            final(self).spec_index_of(r) == Some(old(self)@.len() as int),
            old(self).spec_get(r) is None,
            forall|id: ArenaId|
                id != r ==> #[trigger] final(self).spec_get(id) == old(self).spec_get(id),
            forall|id: ArenaId|
                id != r ==> #[trigger] final(self).spec_index_of(id) == old(
                    self,
                ).spec_index_of(id),
            final(self).spec_slot_count() == if old(self).spec_slot_count() == old(self)@.len() {
                old(self).spec_slot_count() + 1
            } else {
                old(self).spec_slot_count()
            },
            forall|id: ArenaId|
                old(self).spec_retired(id) ==> #[trigger] final(self).spec_retired(id),
    {
        let value_pos = self.values.len();
        let uid0 = self.next_uid;
        let idx: usize;
        match self.first_free {
            Some(i) => {
                proof {
                    assert(self.free_chain@.len() > 0);
                    assert(self.chain_ok(0));
                    assert(self.free_chain@[0] == i as int);
                }
                idx = i;
                let next = match &self.slots[i].state {
                    State::Free { next_free } => *next_free,
                    State::Used { .. } => unreached(),
                };
                self.first_free = next;
                let old_slot = self.slots[i];
                self.slots.set(
                    i,
                    Slot {
                        value_slot: old_slot.value_slot,
                        state: State::Used { uid: uid0, value: value_pos },
                    },
                );
                self.free_chain = Ghost(self.free_chain@.drop_first());
            },
            None => {
                proof {
                    assert(self.free_chain@.len() == 0);
                }
                idx = self.slots.len();
                self.slots.push(
                    Slot { value_slot: 0, state: State::Used { uid: uid0, value: value_pos } },
                );
            },
        }
        proof {
            assert(value_pos < self.slots@.len());
        }
        let old_vp = self.slots[value_pos];
        self.slots.set(value_pos, Slot { value_slot: idx, state: old_vp.state });
        let id = ArenaId { disc: self.disc, uid: uid0, idx };
        self.next_uid = self.next_uid + 1;
        self.values.push(create(id));
        proof {
            let o = *old(self);
            let n = *self;
            let vp = o.values@.len() as int;
            assert(o.slots.len() == o.slots@.len());
            assert(o.slots@.len() <= usize::MAX);
            assert(n.values@.drop_last() =~= o.values@);
            if o.first_free is Some {
                assert(n.slots@ =~= insert_mid(o, idx, uid0).update(
                    vp,
                    Slot { value_slot: idx, state: insert_mid(o, idx, uid0)[vp].state },
                ));
                lemma_insert_free_head(o, n, idx, uid0);
            } else {
                assert(n.slots@ =~= insert_end(o, uid0).update(
                    vp,
                    Slot { value_slot: idx, state: insert_end(o, uid0)[vp].state },
                ));
                lemma_insert_grow(o, n, idx, uid0);
            }
            assert forall|j: ArenaId| j != id implies #[trigger] n.spec_get(j) == o.spec_get(
                j,
            ) by {
                if o.lookup(j) is Some {
                    assert(o.slot_ok(j.idx as int));
                    let p = o.lookup(j).unwrap();
                    assert(0 <= p < o.values@.len());
                    assert(n.values@[p] == o.values@[p]);
                }
            }
            assert forall|j: ArenaId| o.spec_retired(j) implies #[trigger] n.spec_retired(j) by {
                assert(j != id);
            }
        }
        id
    }

    /// Inserts a value in the arena, returning an ID that can be used to
    /// access it at any later time, even after the values are re-arranged.
    pub fn insert(&mut self, value: T) -> (r: ArenaId)
        requires
            old(self).wf(),
            old(self).spec_counter() < u64::MAX,
        ensures
            final(self).wf(),
            r.instance() == old(self).spec_instance(),
            r.gen_tag() == old(self).spec_counter(),
            final(self).spec_counter() == old(self).spec_counter() + 1,
            final(self).spec_instance() == old(self).spec_instance(),
            final(self)@ == old(self)@.push(value),
            final(self).spec_get(r) == Some(value),
            final(self).spec_index_of(r) == Some(old(self)@.len() as int),
            old(self).spec_get(r) is None,
            forall|id: ArenaId|
                id != r ==> #[trigger] final(self).spec_get(id) == old(self).spec_get(id),
            forall|id: ArenaId|
                id != r ==> #[trigger] final(self).spec_index_of(id) == old(
                    self,
                ).spec_index_of(id),
            final(self).spec_slot_count() == if old(self).spec_slot_count() == old(self)@.len() {
                old(self).spec_slot_count() + 1
            } else {
                old(self).spec_slot_count()
            },
            forall|id: ArenaId|
                old(self).spec_retired(id) ==> #[trigger] final(self).spec_retired(id),
    {
        let r = self.insert_with(
            (|_id: ArenaId| -> (v: T)
                ensures
                    v == value,
                { value }),
        );
        proof {
            assert(self@ =~= old(self)@.push(value));
        }
        r
    }

    /// Removes the value assigned to the ID and returns it, or returns
    /// `None` (changing nothing) if the ID does not resolve.  The freed
    /// position is filled by moving the last value into it ("pop & swap"),
    /// so relative order is not preserved; no other ID stops resolving, and
    /// the removed ID never resolves again.
    #[verifier::rlimit(50)]
    pub fn remove(&mut self, id: ArenaId) -> (r: Option<T>)
        requires
            old(self).wf(),
        ensures
            final(self).wf(),
            final(self).spec_counter() == old(self).spec_counter(),
            final(self).spec_instance() == old(self).spec_instance(),
            final(self).spec_slot_count() == old(self).spec_slot_count(),
            old(self).spec_get(id) is None ==> r is None && *final(self) == *old(self),
            old(self).spec_get(id) is Some ==> ({
                let p = old(self).spec_index_of(id).unwrap();
                let last = old(self)@.len() - 1;
                &&& r == Some(old(self)@[p])
                &&& final(self)@ == old(self)@.update(p, old(self)@[last]).drop_last()
                &&& final(self).spec_get(id) is None
                &&& forall|j: ArenaId|
                    j != id ==> #[trigger] final(self).spec_get(j) == old(self).spec_get(j)
                &&& forall|j: ArenaId|
                    j != id ==> #[trigger] final(self).spec_index_of(j) == (if old(
                        self,
                    ).spec_index_of(j) == Some(last) {
                        Some(p)
                    } else {
                        old(self).spec_index_of(j)
                    })
            }),
            forall|j: ArenaId|
                old(self).spec_retired(j) ==> #[trigger] final(self).spec_retired(j),
    {
        if id.disc != self.disc {
            return None;
        }
        if id.idx >= self.slots.len() {
            return None;
        }
        let removed_val = match &self.slots[id.idx].state {
            State::Used { uid, value } => {
                if *uid == id.uid {
                    *value
                } else {
                    return None;
                }
            },
            State::Free { .. } => {
                return None;
            },
        };
        proof {
            assert(self.slot_ok(id.idx as int));
        }
        // free up the slot of the removed value
        let vs0 = self.slots[id.idx].value_slot;
        let head = self.first_free;
        self.slots.set(
            id.idx,
            Slot { value_slot: vs0, state: State::Free { next_free: head } },
        );
        self.first_free = Some(id.idx);
        self.free_chain = Ghost(seq![id.idx as int] + self.free_chain@);
        let last_val = self.values.len() - 1;
        if removed_val < last_val {
            // move the last value's slot bookkeeping onto the freed position
            proof {
                assert(old(self).backref_ok(last_val as int));
            }
            let last_slot = self.slots[last_val].value_slot;
            let cur = self.slots[removed_val];
            self.slots.set(removed_val, Slot { value_slot: last_slot, state: cur.state });
            let owner = self.slots[last_slot];
            let luid = match owner.state {
                State::Used { uid, .. } => uid,
                State::Free { .. } => {
                    proof {
                        assert(old(self).slot_ok(last_slot as int));
                    }
                    unreached()
                },
            };
            self.slots.set(
                last_slot,
                Slot {
                    value_slot: owner.value_slot,
                    state: State::Used { uid: luid, value: removed_val },
                },
            );
            // then also move the value into the removed value's position
            let v = self.values.swap_remove(removed_val);
            proof {
                let o = *old(self);
                let n = *self;
                assert(o.slots.len() == o.slots@.len());
                assert(o.values.len() == o.values@.len());
                assert(n.slots@ =~= remove_swap_slots(o, id.idx, removed_val as int));
                lemma_remove_swap(o, n, id);
                self.lemma_remove_glue(o, id, removed_val as int);
            }
            Some(v)
        } else {
            let v = self.values.pop();
            proof {
                let o = *old(self);
                let n = *self;
                assert(o.slots.len() == o.slots@.len());
                assert(o.values.len() == o.values@.len());
                assert(removed_val as int == o.values@.len() - 1);
                assert(o.slots@[o.values@.len() - 1].value_slot == id.idx) by {
                    assert(o.backref_ok(o.values@.len() - 1));
                    assert(o.slot_ok(id.idx as int));
                }
                assert(n.slots@ =~= o.slots@.update(
                    id.idx as int,
                    Slot {
                        value_slot: o.slots@[id.idx as int].value_slot,
                        state: State::Free { next_free: o.first_free },
                    },
                ));
                lemma_free_tail(o, n, id.idx);
                assert(n.values@ =~= o.values@.update(
                    removed_val as int,
                    o.values@.last(),
                ).drop_last());
                self.lemma_remove_glue(o, id, removed_val as int);
            }
            v
        }
    }

    /// The value-level consequences of a removal, shared by both removal
    /// paths: every surviving ID still finds its own value.
    proof fn lemma_remove_glue(self, o: Arena<T>, id: ArenaId, p: int)
        requires
            o.inv(),
            self.inv(),
            o.lookup(id) == Some(p),
            self.lookup(id) is None,
            self.next_uid == o.next_uid,
            o.values@.len() > 0,
            self.values@ == o.values@.update(p, o.values@.last()).drop_last(),
            forall|j: ArenaId|
                j != id ==> #[trigger] self.lookup(j) == (if o.lookup(j) == Some(
                    o.values@.len() - 1,
                ) {
                    Some(p)
                } else {
                    o.lookup(j)
                }),
        ensures
            forall|j: ArenaId|
                j != id ==> #[trigger] self.spec_get(j) == o.spec_get(j),
            forall|j: ArenaId| o.spec_retired(j) ==> #[trigger] self.spec_retired(j),
    {
        let last = o.values@.len() - 1;
        assert(o.slot_ok(id.idx as int));
        assert(0 <= p < o.values@.len());
        assert forall|j: ArenaId| j != id implies #[trigger] self.spec_get(j) == o.spec_get(
            j,
        ) by {
            if o.lookup(j) is Some {
                let q = o.lookup(j).unwrap();
                assert(o.slot_ok(j.idx as int));
                let u = o.values@.update(p, o.values@.last());
                if q == p {
                    lemma_owner_unique(o, j, id);
                    assert(false);
                } else if q == last {
                    assert(self.lookup(j) == Some(p));
                    assert(p < last);
                    assert(self.values@[p] == u[p]);
                    assert(u[p] == o.values@[last]);
                } else {
                    assert(q < last);
                    assert(self.values@[q] == u[q]);
                    assert(u[q] == o.values@[q]);
                }
            }
        }
        assert forall|j: ArenaId| o.spec_retired(j) implies #[trigger] self.spec_retired(j) by {
            assert(j != id);
        }
    }

    /// Removes the value at the given position and returns it, or `None` if
    /// the position is out of range.  Equivalent to resolving the owning ID
    /// with [`id_at`](Arena::id_at) and removing it.
    pub fn remove_at(&mut self, index: usize) -> (r: Option<T>)
        requires
            old(self).wf(),
        ensures
            final(self).wf(),
            final(self).spec_counter() == old(self).spec_counter(),
            final(self).spec_instance() == old(self).spec_instance(),
            final(self).spec_slot_count() == old(self).spec_slot_count(),
            index >= old(self)@.len() ==> r is None && *final(self) == *old(self),
            index < old(self)@.len() ==> ({
                let last = old(self)@.len() - 1;
                &&& r == Some(old(self)@[index as int])
                &&& final(self)@ == old(self)@.update(index as int, old(self)@[last]).drop_last()
                &&& final(self).spec_get(old(self).spec_id_at(index as int).unwrap()) is None
                &&& forall|j: ArenaId|
                    Some(j) != old(self).spec_id_at(index as int)
                        ==> #[trigger] final(self).spec_get(j) == old(self).spec_get(j)
            }),
            forall|j: ArenaId|
                old(self).spec_retired(j) ==> #[trigger] final(self).spec_retired(j),
    {
        let id = match self.id_at(index) {
            Some(id) => id,
            None => {
                return None;
            },
        };
        proof {
            assert(old(self).backref_ok(index as int));
            assert(old(self).lookup(id) == Some(index as int));
        }
        self.remove(id)
    }

    /// Pops the value at the last position off the arena and returns it, or
    /// `None` if the arena is empty.  The owning slot is freed exactly as
    /// by [`remove`](Arena::remove).
    pub fn pop(&mut self) -> (r: Option<T>)
        requires
            old(self).wf(),
        ensures
            final(self).wf(),
            final(self).spec_counter() == old(self).spec_counter(),
            final(self).spec_instance() == old(self).spec_instance(),
            final(self).spec_slot_count() == old(self).spec_slot_count(),
            old(self)@.len() == 0 ==> r is None && *final(self) == *old(self),
            old(self)@.len() > 0 ==> ({
                let last = old(self)@.len() - 1;
                &&& r == Some(old(self)@[last])
                &&& final(self)@ == old(self)@.drop_last()
                &&& forall|j: ArenaId|
                    #[trigger] final(self).spec_get(j) == (if old(self).spec_index_of(j)
                        == Some(last) {
                        None::<T>
                    } else {
                        old(self).spec_get(j)
                    })
                &&& forall|j: ArenaId|
                    #[trigger] final(self).spec_index_of(j) == (if old(self).spec_index_of(j)
                        == Some(last) {
                        None::<int>
                    } else {
                        old(self).spec_index_of(j)
                    })
            }),
            forall|j: ArenaId|
                old(self).spec_retired(j) ==> #[trigger] final(self).spec_retired(j),
    {
        if self.values.is_empty() {
            return None;
        }
        let v = self.values.pop();
        proof {
            assert(old(self).backref_ok(self.values@.len() as int));
        }
        let fs = self.slots[self.values.len()].value_slot;
        let vs = self.slots[fs].value_slot;
        let head = self.first_free;
        self.slots.set(fs, Slot { value_slot: vs, state: State::Free { next_free: head } });
        self.first_free = Some(fs);
        self.free_chain = Ghost(seq![fs as int] + self.free_chain@);
        proof {
            let o = *old(self);
            let n = *self;
            assert(o.slots.len() == o.slots@.len());
            assert(o.values.len() == o.values@.len());
            assert(n.slots@ =~= o.slots@.update(
                fs as int,
                Slot {
                    value_slot: o.slots@[fs as int].value_slot,
                    state: State::Free { next_free: o.first_free },
                },
            ));
            lemma_free_tail(o, n, fs);
            let last = o.values@.len() - 1;
            assert forall|j: ArenaId| #[trigger] n.spec_get(j) == (if o.lookup(j) == Some(last) {
                None::<T>
            } else {
                o.spec_get(j)
            }) by {
                if o.lookup(j) is Some && o.lookup(j).unwrap() != last {
                    assert(o.slot_ok(j.idx as int));
                    assert(n.values@[o.lookup(j).unwrap()] == o.values@[o.lookup(j).unwrap()]);
                }
            }
            assert forall|j: ArenaId| o.spec_retired(j) implies #[trigger] n.spec_retired(j) by {}
        }
        v
    }

    /// Swaps the values at the two given positions without invalidating any
    /// ID: both back-pointers and both owning slots' forward pointers are
    /// updated, generation tags untouched.  Out-of-range positions are a
    /// contract violation.  `i == j` is a no-op.
    #[verifier::rlimit(30)]
    pub fn swap(&mut self, i: usize, j: usize)
        requires
            old(self).wf(),
            i < old(self)@.len(),
            j < old(self)@.len(),
        ensures
            final(self).wf(),
            final(self)@ == old(self)@.update(i as int, old(self)@[j as int]).update(
                j as int,
                old(self)@[i as int],
            ),
            final(self).spec_counter() == old(self).spec_counter(),
            final(self).spec_instance() == old(self).spec_instance(),
            final(self).spec_slot_count() == old(self).spec_slot_count(),
            forall|h: ArenaId| #[trigger] final(self).spec_get(h) == old(self).spec_get(h),
            forall|h: ArenaId|
                #[trigger] final(self).spec_index_of(h) == (if old(self).spec_index_of(h)
                    == Some(i as int) {
                    Some(j as int)
                } else if old(self).spec_index_of(h) == Some(j as int) {
                    Some(i as int)
                } else {
                    old(self).spec_index_of(h)
                }),
            forall|h: ArenaId|
                old(self).spec_retired(h) ==> #[trigger] final(self).spec_retired(h),
    {
        if i == j {
            proof {
                assert(self@ =~= self@.update(i as int, self@[j as int]).update(
                    j as int,
                    self@[i as int],
                ));
            }
            return ;
        }
        proof {
            assert(self.backref_ok(i as int));
            assert(self.backref_ok(j as int));
        }
        let si = self.slots[i].value_slot;
        let sj = self.slots[j].value_slot;
        let a = self.slots[si];
        match a.state {
            State::Used { uid, .. } => {
                self.slots.set(
                    si,
                    Slot { value_slot: a.value_slot, state: State::Used { uid, value: j } },
                );
            },
            State::Free { .. } => unreached(),
        }
        let b = self.slots[sj];
        match b.state {
            State::Used { uid, .. } => {
                self.slots.set(
                    sj,
                    Slot { value_slot: b.value_slot, state: State::Used { uid, value: i } },
                );
            },
            State::Free { .. } => unreached(),
        }
        let c = self.slots[i];
        self.slots.set(i, Slot { value_slot: sj, state: c.state });
        let d = self.slots[j];
        self.slots.set(j, Slot { value_slot: si, state: d.state });
        swap_in_vec(&mut self.values, i, j);
        proof {
            let o = *old(self);
            let n = *self;
            assert(o.slots.len() == o.slots@.len());
            assert(o.values.len() == o.values@.len());
            assert(n.slots@ =~= swap_slots(o, i as int, j as int));
            lemma_swap(o, n, i as int, j as int);
            assert forall|h: ArenaId| o.spec_retired(h) implies #[trigger] n.spec_retired(h) by {}
        }
    }

    /// Swaps the positions of the two values the IDs resolve to, without
    /// invalidating them.  Returns `false` and changes nothing if either ID
    /// does not resolve.
    pub fn swap_positions(&mut self, a: ArenaId, b: ArenaId) -> (r: bool)
        requires
            old(self).wf(),
        ensures
            final(self).wf(),
            final(self).spec_counter() == old(self).spec_counter(),
            final(self).spec_instance() == old(self).spec_instance(),
            final(self).spec_slot_count() == old(self).spec_slot_count(),
            r == (old(self).spec_contains(a) && old(self).spec_contains(b)),
            !r ==> *final(self) == *old(self),
            r ==> ({
                let pa = old(self).spec_index_of(a).unwrap();
                let pb = old(self).spec_index_of(b).unwrap();
                &&& final(self)@ == old(self)@.update(pa, old(self)@[pb]).update(
                    pb,
                    old(self)@[pa],
                )
                &&& forall|h: ArenaId|
                    #[trigger] final(self).spec_get(h) == old(self).spec_get(h)
                &&& forall|h: ArenaId|
                    #[trigger] final(self).spec_index_of(h) == (if old(self).spec_index_of(h)
                        == Some(pa) {
                        Some(pb)
                    } else if old(self).spec_index_of(h) == Some(pb) {
                        Some(pa)
                    } else {
                        old(self).spec_index_of(h)
                    })
            }),
            forall|h: ArenaId|
                old(self).spec_retired(h) ==> #[trigger] final(self).spec_retired(h),
    {
        let pi = match self.index_of(a) {
            Some(x) => x,
            None => {
                return false;
            },
        };
        let pj = match self.index_of(b) {
            Some(x) => x,
            None => {
                return false;
            },
        };
        self.swap(pi, pj);
        true
    }

    /// Empties the value store.  If `clear_slots` is set, the slot table
    /// and the free list are reset entirely; otherwise every slot is
    /// returned to the free list individually, generation tags staying
    /// spent, so the slots are reused by later insertions.
    fn clear_opt(&mut self, clear_slots: bool)
        requires
            old(self).wf(),
        ensures
            final(self).wf(),
            final(self)@.len() == 0,
            final(self).spec_counter() == old(self).spec_counter(),
            final(self).spec_instance() == old(self).spec_instance(),
            final(self).spec_slot_count() == (if clear_slots {
                0
            } else {
                old(self).spec_slot_count()
            }),
            forall|j: ArenaId| #[trigger] final(self).spec_get(j) is None,
            forall|j: ArenaId|
                old(self).spec_retired(j) ==> #[trigger] final(self).spec_retired(j),
    {
        if clear_slots {
            self.slots.clear();
            self.first_free = None;
            self.free_chain = Ghost(Seq::empty());
            self.values.clear();
            return ;
        }
        let ghost o = *old(self);
        proof {
            assert(self.slots.len() == self.slots@.len());
        }
        let n = self.values.len();
        let mut k: usize = 0;
        while k < n
            invariant
                o.inv(),
                o.slots@.len() <= usize::MAX,
                k <= n,
                n == self.values@.len(),
                self.values@ == o.values@,
                self.slots@.len() == o.slots@.len(),
                self.next_uid == o.next_uid,
                self.disc == o.disc,
                forall|p: int|
                    0 <= p < self.slots@.len() ==> #[trigger] self.slots@[p].value_slot
                        == o.slots@[p].value_slot,
                forall|p: int| k <= p < n ==> #[trigger] self.backref_ok(p),
                forall|s: int| 0 <= s < self.slots@.len() ==> #[trigger] self.slot_ok(s),
                forall|s: int|
                    0 <= s < self.slots@.len() && (#[trigger] self.slots@[s].state) is Used
                        ==> self.slots@[s].state->value >= k,
                self.free_chain@.no_duplicates(),
                self.free_chain@.len() == o.free_chain@.len() + k,
                if self.free_chain@.len() == 0 {
                    self.first_free is None
                } else {
                    self.first_free matches Some(h) && h as int == self.free_chain@[0]
                },
                forall|c: int|
                    0 <= c < self.free_chain@.len() ==> #[trigger] self.chain_ok(c),
                forall|s: int|
                    0 <= s < self.slots@.len() && (#[trigger] self.slots@[s].state) is Free
                        ==> self.free_chain@.contains(s),
            decreases n - k,
        {
            let ghost pre = *self;
            proof {
                assert(pre.backref_ok(k as int));
            }
            let fs = self.slots[k].value_slot;
            let vs = self.slots[fs].value_slot;
            let head = self.first_free;
            self.slots.set(fs, Slot { value_slot: vs, state: State::Free { next_free: head } });
            self.first_free = Some(fs);
            self.free_chain = Ghost(seq![fs as int] + self.free_chain@);
            k = k + 1;
            proof {
                let cur = *self;
                assert(cur.slots@ =~= pre.slots@.update(
                    fs as int,
                    Slot {
                        value_slot: pre.slots@[fs as int].value_slot,
                        state: State::Free { next_free: pre.first_free },
                    },
                ));
                lemma_push_free_chain(pre, cur, fs);
                assert(pre.slot_ok(fs as int));
                assert forall|p: int| k <= p < n implies #[trigger] cur.backref_ok(p) by {
                    assert(pre.backref_ok(p));
                    let s = pre.slots@[p].value_slot;
                    assert(pre.slot_ok(s as int));
                    assert(s != fs);
                }
                assert forall|s: int| 0 <= s < cur.slots@.len() implies #[trigger] cur.slot_ok(
                    s,
                ) by {
                    if s != fs as int && cur.slots@[s].state is Used {
                        assert(pre.slot_ok(s));
                        let v = pre.slots@[s].state->value;
                        assert(cur.slots@[v as int].value_slot == pre.slots@[v as int].value_slot);
                    }
                }
                assert forall|s: int|
                    0 <= s < cur.slots@.len() && (#[trigger] cur.slots@[s].state)
                        is Used implies cur.slots@[s].state->value >= k by {
                    assert(s != fs as int);
                    assert(pre.slots@[s].state->value != k - 1) by {
                        if pre.slots@[s].state->value == k - 1 {
                            assert(pre.slot_ok(s));
                            assert(pre.slots@[k - 1].value_slot == s);
                        }
                    }
                }
            }
        }
        let ghost before = *self;
        self.values.clear();
        proof {
            let cur = *self;
            assert forall|p: int| 0 <= p < cur.values@.len() implies #[trigger] cur.backref_ok(
                p,
            ) by {}
            assert forall|s: int| 0 <= s < cur.slots@.len() implies #[trigger] cur.slot_ok(
                s,
            ) by {
                if cur.slots@[s].state is Used {
                    assert(before.slot_ok(s));
                    assert(before.slots@[s].state->value < n);
                    assert(before.slots@[s].state->value >= n);
                    assert(false);
                }
            }
            assert forall|c: int| 0 <= c < cur.free_chain@.len() implies #[trigger] cur.chain_ok(
                c,
            ) by {
                assert(before.chain_ok(c));
            }
            assert(cur.inv());
            assert forall|j: ArenaId| #[trigger] cur.spec_get(j) is None by {
                if cur.lookup(j) is Some {
                    assert(cur.slots@[j.idx as int].state is Used);
                    assert(cur.slot_ok(j.idx as int));
                    assert(false);
                }
            }
        }
    }

    /// Clears all values from the arena, keeping (and freeing) every slot,
    /// which later insertions will reuse.
    pub fn clear(&mut self)
        requires
            old(self).wf(),
        ensures
            final(self).wf(),
            final(self)@.len() == 0,
            final(self).spec_counter() == old(self).spec_counter(),
            final(self).spec_instance() == old(self).spec_instance(),
            final(self).spec_slot_count() == old(self).spec_slot_count(),
            forall|j: ArenaId| #[trigger] final(self).spec_get(j) is None,
            forall|j: ArenaId|
                old(self).spec_retired(j) ==> #[trigger] final(self).spec_retired(j),
    {
        self.clear_opt(false);
    }

    /// Clears all values and all slots from the arena.  The generation
    /// counter keeps running, so IDs issued before the clear still fail
    /// rather than alias later values.
    pub fn clear_all(&mut self)
        requires
            old(self).wf(),
        ensures
            final(self).wf(),
            final(self)@.len() == 0,
            final(self).spec_counter() == old(self).spec_counter(),
            final(self).spec_instance() == old(self).spec_instance(),
            final(self).spec_slot_count() == 0,
            forall|j: ArenaId| #[trigger] final(self).spec_get(j) is None,
            forall|j: ArenaId|
                old(self).spec_retired(j) ==> #[trigger] final(self).spec_retired(j),
    {
        self.clear_opt(true);
    }

    /// Builds an arena owning the given values: consecutive generation
    /// tags `0..n` are assigned in position order, with no free slots, and
    /// the running counter continues from `n`.
    pub fn from_vec(values: Vec<T>) -> (r: Arena<T>)
        ensures
            r.wf(),
            r@ == values@,
            r.spec_counter() == values@.len(),
            r.spec_slot_count() == values@.len(),
            forall|p: int|
                0 <= p < values@.len() ==> #[trigger] r.spec_id_at(p) == Some(
                    r.handle_for(p as u64, p as usize),
                ),
    {
        let n = values.len();
        let mut slots: Vec<Slot> = Vec::new();
        let mut i: usize = 0;
        while i < n
            invariant
                i <= n,
                slots@.len() == i,
                forall|q: int|
                    0 <= q < i ==> #[trigger] slots@[q] == (Slot {
                        value_slot: q as usize,
                        state: State::Used { uid: q as u64, value: q as usize },
                    }),
            decreases n - i,
        {
            slots.push(Slot { value_slot: i, state: State::Used { uid: i as u64, value: i } });
            i = i + 1;
        }
        let r = Arena {
            values,
            slots,
            next_uid: n as u64,
            first_free: None,
            disc: fresh_discriminator(),
            free_chain: Ghost(Seq::empty()),
        };
        proof {
            assert forall|p: int| 0 <= p < r.values@.len() implies #[trigger] r.backref_ok(p) by {
                assert(r.slots@[p] == (Slot {
                    value_slot: p as usize,
                    state: State::Used { uid: p as u64, value: p as usize },
                }));
            }
            assert forall|s: int| 0 <= s < r.slots@.len() implies #[trigger] r.slot_ok(s) by {
                assert(r.slots@[s] == (Slot {
                    value_slot: s as usize,
                    state: State::Used { uid: s as u64, value: s as usize },
                }));
            }
            assert(r.inv());
        }
        r
    }

    /// Discards the slot table and returns the arena's plain vector of
    /// values, in position order.
    pub fn to_vec(self) -> (r: Vec<T>)
        ensures
            r@ == self@,
    {
        self.values
    }

    /// Extracts a mutable slice containing all the arena's values, for
    /// in-place modification.  Re-arranging values through this slice does
    /// not update the slot table, so it silently changes which value each
    /// ID resolves to; position bookkeeping itself stays intact.
    pub fn as_mut_slice(&mut self) -> (r: &mut [T])
        requires
            old(self).wf(),
        ensures
            r@ == old(self)@,
            final(self)@ == final(r)@,
            final(r)@.len() == old(self)@.len() ==> final(self).wf(),
            final(self).spec_counter() == old(self).spec_counter(),
            final(self).spec_instance() == old(self).spec_instance(),
            final(self).spec_slot_count() == old(self).spec_slot_count(),
            forall|id: ArenaId|
                #[trigger] final(self).spec_index_of(id) == old(self).spec_index_of(id),
    {
        proof {
            let o = *self;
            assert forall|n: Arena<T>|
                #![trigger n.wf()]
                (n.slots@ == o.slots@ && n.values@.len() == o.values@.len() && n.next_uid
                    == o.next_uid && n.disc == o.disc && n.first_free == o.first_free
                    && n.free_chain@ == o.free_chain@) implies (n.inv() && forall|j: ArenaId|
                #[trigger] n.lookup(j) == o.lookup(j)) by {
                lemma_inv_values_irrelevant(o, n);
            }
        }
        self.values.as_mut_slice()
    }

    /// Returns a mutable reference to the value assigned to the ID, or
    /// `None` (changing nothing) if the ID does not resolve.
    pub fn get_mut(&mut self, id: ArenaId) -> (r: Option<&mut T>)
        requires
            old(self).wf(),
        ensures
            r is Some <==> old(self).spec_get(id) is Some,
            r is None ==> *final(self) == *old(self),
            r is Some ==> ({
                let p = old(self).spec_index_of(id).unwrap();
                &&& *r.unwrap() == old(self)@[p]
                &&& final(self)@ == old(self)@.update(p, *final(r.unwrap()))
                &&& final(self).wf()
                &&& final(self).spec_counter() == old(self).spec_counter()
                &&& final(self).spec_instance() == old(self).spec_instance()
                &&& final(self).spec_slot_count() == old(self).spec_slot_count()
                &&& final(self).spec_get(id) == Some(*final(r.unwrap()))
                &&& forall|j: ArenaId|
                    #[trigger] final(self).spec_index_of(j) == old(self).spec_index_of(j)
                &&& forall|j: ArenaId|
                    j != id ==> #[trigger] final(self).spec_get(j) == old(self).spec_get(j)
            }),
    {
        if id.disc != self.disc {
            return None;
        }
        if id.idx >= self.slots.len() {
            return None;
        }
        let pos = match &self.slots[id.idx].state {
            State::Used { uid, value } => {
                if *uid == id.uid {
                    *value
                } else {
                    return None;
                }
            },
            State::Free { .. } => {
                return None;
            },
        };
        proof {
            assert(self.slot_ok(id.idx as int));
        }
        proof {
            let o = *self;
            assert forall|n: Arena<T>|
                #![trigger n.wf()]
                (n.slots@ == o.slots@ && n.values@.len() == o.values@.len() && n.next_uid
                    == o.next_uid && n.disc == o.disc && n.first_free == o.first_free
                    && n.free_chain@ == o.free_chain@ && (forall|q: int|
                    0 <= q < o.values@.len() && q != pos as int ==> n.values@[q]
                        == o.values@[q])) implies (n.inv() && n.spec_get(id) == Some(
                n.values@[pos as int],
            ) && (forall|j: ArenaId| #[trigger] n.lookup(j) == o.lookup(j)) && (forall|j: ArenaId|
                j != id ==> #[trigger] n.spec_get(j) == o.spec_get(j))) by {
                lemma_value_update_glue(o, n, id, pos as int);
            }
        }
        let r = vstd::std_specs::vec::vec_index_mut(&mut self.values, pos);
        Some(r)
    }
}

/// Replacing the two values two distinct IDs resolve to, in place, changes
/// what those two IDs find and nothing else.
proof fn lemma_two_update_glue<T>(
    o: Arena<T>,
    n: Arena<T>,
    ida: ArenaId,
    idb: ArenaId,
    pa: int,
    pb: int,
)
    requires
        o.inv(),
        o.lookup(ida) == Some(pa),
        o.lookup(idb) == Some(pb),
        ida != idb,
        n.slots@ == o.slots@,
        n.values@.len() == o.values@.len(),
        n.next_uid == o.next_uid,
        n.disc == o.disc,
        n.first_free == o.first_free,
        n.free_chain@ == o.free_chain@,
        forall|q: int|
            0 <= q < o.values@.len() && q != pa && q != pb ==> n.values@[q] == o.values@[q],
    ensures
        n.inv(),
        forall|j: ArenaId| #[trigger] n.lookup(j) == o.lookup(j),
        forall|j: ArenaId|
            j != ida && j != idb ==> #[trigger] n.spec_get(j) == o.spec_get(j),
        n.spec_get(ida) == Some(n.values@[pa]),
        n.spec_get(idb) == Some(n.values@[pb]),
{
    lemma_inv_values_irrelevant(o, n);
    assert(o.slot_ok(ida.idx as int));
    assert(o.slot_ok(idb.idx as int));
    assert forall|j: ArenaId| j != ida && j != idb implies #[trigger] n.spec_get(j)
        == o.spec_get(j) by {
        if o.lookup(j) is Some {
            let q = o.lookup(j).unwrap();
            assert(o.slot_ok(j.idx as int));
            if q == pa {
                lemma_owner_unique(o, j, ida);
                assert(false);
            }
            if q == pb {
                lemma_owner_unique(o, j, idb);
                assert(false);
            }
            assert(n.values@[q] == o.values@[q]);
        }
    }
}

impl<T> Arena<T> {
    /// Returns the pair of mutable references corresponding to the pair of
    /// IDs, each `None` if its ID does not resolve.  The two IDs must not
    /// alias one live value: calling this with the same live ID twice is a
    /// contract violation, since it would hand out two mutable references
    /// to one position.
    #[verifier::rlimit(100)]
    #[verifier::spinoff_prover]
    pub fn get2_mut(&mut self, a: ArenaId, b: ArenaId) -> (r: (Option<&mut T>, Option<&mut T>))
        requires
            old(self).wf(),
            a == b ==> old(self).spec_get(a) is None,
        ensures
            r.0 is Some <==> old(self).spec_contains(a),
            r.1 is Some <==> old(self).spec_contains(b),
            final(self).wf(),
            final(self)@.len() == old(self)@.len(),
            final(self).spec_counter() == old(self).spec_counter(),
            final(self).spec_instance() == old(self).spec_instance(),
            final(self).spec_slot_count() == old(self).spec_slot_count(),
            forall|j: ArenaId|
                #[trigger] final(self).spec_index_of(j) == old(self).spec_index_of(j),
            forall|j: ArenaId|
                j != a && j != b ==> #[trigger] final(self).spec_get(j) == old(self).spec_get(
                    j,
                ),
            r.0 matches Some(va) ==> final(self).spec_get(a) == Some(*final(va))
                && *va == old(self)@[old(self).spec_index_of(a).unwrap()],
            r.1 matches Some(vb) ==> final(self).spec_get(b) == Some(*final(vb))
                && *vb == old(self)@[old(self).spec_index_of(b).unwrap()],
            r.0 is None ==> final(self).spec_get(a) == old(self).spec_get(a),
            r.1 is None ==> final(self).spec_get(b) == old(self).spec_get(b),
    {
        let pa_opt = self.index_of(a);
        let pb_opt = self.index_of(b);
        match (pa_opt, pb_opt) {
            (Some(pa), Some(pb)) => {
                proof {
                    if a == b {
                        assert(false);
                    }
                    if pa == pb {
                        lemma_owner_unique(*self, a, b);
                        assert(false);
                    }
                    let o = *self;
                    assert forall|n: Arena<T>|
                        #![trigger n.wf()]
                        (n.slots@ == o.slots@ && n.values@.len() == o.values@.len()
                            && n.next_uid == o.next_uid && n.disc == o.disc && n.first_free
                            == o.first_free && n.free_chain@ == o.free_chain@ && (forall|q: int|
                            0 <= q < o.values@.len() && q != pa as int && q != pb as int
                                ==> n.values@[q] == o.values@[q])) implies (n.inv()
                        && n.spec_get(a) == Some(n.values@[pa as int]) && n.spec_get(b) == Some(
                        n.values@[pb as int],
                    ) && (forall|j: ArenaId| #[trigger] n.lookup(j) == o.lookup(j)) && (
                    forall|j: ArenaId|
                        j != a && j != b ==> #[trigger] n.spec_get(j) == o.spec_get(j))) by {
                        lemma_two_update_glue(o, n, a, b, pa as int, pb as int);
                    }
                }
                let vs = self.values.as_mut_slice();
                if pa < pb {
                    let (lo, hi) = vs.split_at_mut(pb);
                    let (lo1, lo2) = lo.split_at_mut(pa);
                    let _ = lo1;
                    let ra = match lo2.first_mut() {
                        Some(x) => x,
                        None => unreached(),
                    };
                    let rb = match hi.first_mut() {
                        Some(x) => x,
                        None => unreached(),
                    };
                    (Some(ra), Some(rb))
                } else {
                    let (lo, hi) = vs.split_at_mut(pa);
                    let (lo1, lo2) = lo.split_at_mut(pb);
                    let _ = lo1;
                    let rb = match lo2.first_mut() {
                        Some(x) => x,
                        None => unreached(),
                    };
                    let ra = match hi.first_mut() {
                        Some(x) => x,
                        None => unreached(),
                    };
                    (Some(ra), Some(rb))
                }
            },
            (Some(pa), None) => {
                proof {
                    let o = *self;
                    assert forall|n: Arena<T>|
                        #![trigger n.wf()]
                        (n.slots@ == o.slots@ && n.values@.len() == o.values@.len()
                            && n.next_uid == o.next_uid && n.disc == o.disc && n.first_free
                            == o.first_free && n.free_chain@ == o.free_chain@ && (forall|q: int|
                            0 <= q < o.values@.len() && q != pa as int ==> n.values@[q]
                                == o.values@[q])) implies (n.inv() && n.spec_get(a) == Some(
                        n.values@[pa as int],
                    ) && (forall|j: ArenaId| #[trigger] n.lookup(j) == o.lookup(j)) && (
                    forall|j: ArenaId|
                        j != a ==> #[trigger] n.spec_get(j) == o.spec_get(j))) by {
                        lemma_value_update_glue(o, n, a, pa as int);
                    }
                }
                let ra = vstd::std_specs::vec::vec_index_mut(&mut self.values, pa);
                (Some(ra), None)
            },
            (None, Some(pb)) => {
                proof {
                    let o = *self;
                    assert forall|n: Arena<T>|
                        #![trigger n.wf()]
                        (n.slots@ == o.slots@ && n.values@.len() == o.values@.len()
                            && n.next_uid == o.next_uid && n.disc == o.disc && n.first_free
                            == o.first_free && n.free_chain@ == o.free_chain@ && (forall|q: int|
                            0 <= q < o.values@.len() && q != pb as int ==> n.values@[q]
                                == o.values@[q])) implies (n.inv() && n.spec_get(b) == Some(
                        n.values@[pb as int],
                    ) && (forall|j: ArenaId| #[trigger] n.lookup(j) == o.lookup(j)) && (
                    forall|j: ArenaId|
                        j != b ==> #[trigger] n.spec_get(j) == o.spec_get(j))) by {
                        lemma_value_update_glue(o, n, b, pb as int);
                    }
                }
                let rb = vstd::std_specs::vec::vec_index_mut(&mut self.values, pb);
                (None, Some(rb))
            },
            (None, None) => (None, None),
        }
    }
}

impl<T: Clone> Arena<T> {
    /// Adds a clone of every value in the slice to the arena, in order,
    /// assigning each a fresh ID.
    pub fn extend_from_slice(&mut self, other: &[T])
        requires
            old(self).wf(),
            old(self).spec_counter() + other@.len() <= u64::MAX,
        ensures
            final(self).wf(),
            final(self)@.len() == old(self)@.len() + other@.len(),
            forall|q: int| 0 <= q < old(self)@.len() ==> final(self)@[q] == old(self)@[q],
            forall|q: int|
                0 <= q < other@.len() ==> cloned::<T>(
                    other@[q],
                    #[trigger] final(self)@[old(self)@.len() + q],
                ),
            final(self).spec_counter() == old(self).spec_counter() + other@.len(),
            final(self).spec_instance() == old(self).spec_instance(),
            forall|id: ArenaId|
                id.gen_tag() < old(self).spec_counter() ==> #[trigger] final(self).spec_get(id)
                    == old(self).spec_get(id),
            forall|id: ArenaId|
                old(self).spec_retired(id) ==> #[trigger] final(self).spec_retired(id),
    {
        let n = other.len();
        let mut q: usize = 0;
        while q < n
            invariant
                self.wf(),
                n == other@.len(),
                q <= n,
                old(self).spec_counter() + other@.len() <= u64::MAX,
                self.spec_counter() == old(self).spec_counter() + q,
                self.spec_instance() == old(self).spec_instance(),
                self@.len() == old(self)@.len() + q,
                forall|r: int| 0 <= r < old(self)@.len() ==> self@[r] == old(self)@[r],
                forall|r: int|
                    0 <= r < q ==> cloned::<T>(
                        other@[r],
                        #[trigger] self@[old(self)@.len() + r],
                    ),
                forall|id: ArenaId|
                    id.gen_tag() < old(self).spec_counter() ==> #[trigger] self.spec_get(id)
                        == old(self).spec_get(id),
                forall|id: ArenaId|
                    old(self).spec_retired(id) ==> #[trigger] self.spec_retired(id),
            decreases n - q,
        {
            let ghost pre = *self;
            let v = other[q].clone();
            let id = self.insert(v);
            proof {
                assert(id.gen_tag() == pre.spec_counter());
                assert forall|j: ArenaId|
                    j.gen_tag() < old(self).spec_counter() implies #[trigger] self.spec_get(j)
                    == old(self).spec_get(j) by {
                    assert(j != id);
                }
            }
            q = q + 1;
        }
    }
}

} // verus!
