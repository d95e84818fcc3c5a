//! The arena's global laws, provable from the operations' contracts and
//! the well-formedness invariant alone.
//!
//! Two further laws are stated directly on the operations themselves:
//! *handle stability* (every mutating operation's `ensures` says that the
//! IDs it does not target keep resolving to the same values), and
//! *stale-handle rejection* (every mutating operation's `ensures` says
//! that retired IDs stay retired, so an ID whose value was removed keeps
//! failing even when its slot index is reused).

use vstd::prelude::*;

use crate::arena::Arena;
use crate::arena::lemma_handle;
use crate::arena::lemma_model;
use crate::arena::lemma_owner_unique;
use crate::handle::ArenaId;

verus! {

/// Dual-mapping consistency, one direction: every live position is owned
/// by exactly the ID that resolves back to it.  The ID returned by
/// [`Arena::id_at`] for a live position `p` round-trips through
/// [`Arena::index_of`] to `p`, and fetches the value stored at `p`.
pub proof fn lemma_dual_mapping<T>(a: Arena<T>, p: int)
    requires
        a.wf(),
        0 <= p < a@.len(),
    ensures
        a.spec_id_at(p) matches Some(h) && a.spec_index_of(h) == Some(p) && a.spec_get(h)
            == Some(a@[p]),
{
    lemma_model(a);
    assert(a.backref_ok(p));
    let s = a.slots@[p].value_slot;
    assert(a.slot_ok(s as int));
    let h = a.owner_at(p).unwrap();
    lemma_handle(h);
    assert(a.lookup(h) == Some(p));
}

/// Dual-mapping consistency, the other direction: the position a live ID
/// resolves to is owned by that very ID, and holds that ID's value.
pub proof fn lemma_index_of_id_at<T>(a: Arena<T>, id: ArenaId)
    requires
        a.wf(),
        a.spec_index_of(id) is Some,
    ensures
        a.spec_id_at(a.spec_index_of(id).unwrap()) == Some(id),
        a.spec_get(id) == Some(a@[a.spec_index_of(id).unwrap()]),
        0 <= a.spec_index_of(id).unwrap() < a@.len(),
{
    lemma_model(a);
    lemma_handle(id);
    assert(a.slot_ok(id.idx as int));
    let p = a.lookup(id).unwrap();
    assert(a.slots@[p].value_slot == id.idx);
    assert(a.owner_at(p) == Some(id));
}

/// Every live ID was minted by this instance, and its generation tag has
/// been spent: it is below the running counter.  Together with the
/// counter's strict growth at every insertion, this is why a removed ID can
/// never equal an ID issued later, even for the same slot index.
pub proof fn lemma_live_tag_below_counter<T>(a: Arena<T>, id: ArenaId)
    requires
        a.wf(),
        a.spec_contains(id),
    ensures
        id.gen_tag() < a.spec_counter(),
        id.instance() == a.spec_instance(),
{
    lemma_model(a);
    lemma_handle(id);
    assert(a.slot_ok(id.idx as int));
}

/// Two distinct live IDs always resolve to distinct positions: no two IDs
/// alias one value.
pub proof fn lemma_distinct_ids_distinct_positions<T>(a: Arena<T>, j1: ArenaId, j2: ArenaId)
    requires
        a.wf(),
        a.spec_contains(j1),
        a.spec_contains(j2),
        j1 != j2,
    ensures
        a.spec_index_of(j1) != a.spec_index_of(j2),
{
    lemma_model(a);
    if a.lookup(j1) == a.lookup(j2) {
        lemma_owner_unique(a, j1, j2);
    }
}

} // verus!
