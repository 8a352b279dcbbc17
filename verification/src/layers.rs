//! Allocation of isolated render channels.
//!
//! Every embedded renderable draws on its own channel so its off-screen pass
//! never bleeds into, nor is occluded by, unrelated scene content. The
//! manager keeps three tables: owner reservations (at most one channel per
//! owner, all distinct), the channel sets claimed by arbitrary external
//! entities with a per-channel reference count, and the set of owners marked
//! for reassignment because an external claim collided with their channel.
//!
//! Channel selection is deterministic: the lowest channel at least 1 that is
//! neither externally referenced nor reserved by another owner wins.

use vstd::prelude::*;

verus! {

/// Capacity bound on each table; keeps channel arithmetic inside `usize`.
pub const LAYER_TABLE_CAP: usize = 0x1000000;

/// One owner's channel reservation.
#[derive(Clone, Copy, Debug, PartialEq, Eq, Structural)]
pub struct OwnerLayer {
    pub owner: u64,
    pub layer: usize,
}

/// One external entity's claimed channel set.
#[derive(Clone, Debug)]
pub struct ExternalLayers {
    pub entity: u64,
    pub layers: Vec<usize>,
}

/// Reference count of one externally referenced channel.
#[derive(Clone, Copy, Debug, PartialEq, Eq, Structural)]
pub struct LayerUse {
    pub layer: usize,
    pub count: usize,
}

/// Some entry reserves for this owner.
pub open spec fn ol_has(s: Seq<OwnerLayer>, owner: u64) -> bool {
    exists|i: int| 0 <= i < s.len() && s[i].owner == owner
}

/// The index of this owner's entry (meaningful under `ol_has`).
pub open spec fn ol_index(s: Seq<OwnerLayer>, owner: u64) -> int {
    choose|i: int| 0 <= i < s.len() && s[i].owner == owner
}

/// The channel this owner reserves (meaningful under `ol_has`).
pub open spec fn ol_layer(s: Seq<OwnerLayer>, owner: u64) -> usize {
    s[ol_index(s, owner)].layer
}

/// Owners appear at most once.
pub open spec fn ol_unique(s: Seq<OwnerLayer>) -> bool {
    forall|i: int, j: int| 0 <= i < j < s.len() ==> s[i].owner != s[j].owner
}

/// Some entry counts uses of this channel.
pub open spec fn lu_has(s: Seq<LayerUse>, layer: usize) -> bool {
    exists|i: int| 0 <= i < s.len() && s[i].layer == layer
}

/// The index of this channel's count entry (meaningful under `lu_has`).
pub open spec fn lu_index(s: Seq<LayerUse>, layer: usize) -> int {
    choose|i: int| 0 <= i < s.len() && s[i].layer == layer
}

/// Channels appear at most once in the count table.
pub open spec fn lu_unique(s: Seq<LayerUse>) -> bool {
    forall|i: int, j: int| 0 <= i < j < s.len() ==> s[i].layer != s[j].layer
}

/// How often this channel is externally referenced, by the count table.
pub open spec fn count_of(s: Seq<LayerUse>, layer: usize) -> nat {
    if lu_has(s, layer) {
        s[lu_index(s, layer)].count as nat
    } else {
        0
    }
}

/// Some entry claims channels for this entity.
pub open spec fn ex_has(s: Seq<ExternalLayers>, entity: u64) -> bool {
    exists|i: int| 0 <= i < s.len() && s[i].entity == entity
}

/// The index of this entity's claim entry (meaningful under `ex_has`).
pub open spec fn ex_index(s: Seq<ExternalLayers>, entity: u64) -> int {
    choose|i: int| 0 <= i < s.len() && s[i].entity == entity
}

/// The channel set this entity claims (meaningful under `ex_has`).
pub open spec fn ex_layers(s: Seq<ExternalLayers>, entity: u64) -> Seq<usize> {
    s[ex_index(s, entity)].layers@
}

/// Entities appear at most once.
pub open spec fn ex_unique(s: Seq<ExternalLayers>) -> bool {
    forall|i: int, j: int| 0 <= i < j < s.len() ==> s[i].entity != s[j].entity
}

/// How many external entities hold this channel in their claimed set.
pub open spec fn holders(s: Seq<ExternalLayers>, layer: usize) -> nat
    decreases s.len(),
{
    if s.len() == 0 {
        0
    } else {
        holders(s.drop_last(), layer) + (if s.last().layers@.contains(layer) {
            1nat
        } else {
            0nat
        })
    }
}

/// No more holders than entities.
pub proof fn lemma_holders_le_len(s: Seq<ExternalLayers>, layer: usize)
    ensures
        holders(s, layer) <= s.len(),
    decreases s.len(),
{
    if s.len() > 0 {
        lemma_holders_le_len(s.drop_last(), layer);
    }
}

/// Appending an entry adds its contribution to every channel's holder count.
pub proof fn lemma_holders_push(s: Seq<ExternalLayers>, e: ExternalLayers, layer: usize)
    ensures
        holders(s.push(e), layer) == holders(s, layer) + (if e.layers@.contains(layer) {
            1nat
        } else {
            0nat
        }),
{
    assert(s.push(e).drop_last() =~= s);
    assert(s.push(e).last() == e);
}

/// Removing an entry takes away exactly its contribution.
pub proof fn lemma_holders_remove(s: Seq<ExternalLayers>, i: int, layer: usize)
    requires
        0 <= i < s.len(),
    ensures
        holders(s, layer) == holders(s.remove(i), layer) + (if s[i].layers@.contains(layer) {
            1nat
        } else {
            0nat
        }),
    decreases s.len(),
{
    if i == s.len() - 1 {
        assert(s.remove(i) =~= s.drop_last());
    } else {
        assert(s.remove(i).drop_last() =~= s.drop_last().remove(i));
        assert(s.remove(i).last() == s.last());
        lemma_holders_remove(s.drop_last(), i, layer);
    }
}

/// Owns the channel-assignment tables.
pub struct SpineUiRenderLayerManager {
    /// Channel reserved per owner; owners and channels all distinct.
    pub owner_layers: Vec<OwnerLayer>,
    /// Channel set currently claimed by each external entity.
    pub external_by_entity: Vec<ExternalLayers>,
    /// Reference count per externally referenced channel; entries only
    /// while the count is positive.
    pub external_layer_use: Vec<LayerUse>,
    /// Owners whose channel collided with a fresh external claim.
    pub pending_reassign: Vec<u64>,
}

impl SpineUiRenderLayerManager {
    /// The tables' invariant: distinct keys throughout, distinct owner
    /// channels, channels at least 1 and bounded, counts positive and equal
    /// to the number of external entities actually holding the channel,
    /// pending owners listed once.
    pub open spec fn wf(self) -> bool {
        &&& ol_unique(self.owner_layers@)
        &&& (forall|i: int, j: int|
            0 <= i < j < self.owner_layers@.len() ==> self.owner_layers@[i].layer
                != self.owner_layers@[j].layer)
        &&& (forall|i: int|
            0 <= i < self.owner_layers@.len() ==> 1 <= #[trigger] self.owner_layers@[i].layer <= 2
                * LAYER_TABLE_CAP + 1)
        &&& self.owner_layers@.len() <= LAYER_TABLE_CAP
        &&& lu_unique(self.external_layer_use@)
        &&& (forall|i: int|
            0 <= i < self.external_layer_use@.len() ==> self.external_layer_use@[i].count >= 1
                && self.external_layer_use@[i].layer < usize::MAX - 1)
        &&& self.external_layer_use@.len() <= LAYER_TABLE_CAP
        &&& ex_unique(self.external_by_entity@)
        &&& (forall|i: int|
            0 <= i < self.external_by_entity@.len() ==> (#[trigger] self.external_by_entity@[i]).layers@.no_duplicates())
        &&& self.external_by_entity@.len() <= LAYER_TABLE_CAP
        &&& pending_unique(self.pending_reassign@)
        &&& (forall|l: usize| #[trigger] count_of(self.external_layer_use@, l) == holders(
            self.external_by_entity@,
            l,
        ))
    }

    /// The channel is taken, as far as a search on behalf of `exempt` cares:
    /// externally referenced, or reserved by an owner other than `exempt`.
    pub open spec fn spec_layer_used(self, layer: usize, exempt: Option<u64>) -> bool {
        lu_has(self.external_layer_use@, layer) || exists|i: int|
            0 <= i < self.owner_layers@.len() && Some(self.owner_layers@[i].owner) != exempt
                && self.owner_layers@[i].layer == layer
    }

    /// Every owner whose channel is externally referenced is marked pending.
    pub open spec fn conflicts_marked(self) -> bool {
        forall|i: int|
            0 <= i < self.owner_layers@.len() && lu_has(
                self.external_layer_use@,
                #[trigger] self.owner_layers@[i].layer,
            ) ==> self.pending_reassign@.contains(self.owner_layers@[i].owner)
    }

    /// No owner's channel is externally referenced.
    pub open spec fn no_conflicts(self) -> bool {
        forall|i: int|
            0 <= i < self.owner_layers@.len() ==> !lu_has(
                self.external_layer_use@,
                #[trigger] self.owner_layers@[i].layer,
            )
    }
}

/// Owners appear at most once in the pending list.
pub open spec fn pending_unique(s: Seq<u64>) -> bool {
    forall|i: int, j: int| 0 <= i < j < s.len() ==> s[i] != s[j]
}

/// In a table without repeated channels, entry `i` is what the count lookup
/// for its channel finds.
proof fn lemma_lu_at(s: Seq<LayerUse>, i: int)
    requires
        lu_unique(s),
        0 <= i < s.len(),
    ensures
        lu_has(s, s[i].layer),
        lu_index(s, s[i].layer) == i,
        count_of(s, s[i].layer) == s[i].count,
{
    assert(lu_has(s, s[i].layer));
    let j = lu_index(s, s[i].layer);
    if j < i {
        assert(s[j].layer != s[i].layer);
    } else if j > i {
        assert(s[i].layer != s[j].layer);
    }
}

/// Removing a count entry leaves every other channel's count alone.
proof fn lemma_lu_remove_other(s: Seq<LayerUse>, i: int, l: usize)
    requires
        lu_unique(s),
        0 <= i < s.len(),
        l != s[i].layer,
    ensures
        lu_unique(s.remove(i)),
        count_of(s.remove(i), l) == count_of(s, l),
{
    let t = s.remove(i);
    assert(forall|k: int| 0 <= k < i ==> t[k] == s[k]);
    assert(forall|k: int| i <= k < t.len() ==> t[k] == s[k + 1]);
    if lu_has(s, l) {
        let j = lu_index(s, l);
        lemma_lu_at(s, j);
        let jt = if j < i {
            j
        } else {
            j - 1
        };
        assert(t[jt].layer == l);
        lemma_lu_at(t, jt);
    } else {
        assert(forall|k: int| 0 <= k < t.len() ==> t[k].layer != l);
    }
}

/// Updating a count entry in place leaves every other channel's count alone.
proof fn lemma_lu_update_other(s: Seq<LayerUse>, i: int, e: LayerUse, l: usize)
    requires
        lu_unique(s),
        0 <= i < s.len(),
        e.layer == s[i].layer,
        l != s[i].layer,
    ensures
        lu_unique(s.update(i, e)),
        count_of(s.update(i, e), l) == count_of(s, l),
{
    let t = s.update(i, e);
    if lu_has(s, l) {
        let j = lu_index(s, l);
        lemma_lu_at(s, j);
        assert(t[j].layer == l);
        lemma_lu_at(t, j);
    } else {
        assert(forall|k: int| 0 <= k < t.len() ==> t[k].layer != l);
    }
}

/// Appending a fresh channel's count entry leaves the others alone.
proof fn lemma_lu_push_other(s: Seq<LayerUse>, e: LayerUse, l: usize)
    requires
        lu_unique(s),
        !lu_has(s, e.layer),
        l != e.layer,
    ensures
        lu_unique(s.push(e)),
        count_of(s.push(e), l) == count_of(s, l),
{
    let t = s.push(e);
    if lu_has(s, l) {
        let j = lu_index(s, l);
        lemma_lu_at(s, j);
        assert(t[j].layer == l);
        lemma_lu_at(t, j);
    } else {
        assert(forall|k: int| 0 <= k < t.len() ==> t[k].layer != l);
    }
}

/// Drop one reference to a channel in the count table, removing the entry
/// when the count reaches zero; a channel without an entry stays without one.
fn use_decrement(tbl: &mut Vec<LayerUse>, layer: usize)
    requires
        lu_unique(old(tbl)@),
        forall|i: int|
            0 <= i < old(tbl)@.len() ==> (#[trigger] old(tbl)@[i]).count >= 1
                && old(tbl)@[i].layer < usize::MAX - 1,
    ensures
        lu_unique(final(tbl)@),
        forall|i: int|
            0 <= i < final(tbl)@.len() ==> (#[trigger] final(tbl)@[i]).count >= 1
                && final(tbl)@[i].layer < usize::MAX - 1,
        final(tbl)@.len() <= old(tbl)@.len(),
        count_of(final(tbl)@, layer) == if count_of(old(tbl)@, layer) <= 1 {
            0nat
        } else {
            (count_of(old(tbl)@, layer) - 1) as nat
        },
        forall|l: usize| l != layer ==> count_of(final(tbl)@, l) == count_of(old(tbl)@, l),
{
    let n = tbl.len();
    let mut i: usize = 0;
    while i < n
        invariant
            n == tbl.len(),
            0 <= i <= n,
            forall|k: int| 0 <= k < i ==> tbl@[k].layer != layer,
            tbl@ == old(tbl)@,
            lu_unique(tbl@),
            forall|k: int|
                0 <= k < tbl@.len() ==> (#[trigger] tbl@[k]).count >= 1 && tbl@[k].layer
                    < usize::MAX - 1,
        decreases n - i,
    {
        if tbl[i].layer == layer {
            proof {
                lemma_lu_at(tbl@, i as int);
            }
            let count = tbl[i].count;
            let ghost s = tbl@;
            if count <= 1 {
                tbl.remove(i);
                proof {
                    let t = tbl@;
                    assert forall|k: int| 0 <= k < t.len() implies t[k].layer != layer by {
                        if k < i {
                            assert(t[k] == s[k]);
                        } else {
                            assert(t[k] == s[k + 1]);
                        }
                    }
                    assert(!lu_has(t, layer));
                    assert forall|a: int, b: int|
                        0 <= a < b < t.len() implies t[a].layer != t[b].layer by {
                        if b < i {
                            assert(t[a] == s[a] && t[b] == s[b]);
                        } else if a < i {
                            assert(t[a] == s[a] && t[b] == s[b + 1]);
                        } else {
                            assert(t[a] == s[a + 1] && t[b] == s[b + 1]);
                        }
                    }
                    assert forall|l: usize| l != layer implies count_of(t, l) == count_of(
                        s,
                        l,
                    ) by {
                        lemma_lu_remove_other(s, i as int, l);
                    }
                }
            } else {
                let entry = LayerUse { layer, count: count - 1 };
                tbl[i] = entry;
                proof {
                    let t = tbl@;
                    assert forall|a: int, b: int|
                        0 <= a < b < t.len() implies t[a].layer != t[b].layer by {
                        assert(s[a].layer != s[b].layer);
                    }
                    lemma_lu_at(t, i as int);
                    assert forall|l: usize| l != layer implies count_of(t, l) == count_of(
                        s,
                        l,
                    ) by {
                        lemma_lu_update_other(s, i as int, entry, l);
                    }
                }
            }
            return ;
        }
        i += 1;
    }
    proof {
        assert(!lu_has(tbl@, layer));
    }
}

/// Add one reference to a channel in the count table, creating the entry at
/// count 1 when the channel had none.
fn use_increment(tbl: &mut Vec<LayerUse>, layer: usize)
    requires
        lu_unique(old(tbl)@),
        forall|i: int|
            0 <= i < old(tbl)@.len() ==> (#[trigger] old(tbl)@[i]).count >= 1
                && old(tbl)@[i].layer < usize::MAX - 1,
        layer < usize::MAX - 1,
        count_of(old(tbl)@, layer) < usize::MAX,
    ensures
        lu_unique(final(tbl)@),
        forall|i: int|
            0 <= i < final(tbl)@.len() ==> (#[trigger] final(tbl)@[i]).count >= 1
                && final(tbl)@[i].layer < usize::MAX - 1,
        final(tbl)@.len() <= old(tbl)@.len() + 1,
        final(tbl)@.len() >= old(tbl)@.len(),
        count_of(final(tbl)@, layer) == count_of(old(tbl)@, layer) + 1,
        forall|l: usize| l != layer ==> count_of(final(tbl)@, l) == count_of(old(tbl)@, l),
{
    let n = tbl.len();
    let mut i: usize = 0;
    while i < n
        invariant
            n == tbl.len(),
            0 <= i <= n,
            forall|k: int| 0 <= k < i ==> tbl@[k].layer != layer,
            tbl@ == old(tbl)@,
            lu_unique(tbl@),
            forall|k: int|
                0 <= k < tbl@.len() ==> (#[trigger] tbl@[k]).count >= 1 && tbl@[k].layer
                    < usize::MAX - 1,
            count_of(tbl@, layer) < usize::MAX,
        decreases n - i,
    {
        if tbl[i].layer == layer {
            proof {
                lemma_lu_at(tbl@, i as int);
            }
            let count = tbl[i].count;
            let ghost s = tbl@;
            let entry = LayerUse { layer, count: count + 1 };
            tbl[i] = entry;
            proof {
                let t = tbl@;
                assert forall|a: int, b: int|
                    0 <= a < b < t.len() implies t[a].layer != t[b].layer by {
                    assert(s[a].layer != s[b].layer);
                }
                lemma_lu_at(t, i as int);
                assert forall|l: usize| l != layer implies count_of(t, l) == count_of(s, l) by {
                    lemma_lu_update_other(s, i as int, entry, l);
                }
            }
            return ;
        }
        i += 1;
    }
    proof {
        assert(!lu_has(tbl@, layer));
    }
    let ghost s = tbl@;
    let entry = LayerUse { layer, count: 1 };
    tbl.push(entry);
    proof {
        let t = tbl@;
        assert(t == s.push(entry));
        assert forall|a: int, b: int| 0 <= a < b < t.len() implies t[a].layer != t[b].layer by {
            if b < s.len() {
                assert(t[a] == s[a] && t[b] == s[b]);
            } else {
                assert(t[a] == s[a] && t[b] == entry);
                assert(s[a].layer != layer);
            }
        }
        lemma_lu_at(t, s.len() as int);
        assert forall|l: usize| l != layer implies count_of(t, l) == count_of(s, l) by {
            lemma_lu_push_other(s, entry, l);
        }
    }
}

/// In a table without repeated owners, entry `i` is what the lookup for its
/// owner finds.
pub proof fn lemma_ol_at(s: Seq<OwnerLayer>, i: int)
    requires
        ol_unique(s),
        0 <= i < s.len(),
    ensures
        ol_has(s, s[i].owner),
        ol_index(s, s[i].owner) == i,
        ol_layer(s, s[i].owner) == s[i].layer,
{
    assert(ol_has(s, s[i].owner));
    let j = ol_index(s, s[i].owner);
    if j < i {
        assert(s[j].owner != s[i].owner);
    } else if j > i {
        assert(s[i].owner != s[j].owner);
    }
}

/// Removing an owner's entry leaves every other owner's reservation alone.
proof fn lemma_ol_remove_other(s: Seq<OwnerLayer>, i: int, o: u64)
    requires
        ol_unique(s),
        0 <= i < s.len(),
        o != s[i].owner,
    ensures
        ol_has(s.remove(i), o) == ol_has(s, o),
        ol_has(s, o) ==> ol_layer(s.remove(i), o) == ol_layer(s, o),
{
    let t = s.remove(i);
    assert(forall|k: int| 0 <= k < i ==> t[k] == s[k]);
    assert(forall|k: int| i <= k < t.len() ==> t[k] == s[k + 1]);
    assert forall|a: int, b: int| 0 <= a < b < t.len() implies t[a].owner != t[b].owner by {
        if b < i {
            assert(t[a] == s[a] && t[b] == s[b]);
        } else if a < i {
            assert(t[a] == s[a] && t[b] == s[b + 1]);
        } else {
            assert(t[a] == s[a + 1] && t[b] == s[b + 1]);
        }
    }
    if ol_has(s, o) {
        let j = ol_index(s, o);
        lemma_ol_at(s, j);
        let jt = if j < i {
            j
        } else {
            j - 1
        };
        assert(t[jt].owner == o);
        lemma_ol_at(t, jt);
    } else {
        assert(forall|k: int| 0 <= k < t.len() ==> t[k].owner != o);
    }
}

/// Find the index of an owner's reservation.
fn ol_find(tbl: &Vec<OwnerLayer>, owner: u64) -> (r: Option<usize>)
    ensures
        match r {
            Some(i) => i < tbl@.len() && tbl@[i as int].owner == owner,
            None => !ol_has(tbl@, owner),
        },
{
    let n = tbl.len();
    let mut i: usize = 0;
    while i < n
        invariant
            n == tbl.len(),
            0 <= i <= n,
            forall|k: int| 0 <= k < i ==> tbl@[k].owner != owner,
        decreases n - i,
    {
        if tbl[i].owner == owner {
            return Some(i);
        }
        i += 1;
    }
    None
}

/// Find the index of an entity's claim entry.
fn ex_find(tbl: &Vec<ExternalLayers>, entity: u64) -> (r: Option<usize>)
    ensures
        match r {
            Some(i) => i < tbl@.len() && tbl@[i as int].entity == entity,
            None => !ex_has(tbl@, entity),
        },
{
    let n = tbl.len();
    let mut i: usize = 0;
    while i < n
        invariant
            n == tbl.len(),
            0 <= i <= n,
            forall|k: int| 0 <= k < i ==> tbl@[k].entity != entity,
        decreases n - i,
    {
        if tbl[i].entity == entity {
            return Some(i);
        }
        i += 1;
    }
    None
}

/// Find the position of an owner in the pending list.
fn pending_find(tbl: &Vec<u64>, owner: u64) -> (r: Option<usize>)
    ensures
        match r {
            Some(i) => i < tbl@.len() && tbl@[i as int] == owner,
            None => !tbl@.contains(owner),
        },
{
    let n = tbl.len();
    let mut i: usize = 0;
    while i < n
        invariant
            n == tbl.len(),
            0 <= i <= n,
            forall|k: int| 0 <= k < i ==> tbl@[k] != owner,
        decreases n - i,
    {
        if tbl[i] == owner {
            return Some(i);
        }
        i += 1;
    }
    None
}

/// A run of channels that are all taken cannot be longer than the two tables
/// holding them.
proof fn lemma_lowest_free_bound(m: SpineUiRenderLayerManager, exempt: Option<u64>, r: usize)
    requires
        r >= 1,
        forall|l: usize| 1 <= l < r ==> m.spec_layer_used(l, exempt),
    ensures
        r <= m.owner_layers@.len() + m.external_layer_use@.len() + 1,
{
    broadcast use vstd::seq_lib::seq_to_set_is_finite;

    let ol_vals = m.owner_layers@.map_values(|e: OwnerLayer| e.layer as int);
    let lu_vals = m.external_layer_use@.map_values(|e: LayerUse| e.layer as int);
    let ol_set = ol_vals.to_set();
    let lu_set = lu_vals.to_set();
    let taken = vstd::set_lib::set_int_range(1, r as int);
    vstd::set_lib::lemma_int_range(1, r as int);
    assert forall|l: int| taken.contains(l) implies ol_set.union(lu_set).contains(l) by {
        assert(m.spec_layer_used(l as usize, exempt));
        if lu_has(m.external_layer_use@, l as usize) {
            let i = lu_index(m.external_layer_use@, l as usize);
            assert(lu_vals[i] == l);
            assert(lu_vals.contains(l));
        } else {
            let i = choose|i: int|
                0 <= i < m.owner_layers@.len() && Some(m.owner_layers@[i].owner) != exempt
                    && m.owner_layers@[i].layer == l as usize;
            assert(ol_vals[i] == l);
            assert(ol_vals.contains(l));
        }
    }
    assert(taken.subset_of(ol_set.union(lu_set)));
    ol_vals.lemma_cardinality_of_set();
    lu_vals.lemma_cardinality_of_set();
    vstd::set_lib::lemma_len_union(ol_set, lu_set);
    vstd::set_lib::lemma_len_subset(taken, ol_set.union(lu_set));
    assert(taken.len() == r - 1);
    assert(taken.len() <= ol_set.union(lu_set).len());
    assert(ol_set.len() <= ol_vals.len());
    assert(lu_set.len() <= lu_vals.len());
}

impl SpineUiRenderLayerManager {
    /// An empty manager: nothing reserved, nothing claimed, nothing pending.
    pub fn new() -> (r: SpineUiRenderLayerManager)
        ensures
            r.wf(),
            r.owner_layers@.len() == 0,
            r.external_by_entity@.len() == 0,
            r.external_layer_use@.len() == 0,
            r.pending_reassign@.len() == 0,
            r.conflicts_marked(),
            r.no_conflicts(),
    {
        SpineUiRenderLayerManager {
            owner_layers: Vec::new(),
            external_by_entity: Vec::new(),
            external_layer_use: Vec::new(),
            pending_reassign: Vec::new(),
        }
    }

    /// Whether a channel is taken: externally referenced, or reserved by an
    /// owner other than `exempt`.
    fn layer_used(&self, layer: usize, exempt: Option<u64>) -> (r: bool)
        ensures
            r == self.spec_layer_used(layer, exempt),
    {
        let n_lu = self.external_layer_use.len();
        let mut i: usize = 0;
        while i < n_lu
            invariant
                n_lu == self.external_layer_use.len(),
                0 <= i <= n_lu,
                forall|k: int| 0 <= k < i ==> self.external_layer_use@[k].layer != layer,
            decreases n_lu - i,
        {
            if self.external_layer_use[i].layer == layer {
                return true;
            }
            i += 1;
        }
        let n_ol = self.owner_layers.len();
        let mut j: usize = 0;
        while j < n_ol
            invariant
                n_ol == self.owner_layers.len(),
                0 <= j <= n_ol,
                forall|k: int|
                    0 <= k < j ==> !(Some(self.owner_layers@[k].owner) != exempt
                        && self.owner_layers@[k].layer == layer),
                forall|k: int| 0 <= k < self.external_layer_use@.len() ==> self.external_layer_use@[k].layer != layer,
            decreases n_ol - j,
        {
            if self.owner_layers[j].layer == layer {
                let entry_owner = self.owner_layers[j].owner;
                let exempted = match exempt {
                    Some(e) => entry_owner == e,
                    None => false,
                };
                if !exempted {
                    return true;
                }
            }
            j += 1;
        }
        false
    }

    /// The lowest channel at least 1 that is neither externally referenced
    /// nor reserved by an owner other than `exempt`.
    fn find_free_layer(&self, exempt: Option<u64>) -> (r: usize)
        requires
            self.wf(),
        ensures
            1 <= r,
            !self.spec_layer_used(r, exempt),
            forall|l: usize| 1 <= l < r ==> self.spec_layer_used(l, exempt),
            r <= self.owner_layers@.len() + self.external_layer_use@.len() + 1,
    {
        // One past the largest channel either table mentions: certainly free.
        let mut bound: usize = 1;
        let n_lu = self.external_layer_use.len();
        let mut i: usize = 0;
        while i < n_lu
            invariant
                self.wf(),
                n_lu == self.external_layer_use.len(),
                0 <= i <= n_lu,
                1 <= bound <= usize::MAX - 1,
                forall|k: int| 0 <= k < i ==> self.external_layer_use@[k].layer < bound,
            decreases n_lu - i,
        {
            if self.external_layer_use[i].layer >= bound {
                bound = self.external_layer_use[i].layer + 1;
            }
            i += 1;
        }
        let n_ol = self.owner_layers.len();
        let mut j: usize = 0;
        while j < n_ol
            invariant
                self.wf(),
                n_ol == self.owner_layers.len(),
                0 <= j <= n_ol,
                1 <= bound <= usize::MAX - 1,
                forall|k: int| 0 <= k < j ==> self.owner_layers@[k].layer < bound,
                forall|k: int|
                    0 <= k < self.external_layer_use@.len()
                        ==> self.external_layer_use@[k].layer < bound,
            decreases n_ol - j,
        {
            if self.owner_layers[j].layer >= bound {
                bound = self.owner_layers[j].layer + 1;
            }
            j += 1;
        }
        proof {
            assert(!self.spec_layer_used(bound, exempt));
        }
        // Ascending scan: the first free channel wins.
        let mut layer: usize = 1;
        loop
            invariant
                self.wf(),
                1 <= layer <= bound,
                bound <= usize::MAX - 1,
                forall|l: usize| 1 <= l < layer ==> self.spec_layer_used(l, exempt),
                !self.spec_layer_used(bound, exempt),
            decreases bound - layer,
        {
            if !self.layer_used(layer, exempt) {
                proof {
                    lemma_lowest_free_bound(*self, exempt, layer);
                }
                return layer;
            }
            proof {
                assert(layer != bound);
            }
            layer += 1;
        }
    }

    /// The channel reserved for this owner: the existing reservation when
    /// there is one, else the lowest free channel, recorded and returned.
    pub fn allocate_for_owner(&mut self, owner: u64) -> (layer: usize)
        requires
            old(self).wf(),
            old(self).owner_layers@.len() < LAYER_TABLE_CAP,
        ensures
            final(self).wf(),
            ol_has(final(self).owner_layers@, owner),
            ol_layer(final(self).owner_layers@, owner) == layer,
            final(self).external_by_entity@ == old(self).external_by_entity@,
            final(self).external_layer_use@ == old(self).external_layer_use@,
            final(self).pending_reassign@ == old(self).pending_reassign@,
            ol_has(old(self).owner_layers@, owner) ==> final(self).owner_layers@ == old(self).owner_layers@ && layer == ol_layer(old(self).owner_layers@, owner),
            !ol_has(old(self).owner_layers@, owner) ==> {
                &&& final(self).owner_layers@ == old(self).owner_layers@.push(
                    OwnerLayer { owner, layer },
                )
                &&& layer >= 1
                &&& !old(self).spec_layer_used(layer, None)
                &&& forall|l: usize| 1 <= l < layer ==> old(self).spec_layer_used(l, None)
            },
            old(self).conflicts_marked() ==> final(self).conflicts_marked(),
    {
        if let Some(i) = ol_find(&self.owner_layers, owner) {
            proof {
                lemma_ol_at(self.owner_layers@, i as int);
            }
            return self.owner_layers[i].layer;
        }
        let layer = self.find_free_layer(None);
        let ghost s = self.owner_layers@;
        let entry = OwnerLayer { owner, layer };
        self.owner_layers.push(entry);
        proof {
            let t = self.owner_layers@;
            assert(t == s.push(entry));
            assert forall|a: int, b: int| 0 <= a < b < t.len() implies t[a].owner != t[b].owner by {
                if b < s.len() {
                    assert(t[a] == s[a] && t[b] == s[b]);
                } else {
                    assert(t[a] == s[a] && t[b] == entry);
                }
            }
            assert forall|a: int, b: int| 0 <= a < b < t.len() implies t[a].layer != t[b].layer by {
                if b < s.len() {
                    assert(t[a] == s[a] && t[b] == s[b]);
                } else {
                    assert(t[a] == s[a] && t[b] == entry);
                    assert(!(Some(s[a].owner) != Option::<u64>::None && s[a].layer == layer));
                }
            }
            assert forall|k: int| 0 <= k < t.len() implies 1 <= #[trigger] t[k].layer <= 2
                * LAYER_TABLE_CAP + 1 by {
                if k < s.len() {
                    assert(t[k] == s[k]);
                } else {
                    assert(t[k] == entry);
                }
            }
            lemma_ol_at(t, s.len() as int);
            assert(final(self).wf());
            assert forall|i: int|
                0 <= i < t.len() && lu_has(
                    final(self).external_layer_use@,
                    #[trigger] t[i].layer,
                ) && old(self).conflicts_marked() implies final(self).pending_reassign@.contains(
                t[i].owner,
            ) by {
                if i < s.len() {
                    assert(t[i] == s[i]);
                } else {
                    assert(t[i] == entry);
                    assert(!lu_has(old(self).external_layer_use@, layer));
                }
            }
        }
        layer
    }

    /// Drop an owner's reservation and any pending-reassignment mark on it.
    pub fn release_owner(&mut self, owner: u64)
        requires
            old(self).wf(),
        ensures
            final(self).wf(),
            !ol_has(final(self).owner_layers@, owner),
            forall|o: u64|
                o != owner ==> #[trigger] ol_has(final(self).owner_layers@, o) == ol_has(
                    old(self).owner_layers@,
                    o,
                ),
            forall|o: u64|
                o != owner && ol_has(old(self).owner_layers@, o) ==> ol_layer(
                    final(self).owner_layers@,
                    o,
                ) == ol_layer(old(self).owner_layers@, o),
            final(self).external_by_entity@ == old(self).external_by_entity@,
            final(self).external_layer_use@ == old(self).external_layer_use@,
            !final(self).pending_reassign@.contains(owner),
            forall|e: u64|
                e != owner ==> #[trigger] final(self).pending_reassign@.contains(e) == old(self).pending_reassign@.contains(e),
            final(self).owner_layers@.len() <= old(self).owner_layers@.len(),
            final(self).pending_reassign@.len() <= old(self).pending_reassign@.len(),
            old(self).conflicts_marked() ==> final(self).conflicts_marked(),
    {
        if let Some(i) = ol_find(&self.owner_layers, owner) {
            let ghost s = self.owner_layers@;
            self.owner_layers.remove(i);
            proof {
                let t = self.owner_layers@;
                assert(forall|k: int| 0 <= k < i ==> t[k] == s[k]);
                assert(forall|k: int| i <= k < t.len() ==> t[k] == s[k + 1]);
                assert forall|a: int, b: int|
                    0 <= a < b < t.len() implies t[a].owner != t[b].owner && t[a].layer
                    != t[b].layer by {
                    if b < i {
                        assert(t[a] == s[a] && t[b] == s[b]);
                    } else if a < i {
                        assert(t[a] == s[a] && t[b] == s[b + 1]);
                    } else {
                        assert(t[a] == s[a + 1] && t[b] == s[b + 1]);
                    }
                }
                assert(forall|k: int| 0 <= k < t.len() ==> t[k].owner != owner);
                assert(!ol_has(t, owner));
                assert forall|o: u64| o != owner implies #[trigger] ol_has(t, o) == ol_has(
                    s,
                    o,
                ) by {
                    lemma_ol_remove_other(s, i as int, o);
                }
                assert forall|o: u64| o != owner && ol_has(s, o) implies ol_layer(t, o)
                    == ol_layer(s, o) by {
                    lemma_ol_remove_other(s, i as int, o);
                }
            }
        }
        if let Some(i) = pending_find(&self.pending_reassign, owner) {
            let ghost p = self.pending_reassign@;
            self.pending_reassign.remove(i);
            proof {
                let q = self.pending_reassign@;
                assert(forall|k: int| 0 <= k < i ==> q[k] == p[k]);
                assert(forall|k: int| i <= k < q.len() ==> q[k] == p[k + 1]);
                assert forall|a: int, b: int| 0 <= a < b < q.len() implies q[a] != q[b] by {
                    if b < i {
                        assert(q[a] == p[a] && q[b] == p[b]);
                    } else if a < i {
                        assert(q[a] == p[a] && q[b] == p[b + 1]);
                    } else {
                        assert(q[a] == p[a + 1] && q[b] == p[b + 1]);
                    }
                }
                assert(forall|k: int| 0 <= k < q.len() ==> q[k] != owner);
                assert(!q.contains(owner));
                assert forall|e: u64| e != owner implies #[trigger] q.contains(e) == p.contains(
                    e,
                ) by {
                    if p.contains(e) {
                        let k = choose|k: int| 0 <= k < p.len() && p[k] == e;
                        if k < i {
                            assert(q[k] == e);
                        } else if k > i {
                            assert(q[k - 1] == e);
                        }
                    } else {
                        assert(forall|k: int| 0 <= k < q.len() ==> q[k] != e);
                    }
                }
            }
        }
    }

    /// Drain the set of owners awaiting reassignment; each at most once.
    pub fn take_pending_reassignments(&mut self) -> (r: Vec<u64>)
        requires
            old(self).wf(),
        ensures
            final(self).wf(),
            r@ == old(self).pending_reassign@,
            pending_unique(r@),
            final(self).pending_reassign@.len() == 0,
            final(self).owner_layers@ == old(self).owner_layers@,
            final(self).external_by_entity@ == old(self).external_by_entity@,
            final(self).external_layer_use@ == old(self).external_layer_use@,
    {
        let mut out: Vec<u64> = Vec::new();
        core::mem::swap(&mut out, &mut self.pending_reassign);
        out
    }
}

/// In a table without repeated entities, entry `i` is what the lookup for
/// its entity finds.
proof fn lemma_ex_at(s: Seq<ExternalLayers>, i: int)
    requires
        ex_unique(s),
        0 <= i < s.len(),
    ensures
        ex_has(s, s[i].entity),
        ex_index(s, s[i].entity) == i,
        ex_layers(s, s[i].entity) == s[i].layers@,
{
    assert(ex_has(s, s[i].entity));
    let j = ex_index(s, s[i].entity);
    if j < i {
        assert(s[j].entity != s[i].entity);
    } else if j > i {
        assert(s[i].entity != s[j].entity);
    }
}

/// Removing an entity's claim entry leaves every other entity's claim alone.
proof fn lemma_ex_remove_other(s: Seq<ExternalLayers>, i: int, e: u64)
    requires
        ex_unique(s),
        0 <= i < s.len(),
        e != s[i].entity,
    ensures
        ex_has(s.remove(i), e) == ex_has(s, e),
        ex_has(s, e) ==> ex_layers(s.remove(i), e) == ex_layers(s, e),
{
    let t = s.remove(i);
    assert(forall|k: int| 0 <= k < i ==> t[k] == s[k]);
    assert(forall|k: int| i <= k < t.len() ==> t[k] == s[k + 1]);
    assert forall|a: int, b: int| 0 <= a < b < t.len() implies t[a].entity != t[b].entity by {
        if b < i {
            assert(t[a] == s[a] && t[b] == s[b]);
        } else if a < i {
            assert(t[a] == s[a] && t[b] == s[b + 1]);
        } else {
            assert(t[a] == s[a + 1] && t[b] == s[b + 1]);
        }
    }
    if ex_has(s, e) {
        let j = ex_index(s, e);
        lemma_ex_at(s, j);
        let jt = if j < i {
            j
        } else {
            j - 1
        };
        assert(t[jt].entity == e);
        lemma_ex_at(t, jt);
    } else {
        assert(forall|k: int| 0 <= k < t.len() ==> t[k].entity != e);
    }
}

/// A channel in an entity's claimed set has at least that holder.
proof fn lemma_holder_witness(s: Seq<ExternalLayers>, i: int, layer: usize)
    requires
        0 <= i < s.len(),
        s[i].layers@.contains(layer),
    ensures
        holders(s, layer) >= 1,
{
    lemma_holders_remove(s, i, layer);
}

/// Whether a channel list contains a channel.
fn layers_contain(v: &Vec<usize>, x: usize) -> (r: bool)
    ensures
        r == v@.contains(x),
{
    let n = v.len();
    let mut i: usize = 0;
    while i < n
        invariant
            n == v.len(),
            0 <= i <= n,
            forall|k: int| 0 <= k < i ==> v@[k] != x,
        decreases n - i,
    {
        if v[i] == x {
            return true;
        }
        i += 1;
    }
    proof {
        assert(forall|k: int| 0 <= k < v@.len() ==> v@[k] != x);
    }
    false
}

impl SpineUiRenderLayerManager {
    /// Mark every owner whose channel stands in the freshly claimed set as
    /// awaiting reassignment.
    fn mark_conflicts(&mut self, layers: &Vec<usize>)
        requires
            pending_unique(old(self).pending_reassign@),
        ensures
            pending_unique(final(self).pending_reassign@),
            final(self).owner_layers@ == old(self).owner_layers@,
            final(self).external_by_entity@ == old(self).external_by_entity@,
            final(self).external_layer_use@ == old(self).external_layer_use@,
            forall|e: u64|
                old(self).pending_reassign@.contains(e) ==> final(self).pending_reassign@.contains(e),
            forall|i: int|
                0 <= i < old(self).owner_layers@.len() && layers@.contains(
                    #[trigger] old(self).owner_layers@[i].layer,
                ) ==> final(self).pending_reassign@.contains(old(self).owner_layers@[i].owner),
            forall|e: u64|
                #[trigger] final(self).pending_reassign@.contains(e) ==> old(self).pending_reassign@.contains(e) || exists|i: int|
                    0 <= i < old(self).owner_layers@.len() && old(self).owner_layers@[i].owner == e
                        && layers@.contains(old(self).owner_layers@[i].layer),
    {
        let n = self.owner_layers.len();
        let mut i: usize = 0;
        while i < n
            invariant
                n == self.owner_layers.len(),
                0 <= i <= n,
                self.owner_layers@ == old(self).owner_layers@,
                self.external_by_entity@ == old(self).external_by_entity@,
                self.external_layer_use@ == old(self).external_layer_use@,
                pending_unique(self.pending_reassign@),
                forall|e: u64|
                    old(self).pending_reassign@.contains(e) ==> self.pending_reassign@.contains(e),
                forall|k: int|
                    0 <= k < i && layers@.contains(#[trigger] old(self).owner_layers@[k].layer)
                        ==> self.pending_reassign@.contains(old(self).owner_layers@[k].owner),
                forall|e: u64|
                    #[trigger] self.pending_reassign@.contains(e) ==> old(self).pending_reassign@.contains(e) || exists|k: int|
                        0 <= k < old(self).owner_layers@.len() && old(self).owner_layers@[k].owner == e && layers@.contains(
                            old(self).owner_layers@[k].layer,
                        ),
            decreases n - i,
        {
            let entry = self.owner_layers[i];
            if layers_contain(layers, entry.layer) {
                let already = pending_find(&self.pending_reassign, entry.owner);
                if already.is_none() {
                    let ghost q = self.pending_reassign@;
                    self.pending_reassign.push(entry.owner);
                    proof {
                        assert forall|a: int, b: int|
                            0 <= a < b < self.pending_reassign@.len() implies self
                            .pending_reassign@[a] != self.pending_reassign@[b] by {
                            if b < q.len() {
                                assert(self.pending_reassign@[a] == q[a]
                                    && self.pending_reassign@[b] == q[b]);
                            } else {
                                assert(self.pending_reassign@[a] == q[a]);
                                assert(!q.contains(entry.owner));
                            }
                        }
                        assert forall|e: u64|
                            #[trigger] self.pending_reassign@.contains(e) implies q.contains(e)
                            || e == entry.owner by {
                            let k = choose|k: int|
                                0 <= k < self.pending_reassign@.len()
                                    && self.pending_reassign@[k] == e;
                            if k < q.len() {
                                assert(q[k] == e);
                            }
                        }
                        assert(self.pending_reassign@[q.len() as int] == entry.owner);
                        assert(self.pending_reassign@.contains(entry.owner));
                        assert forall|e: u64| q.contains(e) implies #[trigger] self
                            .pending_reassign@.contains(e) by {
                            let k = choose|k: int| 0 <= k < q.len() && q[k] == e;
                            assert(self.pending_reassign@[k] == e);
                        }
                    }
                }
            }
            i += 1;
        }
    }

    /// Record the channel set an external entity claims, dropping references
    /// to its previous claim, counting references to the new one, and
    /// marking every owner whose channel the fresh claim collides with.
    pub fn upsert_external_layers(&mut self, entity: u64, layers: Vec<usize>)
        requires
            old(self).wf(),
            layers@.no_duplicates(),
            forall|i: int| 0 <= i < layers@.len() ==> layers@[i] < usize::MAX - 1,
            old(self).external_by_entity@.len() < LAYER_TABLE_CAP,
            old(self).external_layer_use@.len() + layers@.len() <= LAYER_TABLE_CAP,
        ensures
            final(self).wf(),
            ex_has(final(self).external_by_entity@, entity),
            ex_layers(final(self).external_by_entity@, entity) == layers@,
            forall|e: u64|
                e != entity ==> #[trigger] ex_has(final(self).external_by_entity@, e) == ex_has(
                    old(self).external_by_entity@,
                    e,
                ),
            forall|e: u64|
                e != entity && ex_has(old(self).external_by_entity@, e) ==> ex_layers(
                    final(self).external_by_entity@,
                    e,
                ) == ex_layers(old(self).external_by_entity@, e),
            final(self).owner_layers@ == old(self).owner_layers@,
            final(self).external_layer_use@.len() <= old(self).external_layer_use@.len()
                + layers@.len(),
            final(self).external_by_entity@.len() <= old(self).external_by_entity@.len() + 1,
            forall|l: usize|
                #[trigger] lu_has(final(self).external_layer_use@, l) ==> lu_has(
                    old(self).external_layer_use@,
                    l,
                ) || layers@.contains(l),
            forall|e: u64|
                old(self).pending_reassign@.contains(e) ==> final(self).pending_reassign@.contains(e),
            forall|i: int|
                0 <= i < old(self).owner_layers@.len() && layers@.contains(
                    #[trigger] old(self).owner_layers@[i].layer,
                ) ==> final(self).pending_reassign@.contains(old(self).owner_layers@[i].owner),
            forall|e: u64|
                #[trigger] final(self).pending_reassign@.contains(e) ==> old(self).pending_reassign@.contains(e) || exists|i: int|
                    0 <= i < old(self).owner_layers@.len() && old(self).owner_layers@[i].owner == e && layers@.contains(
                        old(self).owner_layers@[i].layer,
                    ),
            old(self).conflicts_marked() ==> final(self).conflicts_marked(),
    {
        let ghost lu0 = self.external_layer_use@;
        let ghost ex0 = self.external_by_entity@;

        // Drop the references held through the entity's previous claim.
        let ghost mut ex1 = ex0;
        let mut prev_layers: Vec<usize> = Vec::new();
        if let Some(i) = ex_find(&self.external_by_entity, entity) {
            proof {
                lemma_ex_at(ex0, i as int);
            }
            let prev = self.external_by_entity.remove(i);
            prev_layers = prev.layers;
            proof {
                ex1 = self.external_by_entity@;
                assert(ex1 == ex0.remove(i as int));
                assert forall|a: int, b: int|
                    0 <= a < b < ex1.len() implies ex1[a].entity != ex1[b].entity by {
                    if b < i {
                        assert(ex1[a] == ex0[a] && ex1[b] == ex0[b]);
                    } else if a < i {
                        assert(ex1[a] == ex0[a] && ex1[b] == ex0[b + 1]);
                    } else {
                        assert(ex1[a] == ex0[a + 1] && ex1[b] == ex0[b + 1]);
                    }
                }
                assert forall|k: int| 0 <= k < ex1.len() implies ex1[k].entity != entity by {
                    if k < i {
                        assert(ex1[k] == ex0[k]);
                    } else {
                        assert(ex1[k] == ex0[k + 1]);
                    }
                }
                assert(!ex_has(ex1, entity));
                assert forall|l: usize|
                    holders(ex0, l) == holders(ex1, l) + (if prev_layers@.contains(l) {
                        1nat
                    } else {
                        0nat
                    }) by {
                    lemma_holders_remove(ex0, i as int, l);
                }
                assert forall|k: int|
                    0 <= k < ex1.len() implies (#[trigger] ex1[k]).layers@.no_duplicates() by {
                    if k < i {
                        assert(ex1[k] == ex0[k]);
                    } else {
                        assert(ex1[k] == ex0[k + 1]);
                    }
                }
                assert(prev_layers@.no_duplicates());
                assert forall|e: u64| e != entity implies #[trigger] ex_has(ex1, e) == ex_has(
                    ex0,
                    e,
                ) by {
                    lemma_ex_remove_other(ex0, i as int, e);
                }
                assert forall|e: u64|
                    e != entity && #[trigger] ex_has(ex0, e) implies ex_layers(ex1, e)
                    == ex_layers(ex0, e) by {
                    lemma_ex_remove_other(ex0, i as int, e);
                }
            }
        } else {
            proof {
                assert(!ex_has(ex1, entity));
                assert forall|l: usize|
                    holders(ex0, l) == holders(ex1, l) + (if prev_layers@.contains(l) {
                        1nat
                    } else {
                        0nat
                    }) by {
                    assert(!prev_layers@.contains(l));
                }
                assert(ex1 == ex0);
            }
        }

        let np = prev_layers.len();
        let mut k: usize = 0;
        while k < np
            invariant
                np == prev_layers.len(),
                0 <= k <= np,
                prev_layers@.no_duplicates(),
                lu_unique(self.external_layer_use@),
                forall|j: int|
                    0 <= j < self.external_layer_use@.len() ==> (#[trigger] self
                        .external_layer_use@[j]).count >= 1 && self.external_layer_use@[j].layer
                        < usize::MAX - 1,
                self.external_layer_use@.len() <= lu0.len(),
                forall|l: usize|
                    prev_layers@.subrange(0, k as int).contains(l) ==> #[trigger] count_of(
                        self.external_layer_use@,
                        l,
                    ) + 1 == count_of(lu0, l),
                forall|l: usize|
                    !prev_layers@.subrange(0, k as int).contains(l) ==> #[trigger] count_of(
                        self.external_layer_use@,
                        l,
                    ) == count_of(lu0, l),
                forall|l: usize| #[trigger] count_of(lu0, l) == holders(ex0, l),
                forall|l: usize|
                    prev_layers@.contains(l) ==> holders(ex0, l) >= 1,
                forall|l: usize|
                    holders(ex0, l) == holders(ex1, l) + (if prev_layers@.contains(l) {
                        1nat
                    } else {
                        0nat
                    }),
                self.external_by_entity@ == ex1,
                self.owner_layers@ == old(self).owner_layers@,
                self.pending_reassign@ == old(self).pending_reassign@,
            decreases np - k,
        {
            let layer = prev_layers[k];
            let ghost before = self.external_layer_use@;
            proof {
                assert(prev_layers@.contains(layer));
                assert(!prev_layers@.subrange(0, k as int).contains(layer)) by {
                    if prev_layers@.subrange(0, k as int).contains(layer) {
                        let j = choose|j: int|
                            0 <= j < k && prev_layers@.subrange(0, k as int)[j] == layer;
                        assert(prev_layers@[j] == layer);
                        assert(prev_layers@[k as int] == layer);
                    }
                }
                assert(count_of(before, layer) == count_of(lu0, layer));
                assert(count_of(lu0, layer) >= 1);
            }
            use_decrement(&mut self.external_layer_use, layer);
            proof {
                assert(prev_layers@.subrange(0, k as int + 1) =~= prev_layers@.subrange(
                    0,
                    k as int,
                ).push(layer));
                assert forall|l: usize|
                    prev_layers@.subrange(0, k as int + 1).contains(l) implies #[trigger] count_of(
                    self.external_layer_use@,
                    l,
                ) + 1 == count_of(lu0, l) by {
                    if l != layer {
                        assert(prev_layers@.subrange(0, k as int).contains(l));
                    }
                }
                assert forall|l: usize|
                    !prev_layers@.subrange(0, k as int + 1).contains(l) implies #[trigger] count_of(
                    self.external_layer_use@,
                    l,
                ) == count_of(lu0, l) by {
                    assert(prev_layers@.subrange(0, k as int + 1)[k as int] == layer);
                    assert(l != layer);
                    assert(!prev_layers@.subrange(0, k as int).contains(l));
                }
            }
            k += 1;
        }
        let ghost lu1 = self.external_layer_use@;
        proof {
            assert(prev_layers@.subrange(0, np as int) =~= prev_layers@);
            assert forall|l: usize| #[trigger] count_of(lu1, l) == holders(ex1, l) by {
                if prev_layers@.contains(l) {
                    assert(count_of(lu1, l) + 1 == count_of(lu0, l));
                } else {
                    assert(count_of(lu1, l) == count_of(lu0, l));
                }
            }
            assert forall|l: usize| #[trigger] lu_has(lu1, l) implies lu_has(lu0, l) by {
                let j = lu_index(lu1, l);
                lemma_lu_at(lu1, j);
                if !lu_has(lu0, l) {
                    assert(count_of(lu0, l) == 0);
                    if prev_layers@.contains(l) {
                        assert(count_of(lu1, l) + 1 == count_of(lu0, l));
                    } else {
                        assert(count_of(lu1, l) == count_of(lu0, l));
                    }
                }
            }
        }

        // Count the references the new claim introduces.
        let nn = layers.len();
        let mut k2: usize = 0;
        while k2 < nn
            invariant
                nn == layers.len(),
                0 <= k2 <= nn,
                layers@.no_duplicates(),
                forall|i: int| 0 <= i < layers@.len() ==> layers@[i] < usize::MAX - 1,
                lu_unique(self.external_layer_use@),
                forall|j: int|
                    0 <= j < self.external_layer_use@.len() ==> (#[trigger] self
                        .external_layer_use@[j]).count >= 1 && self.external_layer_use@[j].layer
                        < usize::MAX - 1,
                self.external_layer_use@.len() <= lu1.len() + k2,
                lu1.len() <= lu0.len(),
                lu0.len() + layers@.len() <= LAYER_TABLE_CAP,
                forall|l: usize|
                    layers@.subrange(0, k2 as int).contains(l) ==> #[trigger] count_of(
                        self.external_layer_use@,
                        l,
                    ) == count_of(lu1, l) + 1,
                forall|l: usize|
                    !layers@.subrange(0, k2 as int).contains(l) ==> #[trigger] count_of(
                        self.external_layer_use@,
                        l,
                    ) == count_of(lu1, l),
                forall|l: usize| #[trigger] count_of(lu1, l) == holders(ex1, l),
                ex1.len() <= LAYER_TABLE_CAP,
                forall|l: usize|
                    #[trigger] lu_has(self.external_layer_use@, l) ==> lu_has(lu0, l)
                        || layers@.contains(l),
                forall|l: usize| #[trigger] lu_has(lu1, l) ==> lu_has(lu0, l),
                self.external_by_entity@ == ex1,
                self.owner_layers@ == old(self).owner_layers@,
                self.pending_reassign@ == old(self).pending_reassign@,
            decreases nn - k2,
        {
            let layer = layers[k2];
            let ghost before = self.external_layer_use@;
            proof {
                assert(!layers@.subrange(0, k2 as int).contains(layer)) by {
                    if layers@.subrange(0, k2 as int).contains(layer) {
                        let j = choose|j: int|
                            0 <= j < k2 && layers@.subrange(0, k2 as int)[j] == layer;
                        assert(layers@[j] == layer);
                        assert(layers@[k2 as int] == layer);
                    }
                }
                assert(count_of(before, layer) == count_of(lu1, layer));
                lemma_holders_le_len(ex1, layer);
                assert(count_of(before, layer) < usize::MAX);
            }
            use_increment(&mut self.external_layer_use, layer);
            proof {
                assert(layers@.subrange(0, k2 as int + 1) =~= layers@.subrange(0, k2 as int).push(
                    layer,
                ));
                assert forall|l: usize|
                    layers@.subrange(0, k2 as int + 1).contains(l) implies #[trigger] count_of(
                    self.external_layer_use@,
                    l,
                ) == count_of(lu1, l) + 1 by {
                    if l != layer {
                        assert(layers@.subrange(0, k2 as int).contains(l));
                    }
                }
                assert forall|l: usize|
                    !layers@.subrange(0, k2 as int + 1).contains(l) implies #[trigger] count_of(
                    self.external_layer_use@,
                    l,
                ) == count_of(lu1, l) by {
                    assert(layers@.subrange(0, k2 as int + 1)[k2 as int] == layer);
                    assert(l != layer);
                    assert(!layers@.subrange(0, k2 as int).contains(l));
                }
                assert forall|l: usize|
                    #[trigger] lu_has(self.external_layer_use@, l) implies lu_has(lu0, l)
                    || layers@.contains(l) by {
                    if !lu_has(before, l) {
                        assert(count_of(before, l) == 0);
                        if count_of(self.external_layer_use@, l) > 0 {
                            assert(l == layer);
                        } else {
                            let j = lu_index(self.external_layer_use@, l);
                            lemma_lu_at(self.external_layer_use@, j);
                        }
                    }
                }
            }
            k2 += 1;
        }
        let ghost lu2 = self.external_layer_use@;

        // Owners colliding with the fresh claim await reassignment.
        self.mark_conflicts(&layers);

        // Record the claim itself.
        let entry = ExternalLayers { entity, layers };
        self.external_by_entity.push(entry);
        proof {
            let ex2 = self.external_by_entity@;
            assert(ex2 == ex1.push(entry));
            assert forall|a: int, b: int|
                0 <= a < b < ex2.len() implies ex2[a].entity != ex2[b].entity by {
                if b < ex1.len() {
                    assert(ex2[a] == ex1[a] && ex2[b] == ex1[b]);
                } else {
                    assert(ex2[a] == ex1[a] && ex2[b] == entry);
                }
            }
            assert forall|l: usize| #[trigger] count_of(lu2, l) == holders(ex2, l) by {
                lemma_holders_push(ex1, entry, l);
                assert(layers@.subrange(0, layers@.len() as int) =~= layers@);
                if entry.layers@.contains(l) {
                    assert(count_of(lu2, l) == count_of(lu1, l) + 1);
                } else {
                    assert(count_of(lu2, l) == count_of(lu1, l));
                }
            }
            assert forall|k3: int|
                0 <= k3 < ex2.len() implies (#[trigger] ex2[k3]).layers@.no_duplicates() by {
                if k3 < ex1.len() {
                    assert(ex2[k3] == ex1[k3]);
                } else {
                    assert(ex2[k3] == entry);
                }
            }
            lemma_ex_at(ex2, ex1.len() as int);
            assert forall|e: u64| e != entity implies #[trigger] ex_has(ex2, e) == ex_has(
                ex1,
                e,
            ) by {
                if ex_has(ex1, e) {
                    let j = ex_index(ex1, e);
                    lemma_ex_at(ex1, j);
                    assert(ex2[j].entity == e);
                } else {
                    assert forall|k3: int| 0 <= k3 < ex2.len() implies ex2[k3].entity != e by {
                        if k3 < ex1.len() {
                            assert(ex2[k3] == ex1[k3]);
                        } else {
                            assert(ex2[k3] == entry);
                        }
                    }
                }
            }
            assert forall|e: u64|
                e != entity && #[trigger] ex_has(ex1, e) implies ex_layers(ex2, e) == ex_layers(
                ex1,
                e,
            ) by {
                let j = ex_index(ex1, e);
                lemma_ex_at(ex1, j);
                assert(ex2[j].entity == e);
                lemma_ex_at(ex2, j);
            }
            assert forall|e: u64|
                e != entity && #[trigger] ex_has(old(self).external_by_entity@, e) implies
                ex_layers(ex2, e) == ex_layers(old(self).external_by_entity@, e) by {
                assert(ex_has(ex1, e));
                assert(ex_layers(ex1, e) == ex_layers(ex0, e));
                assert(ex_layers(ex2, e) == ex_layers(ex1, e));
            }
            assert(final(self).wf());
            assert(old(self).conflicts_marked() ==> final(self).conflicts_marked()) by {
                if old(self).conflicts_marked() {
                    assert forall|i: int|
                        0 <= i < final(self).owner_layers@.len() && lu_has(
                            final(self).external_layer_use@,
                            #[trigger] final(self).owner_layers@[i].layer,
                        ) implies final(self).pending_reassign@.contains(
                        final(self).owner_layers@[i].owner,
                    ) by {
                        let l = final(self).owner_layers@[i].layer;
                        if !layers@.contains(l) {
                            assert(lu_has(lu0, l));
                        }
                    }
                }
            }
        }
    }

    /// Drop the references held through an entity's claim when the entity
    /// goes away.
    pub fn remove_external_entity(&mut self, entity: u64)
        requires
            old(self).wf(),
        ensures
            final(self).wf(),
            !ex_has(final(self).external_by_entity@, entity),
            forall|e: u64|
                e != entity ==> #[trigger] ex_has(final(self).external_by_entity@, e) == ex_has(
                    old(self).external_by_entity@,
                    e,
                ),
            forall|e: u64|
                e != entity && ex_has(old(self).external_by_entity@, e) ==> ex_layers(
                    final(self).external_by_entity@,
                    e,
                ) == ex_layers(old(self).external_by_entity@, e),
            final(self).owner_layers@ == old(self).owner_layers@,
            final(self).pending_reassign@ == old(self).pending_reassign@,
            final(self).external_layer_use@.len() <= old(self).external_layer_use@.len(),
            final(self).external_by_entity@.len() <= old(self).external_by_entity@.len(),
            forall|l: usize|
                #[trigger] lu_has(final(self).external_layer_use@, l) ==> lu_has(
                    old(self).external_layer_use@,
                    l,
                ),
            old(self).conflicts_marked() ==> final(self).conflicts_marked(),
    {
        let ghost lu0 = self.external_layer_use@;
        let ghost ex0 = self.external_by_entity@;
        let Some(i) = ex_find(&self.external_by_entity, entity) else {
            return ;
        };
        proof {
            lemma_ex_at(ex0, i as int);
        }
        let prev = self.external_by_entity.remove(i);
        let prev_layers = prev.layers;
        let ghost ex1 = self.external_by_entity@;
        proof {
            assert(ex1 == ex0.remove(i as int));
            assert forall|a: int, b: int|
                0 <= a < b < ex1.len() implies ex1[a].entity != ex1[b].entity by {
                if b < i {
                    assert(ex1[a] == ex0[a] && ex1[b] == ex0[b]);
                } else if a < i {
                    assert(ex1[a] == ex0[a] && ex1[b] == ex0[b + 1]);
                } else {
                    assert(ex1[a] == ex0[a + 1] && ex1[b] == ex0[b + 1]);
                }
            }
            assert forall|k: int| 0 <= k < ex1.len() implies ex1[k].entity != entity by {
                if k < i {
                    assert(ex1[k] == ex0[k]);
                } else {
                    assert(ex1[k] == ex0[k + 1]);
                }
            }
            assert(!ex_has(ex1, entity));
            assert forall|l: usize|
                holders(ex0, l) == holders(ex1, l) + (if prev_layers@.contains(l) {
                    1nat
                } else {
                    0nat
                }) by {
                lemma_holders_remove(ex0, i as int, l);
            }
            assert forall|k: int|
                0 <= k < ex1.len() implies (#[trigger] ex1[k]).layers@.no_duplicates() by {
                if k < i {
                    assert(ex1[k] == ex0[k]);
                } else {
                    assert(ex1[k] == ex0[k + 1]);
                }
            }
            assert(prev_layers@.no_duplicates());
            assert forall|e: u64| e != entity implies #[trigger] ex_has(ex1, e) == ex_has(
                ex0,
                e,
            ) by {
                lemma_ex_remove_other(ex0, i as int, e);
            }
            assert forall|e: u64|
                e != entity && #[trigger] ex_has(ex0, e) implies ex_layers(ex1, e) == ex_layers(
                ex0,
                e,
            ) by {
                lemma_ex_remove_other(ex0, i as int, e);
            }
        }
        let np = prev_layers.len();
        let mut k: usize = 0;
        while k < np
            invariant
                np == prev_layers.len(),
                0 <= k <= np,
                prev_layers@.no_duplicates(),
                lu_unique(self.external_layer_use@),
                forall|j: int|
                    0 <= j < self.external_layer_use@.len() ==> (#[trigger] self
                        .external_layer_use@[j]).count >= 1 && self.external_layer_use@[j].layer
                        < usize::MAX - 1,
                self.external_layer_use@.len() <= lu0.len(),
                forall|l: usize|
                    prev_layers@.subrange(0, k as int).contains(l) ==> #[trigger] count_of(
                        self.external_layer_use@,
                        l,
                    ) + 1 == count_of(lu0, l),
                forall|l: usize|
                    !prev_layers@.subrange(0, k as int).contains(l) ==> #[trigger] count_of(
                        self.external_layer_use@,
                        l,
                    ) == count_of(lu0, l),
                forall|l: usize| #[trigger] count_of(lu0, l) == holders(ex0, l),
                forall|l: usize| prev_layers@.contains(l) ==> holders(ex0, l) >= 1,
                forall|l: usize|
                    holders(ex0, l) == holders(ex1, l) + (if prev_layers@.contains(l) {
                        1nat
                    } else {
                        0nat
                    }),
                self.external_by_entity@ == ex1,
                self.owner_layers@ == old(self).owner_layers@,
                self.pending_reassign@ == old(self).pending_reassign@,
            decreases np - k,
        {
            let layer = prev_layers[k];
            let ghost before = self.external_layer_use@;
            proof {
                assert(prev_layers@.contains(layer));
                assert(!prev_layers@.subrange(0, k as int).contains(layer)) by {
                    if prev_layers@.subrange(0, k as int).contains(layer) {
                        let j = choose|j: int|
                            0 <= j < k && prev_layers@.subrange(0, k as int)[j] == layer;
                        assert(prev_layers@[j] == layer);
                        assert(prev_layers@[k as int] == layer);
                    }
                }
                assert(count_of(before, layer) == count_of(lu0, layer));
                assert(count_of(lu0, layer) >= 1);
            }
            use_decrement(&mut self.external_layer_use, layer);
            proof {
                assert(prev_layers@.subrange(0, k as int + 1) =~= prev_layers@.subrange(
                    0,
                    k as int,
                ).push(layer));
                assert forall|l: usize|
                    prev_layers@.subrange(0, k as int + 1).contains(l) implies #[trigger] count_of(
                    self.external_layer_use@,
                    l,
                ) + 1 == count_of(lu0, l) by {
                    if l != layer {
                        assert(prev_layers@.subrange(0, k as int).contains(l));
                    }
                }
                assert forall|l: usize|
                    !prev_layers@.subrange(0, k as int + 1).contains(l) implies #[trigger] count_of(
                    self.external_layer_use@,
                    l,
                ) == count_of(lu0, l) by {
                    assert(prev_layers@.subrange(0, k as int + 1)[k as int] == layer);
                    assert(l != layer);
                    assert(!prev_layers@.subrange(0, k as int).contains(l));
                }
            }
            k += 1;
        }
        proof {
            assert(prev_layers@.subrange(0, np as int) =~= prev_layers@);
            assert forall|l: usize|
                #[trigger] count_of(self.external_layer_use@, l) == holders(ex1, l) by {
                if prev_layers@.contains(l) {
                    assert(count_of(self.external_layer_use@, l) + 1 == count_of(lu0, l));
                } else {
                    assert(count_of(self.external_layer_use@, l) == count_of(lu0, l));
                }
            }
            assert forall|l: usize|
                #[trigger] lu_has(self.external_layer_use@, l) implies lu_has(lu0, l) by {
                let j = lu_index(self.external_layer_use@, l);
                lemma_lu_at(self.external_layer_use@, j);
                if !lu_has(lu0, l) {
                    assert(count_of(lu0, l) == 0);
                    assert(count_of(self.external_layer_use@, l) >= 1);
                    assert(holders(ex0, l) == 0);
                    assert(holders(ex1, l) <= holders(ex0, l));
                }
            }
            assert(final(self).wf());
        }
    }

    /// Move an owner to a fresh conflict-free channel, unless its current
    /// channel already is the lowest free one; returns the old and new
    /// channel when a move happened.
    pub fn reassign_owner_layer(&mut self, owner: u64) -> (r: Option<(usize, usize)>)
        requires
            old(self).wf(),
        ensures
            final(self).wf(),
            final(self).external_by_entity@ == old(self).external_by_entity@,
            final(self).external_layer_use@ == old(self).external_layer_use@,
            final(self).pending_reassign@ == old(self).pending_reassign@,
            match r {
                Option::None => {
                    &&& final(self).owner_layers@ == old(self).owner_layers@
                    &&& (ol_has(old(self).owner_layers@, owner) ==> !old(self).spec_layer_used(
                        ol_layer(old(self).owner_layers@, owner),
                        Some(owner),
                    ))
                },
                Option::Some((prev, next)) => {
                    &&& ol_has(old(self).owner_layers@, owner)
                    &&& prev == ol_layer(old(self).owner_layers@, owner)
                    &&& next != prev
                    &&& !old(self).spec_layer_used(next, Some(owner))
                    &&& (forall|l: usize|
                        1 <= l < next ==> old(self).spec_layer_used(l, Some(owner)))
                    &&& ol_has(final(self).owner_layers@, owner)
                    &&& ol_layer(final(self).owner_layers@, owner) == next
                    &&& final(self).owner_layers@ == old(self).owner_layers@.update(
                        ol_index(old(self).owner_layers@, owner),
                        OwnerLayer { owner, layer: next },
                    )
                    &&& (forall|o: u64|
                        o != owner ==> #[trigger] ol_has(final(self).owner_layers@, o) == ol_has(
                            old(self).owner_layers@,
                            o,
                        ))
                    &&& (forall|o: u64|
                        o != owner && ol_has(old(self).owner_layers@, o) ==> ol_layer(
                            final(self).owner_layers@,
                            o,
                        ) == ol_layer(old(self).owner_layers@, o))
                },
            },
    {
        let Some(i) = ol_find(&self.owner_layers, owner) else {
            return None;
        };
        proof {
            lemma_ol_at(self.owner_layers@, i as int);
        }
        let current = self.owner_layers[i].layer;
        let next = self.find_free_layer(Some(owner));
        if current == next {
            proof {
                assert(self.owner_layers@ == old(self).owner_layers@);
                assert(self.external_layer_use@ == old(self).external_layer_use@);
                assert(ol_layer(old(self).owner_layers@, owner) == current);
                assert(!old(self).spec_layer_used(current, Some(owner)));
            }
            return None;
        }
        let ghost s = self.owner_layers@;
        let entry = OwnerLayer { owner, layer: next };
        self.owner_layers[i] = entry;
        proof {
            let t = self.owner_layers@;
            assert(t == s.update(i as int, entry));
            lemma_lowest_free_bound(*old(self), Some(owner), next);
            assert forall|a: int, b: int|
                0 <= a < b < t.len() implies t[a].owner != t[b].owner by {
                assert(s[a].owner != s[b].owner);
            }
            assert forall|a: int, b: int|
                0 <= a < b < t.len() implies t[a].layer != t[b].layer by {
                if a != i && b != i {
                    assert(t[a] == s[a] && t[b] == s[b]);
                } else if a == i {
                    assert(t[b] == s[b]);
                    assert(!(Some(s[b].owner) != Some(owner) && s[b].layer == next));
                    assert(s[b].owner != s[i as int].owner);
                } else {
                    assert(t[a] == s[a]);
                    assert(!(Some(s[a].owner) != Some(owner) && s[a].layer == next));
                    assert(s[a].owner != s[i as int].owner);
                }
            }
            assert forall|k: int| 0 <= k < t.len() implies 1 <= #[trigger] t[k].layer <= 2
                * LAYER_TABLE_CAP + 1 by {
                if k != i {
                    assert(t[k] == s[k]);
                } else {
                    assert(t[k] == entry);
                }
            }
            lemma_ol_at(t, i as int);
            assert forall|o: u64| o != owner implies #[trigger] ol_has(t, o) == ol_has(
                s,
                o,
            ) by {
                if ol_has(s, o) {
                    let j = ol_index(s, o);
                    lemma_ol_at(s, j);
                    assert(t[j].owner == o);
                } else {
                    assert forall|k: int| 0 <= k < t.len() implies t[k].owner != o by {
                        if k != i {
                            assert(t[k] == s[k]);
                        }
                    }
                }
            }
            assert forall|o: u64|
                o != owner && #[trigger] ol_has(s, o) implies ol_layer(t, o) == ol_layer(
                s,
                o,
            ) by {
                let j = ol_index(s, o);
                lemma_ol_at(s, j);
                assert(t[j].owner == o);
                lemma_ol_at(t, j);
            }
            assert(final(self).wf());
        }
        Some((current, next))
    }
}

/// Allocation uniqueness: two distinct owners never reserve the same
/// channel.
pub proof fn lemma_allocation_uniqueness(m: SpineUiRenderLayerManager, o1: u64, o2: u64)
    requires
        m.wf(),
        ol_has(m.owner_layers@, o1),
        ol_has(m.owner_layers@, o2),
        o1 != o2,
    ensures
        ol_layer(m.owner_layers@, o1) != ol_layer(m.owner_layers@, o2),
{
    let i1 = ol_index(m.owner_layers@, o1);
    let i2 = ol_index(m.owner_layers@, o2);
    assert(m.owner_layers@[i1].owner == o1);
    assert(m.owner_layers@[i2].owner == o2);
    if i1 < i2 {
        assert(m.owner_layers@[i1].layer != m.owner_layers@[i2].layer);
    } else if i2 < i1 {
        assert(m.owner_layers@[i2].layer != m.owner_layers@[i1].layer);
    }
}

/// After a resolution pass, an owner's channel is referenced by no external
/// entity: neither counted in the use table nor present in any entity's
/// claimed set.
pub proof fn lemma_owner_channel_externally_free(m: SpineUiRenderLayerManager, o: u64)
    requires
        m.wf(),
        m.no_conflicts(),
        ol_has(m.owner_layers@, o),
    ensures
        !lu_has(m.external_layer_use@, ol_layer(m.owner_layers@, o)),
        forall|i: int|
            0 <= i < m.external_by_entity@.len() ==> !(#[trigger] m.external_by_entity@[
                i
            ]).layers@.contains(ol_layer(m.owner_layers@, o)),
{
    let idx = ol_index(m.owner_layers@, o);
    let l = ol_layer(m.owner_layers@, o);
    assert(m.owner_layers@[idx].layer == l);
    assert(!lu_has(m.external_layer_use@, l));
    assert(count_of(m.external_layer_use@, l) == 0);
    assert forall|i: int|
        0 <= i < m.external_by_entity@.len() implies !(#[trigger] m.external_by_entity@[
        i
    ]).layers@.contains(l) by {
        if m.external_by_entity@[i].layers@.contains(l) {
            lemma_holder_witness(m.external_by_entity@, i, l);
        }
    }
}

/// Release correctness: dropping an owner's reservation leaves its former
/// channel as the lowest free one, so a different owner's next allocation
/// receives exactly that channel. The premises on `after` are what
/// `release_owner` ensures of its result; the conclusion is what
/// `allocate_for_owner` turns into the allocated channel.
pub proof fn lemma_release_enables_reuse(
    before: SpineUiRenderLayerManager,
    after: SpineUiRenderLayerManager,
    o: u64,
    l: usize,
)
    requires
        before.wf(),
        after.wf(),
        ol_has(before.owner_layers@, o),
        ol_layer(before.owner_layers@, o) == l,
        !ol_has(after.owner_layers@, o),
        forall|o3: u64|
            o3 != o ==> #[trigger] ol_has(after.owner_layers@, o3) == ol_has(
                before.owner_layers@,
                o3,
            ),
        forall|o3: u64|
            o3 != o && ol_has(before.owner_layers@, o3) ==> ol_layer(after.owner_layers@, o3)
                == ol_layer(before.owner_layers@, o3),
        after.external_layer_use@ == before.external_layer_use@,
        !lu_has(before.external_layer_use@, l),
        forall|l2: usize| 1 <= l2 < l ==> before.spec_layer_used(l2, None),
    ensures
        !after.spec_layer_used(l, None),
        forall|l2: usize| 1 <= l2 < l ==> after.spec_layer_used(l2, None),
{
    assert forall|i: int|
        0 <= i < after.owner_layers@.len() implies after.owner_layers@[i].layer != l by {
        lemma_ol_at(after.owner_layers@, i);
        let o3 = after.owner_layers@[i].owner;
        assert(o3 != o);
        assert(ol_has(before.owner_layers@, o3));
        assert(ol_layer(before.owner_layers@, o3) == after.owner_layers@[i].layer);
        if after.owner_layers@[i].layer == l {
            lemma_allocation_uniqueness(before, o, o3);
        }
    }
    assert forall|l2: usize| 1 <= l2 < l implies after.spec_layer_used(l2, None) by {
        assert(before.spec_layer_used(l2, None));
        if !lu_has(before.external_layer_use@, l2) {
            let i = choose|i: int|
                0 <= i < before.owner_layers@.len() && Some(before.owner_layers@[i].owner)
                    != Option::<u64>::None && before.owner_layers@[i].layer == l2;
            lemma_ol_at(before.owner_layers@, i);
            let o3 = before.owner_layers@[i].owner;
            if o3 == o {
                assert(ol_layer(before.owner_layers@, o) == l2);
                assert(false);
            }
            assert(ol_has(after.owner_layers@, o3));
            let j = ol_index(after.owner_layers@, o3);
            assert(after.owner_layers@[j].layer == l2);
        }
    }
}

} // verus!
