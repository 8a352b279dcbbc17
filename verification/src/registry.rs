//! Lifecycle of proxies: creation, conflict resolution, ready events,
//! animation application, cleanup.
//!
//! The registry is the subsystem's state threaded through the per-cycle
//! pipeline: the channel manager, the owners currently carrying a
//! descriptor, and one record per live proxy (the owner link, the proxy and
//! camera ids, the channel, the channels of the proxy's renderable parts,
//! the differ state, and whether the embedded content reported ready). The
//! host engine drives the stages in a fixed order each cycle: refresh
//! external usage, set up new nodes, resolve channel conflicts, synchronize
//! transforms, forward ready signals, apply animation diffs, sweep orphans.

use crate::differ::clone_animation_opt;
use crate::differ::spec_anim_opt_eq;
use crate::differ::spec_differ_applies;
use crate::differ::spec_differ_next;
use crate::differ::sync_animation_change;
use crate::differ::AnimationAction;
use crate::differ::SpineUiAnimationState;
use crate::differ::SpineUiNonAnimationState;
use crate::layers::ex_has;
use crate::layers::ex_layers;
use crate::layers::lu_has;
use crate::layers::ol_has;
use crate::layers::ol_layer;
use crate::layers::pending_unique;
use crate::layers::SpineUiRenderLayerManager;
use crate::layers::LAYER_TABLE_CAP;
use crate::node::FracVec2;
use crate::node::SpineUiAnimation;
use crate::node::SpineUiNode;
use crate::node::Tint;
use vstd::prelude::*;

verus! {

/// The owner-side link to a proxy and its off-screen camera.
#[derive(Clone, Copy, Debug, PartialEq, Eq, Structural)]
pub struct SpineUiProxy {
    pub proxy_entity: u64,
    pub camera_entity: u64,
}

/// The owner-facing event that the embedded content finished loading.
#[derive(Clone, Copy, Debug, PartialEq, Eq, Structural)]
pub struct SpineUiReadyEvent {
    pub entity: u64,
    pub proxy_entity: u64,
}

/// An owner currently carrying a descriptor.
#[derive(Debug)]
pub struct NodeRecord {
    pub owner: u64,
    pub node: SpineUiNode,
}

/// One live proxy: its owner, entities, channel, part channels, differ
/// state, and whether its content reported ready.
#[derive(Debug)]
pub struct ProxyRecord {
    pub owner: u64,
    pub proxy: SpineUiProxy,
    pub layer: usize,
    /// Channel of each renderable part belonging to the proxy; always the
    /// proxy's own channel.
    pub part_layers: Vec<usize>,
    pub state: SpineUiAnimationState,
    pub content_ready: bool,
}

/// Some record is for this owner.
pub open spec fn nr_has(s: Seq<NodeRecord>, owner: u64) -> bool {
    exists|i: int| 0 <= i < s.len() && s[i].owner == owner
}

/// The index of this owner's descriptor record (meaningful under `nr_has`).
pub open spec fn nr_index(s: Seq<NodeRecord>, owner: u64) -> int {
    choose|i: int| 0 <= i < s.len() && s[i].owner == owner
}

/// The descriptor this owner carries (meaningful under `nr_has`).
pub open spec fn nr_node(s: Seq<NodeRecord>, owner: u64) -> SpineUiNode {
    s[nr_index(s, owner)].node
}

/// Owners appear at most once.
pub open spec fn nr_unique(s: Seq<NodeRecord>) -> bool {
    forall|i: int, j: int| 0 <= i < j < s.len() ==> s[i].owner != s[j].owner
}

/// Some proxy record is for this owner.
pub open spec fn pr_has(s: Seq<ProxyRecord>, owner: u64) -> bool {
    exists|i: int| 0 <= i < s.len() && s[i].owner == owner
}

/// The index of this owner's proxy record (meaningful under `pr_has`).
pub open spec fn pr_index(s: Seq<ProxyRecord>, owner: u64) -> int {
    choose|i: int| 0 <= i < s.len() && s[i].owner == owner
}

/// Owners appear at most once among proxy records.
pub open spec fn pr_unique(s: Seq<ProxyRecord>) -> bool {
    forall|i: int, j: int| 0 <= i < j < s.len() ==> s[i].owner != s[j].owner
}

/// Some proxy record is for this proxy entity.
pub open spec fn pr_has_proxy(s: Seq<ProxyRecord>, proxy_entity: u64) -> bool {
    exists|i: int| 0 <= i < s.len() && s[i].proxy.proxy_entity == proxy_entity
}

/// The index of the record for this proxy entity.
pub open spec fn pr_proxy_index(s: Seq<ProxyRecord>, proxy_entity: u64) -> int {
    choose|i: int| 0 <= i < s.len() && s[i].proxy.proxy_entity == proxy_entity
}

/// In a table without repeated owners, entry `i` is what the lookup for its
/// owner finds.
pub proof fn lemma_nr_at(s: Seq<NodeRecord>, i: int)
    requires
        nr_unique(s),
        0 <= i < s.len(),
    ensures
        nr_has(s, s[i].owner),
        nr_index(s, s[i].owner) == i,
        nr_node(s, s[i].owner) == s[i].node,
{
    assert(nr_has(s, s[i].owner));
    let j = nr_index(s, s[i].owner);
    if j < i {
        assert(s[j].owner != s[i].owner);
    } else if j > i {
        assert(s[i].owner != s[j].owner);
    }
}

/// In a table without repeated owners, entry `i` is what the lookup for its
/// owner finds.
pub proof fn lemma_pr_at(s: Seq<ProxyRecord>, i: int)
    requires
        pr_unique(s),
        0 <= i < s.len(),
    ensures
        pr_has(s, s[i].owner),
        pr_index(s, s[i].owner) == i,
{
    assert(pr_has(s, s[i].owner));
    let j = pr_index(s, s[i].owner);
    if j < i {
        assert(s[j].owner != s[i].owner);
    } else if j > i {
        assert(s[i].owner != s[j].owner);
    }
}

/// In a table without repeated proxy entities, entry `i` is what the lookup
/// for its proxy finds.
pub proof fn lemma_pr_proxy_at(s: Seq<ProxyRecord>, i: int)
    requires
        forall|a: int, b: int|
            0 <= a < b < s.len() ==> s[a].proxy.proxy_entity != s[b].proxy.proxy_entity,
        0 <= i < s.len(),
    ensures
        pr_has_proxy(s, s[i].proxy.proxy_entity),
        pr_proxy_index(s, s[i].proxy.proxy_entity) == i,
{
    assert(pr_has_proxy(s, s[i].proxy.proxy_entity));
    let j = pr_proxy_index(s, s[i].proxy.proxy_entity);
    if j < i {
        assert(s[j].proxy.proxy_entity != s[i].proxy.proxy_entity);
    } else if j > i {
        assert(s[i].proxy.proxy_entity != s[j].proxy.proxy_entity);
    }
}

/// A record contained in a table without repeated owners is what the lookup
/// for its owner finds.
pub proof fn lemma_pr_value_at(s: Seq<ProxyRecord>, rec: ProxyRecord)
    requires
        pr_unique(s),
        s.contains(rec),
    ensures
        pr_has(s, rec.owner),
        s[pr_index(s, rec.owner)] == rec,
{
    let i = choose|i: int| 0 <= i < s.len() && s[i] == rec;
    lemma_pr_at(s, i);
}

/// Find the index of an owner's descriptor record.
pub fn nr_find(tbl: &Vec<NodeRecord>, owner: u64) -> (r: Option<usize>)
    ensures
        match r {
            Some(i) => i < tbl@.len() && tbl@[i as int].owner == owner,
            None => !nr_has(tbl@, owner),
        },
{
    let n = tbl.len();
    let mut i: usize = 0;
    while i < n
        invariant
            n == tbl.len(),
            0 <= i <= n,
            forall|k: int| 0 <= k < i ==> tbl@[k].owner != owner,
        decreases n - i,
    {
        if tbl[i].owner == owner {
            return Some(i);
        }
        i += 1;
    }
    None
}

/// Find the index of an owner's proxy record.
fn pr_find(tbl: &Vec<ProxyRecord>, owner: u64) -> (r: Option<usize>)
    ensures
        match r {
            Some(i) => i < tbl@.len() && tbl@[i as int].owner == owner,
            None => !pr_has(tbl@, owner),
        },
{
    let n = tbl.len();
    let mut i: usize = 0;
    while i < n
        invariant
            n == tbl.len(),
            0 <= i <= n,
            forall|k: int| 0 <= k < i ==> tbl@[k].owner != owner,
        decreases n - i,
    {
        if tbl[i].owner == owner {
            return Some(i);
        }
        i += 1;
    }
    None
}

/// Find the index of the record holding this proxy entity.
fn pr_find_proxy(tbl: &Vec<ProxyRecord>, proxy_entity: u64) -> (r: Option<usize>)
    ensures
        match r {
            Some(i) => i < tbl@.len() && tbl@[i as int].proxy.proxy_entity == proxy_entity,
            None => !pr_has_proxy(tbl@, proxy_entity),
        },
{
    let n = tbl.len();
    let mut i: usize = 0;
    while i < n
        invariant
            n == tbl.len(),
            0 <= i <= n,
            forall|k: int| 0 <= k < i ==> tbl@[k].proxy.proxy_entity != proxy_entity,
        decreases n - i,
    {
        if tbl[i].proxy.proxy_entity == proxy_entity {
            return Some(i);
        }
        i += 1;
    }
    None
}

/// What setting a node up hands back to the host engine: the channel of the
/// new off-screen pass and the content-size hint for the layout engine.
#[derive(Clone, Copy, Debug)]
pub struct SetupPlan {
    pub layer: usize,
    pub content_size: Option<FracVec2>,
}

/// What forwarding a ready signal hands back: the owner-facing event, and
/// the initial application when the owner still carries a descriptor.
#[derive(Debug)]
pub struct ReadyOutcome {
    pub event: SpineUiReadyEvent,
    pub apply: Option<ReadyApply>,
}

/// The mandatory initial application on a content-ready signal.
#[derive(Debug)]
pub struct ReadyApply {
    /// The animation to set on the playback track, or `None` to clear it.
    pub animation: Option<SpineUiAnimation>,
    /// The tint pushed into the content.
    pub tint: Tint,
}

/// The subsystem's state threaded through the pipeline stages.
pub struct SpineUiRegistry {
    pub manager: SpineUiRenderLayerManager,
    pub nodes: Vec<NodeRecord>,
    pub records: Vec<ProxyRecord>,
}

impl SpineUiRegistry {
    /// The registry invariant: the manager's tables well-formed, owners
    /// unique in both record tables, proxy entities unique, each record's
    /// channel agreeing with the manager's reservation while one exists,
    /// and every renderable part on its proxy's channel.
    pub open spec fn wf(self) -> bool {
        &&& self.manager.wf()
        &&& nr_unique(self.nodes@)
        &&& (forall|i: int|
            0 <= i < self.nodes@.len() ==> (#[trigger] self.nodes@[i]).node.wf()
                && self.nodes@[i].node.in_mag())
        &&& pr_unique(self.records@)
        &&& (forall|i: int, j: int|
            0 <= i < j < self.records@.len() ==> self.records@[i].proxy.proxy_entity
                != self.records@[j].proxy.proxy_entity)
        &&& (forall|i: int|
            0 <= i < self.records@.len() && ol_has(
                self.manager.owner_layers@,
                (#[trigger] self.records@[i]).owner,
            ) ==> ol_layer(self.manager.owner_layers@, self.records@[i].owner)
                == self.records@[i].layer)
        &&& (forall|i: int, p: int|
            0 <= i < self.records@.len() && 0 <= p < self.records@[i].part_layers@.len()
                ==> #[trigger] self.records@[i].part_layers@[p] == self.records@[i].layer)
    }

    /// Every owner whose channel an external claim collides with is marked
    /// for reassignment; holds between pipeline stages.
    pub open spec fn conflicts_tracked(self) -> bool {
        self.manager.conflicts_marked()
    }

    /// An empty registry.
    pub fn new() -> (r: SpineUiRegistry)
        ensures
            r.wf(),
            r.conflicts_tracked(),
            r.nodes@.len() == 0,
            r.records@.len() == 0,
            r.manager.owner_layers@.len() == 0,
            r.manager.external_by_entity@.len() == 0,
            r.manager.pending_reassign@.len() == 0,
    {
        SpineUiRegistry {
            manager: SpineUiRenderLayerManager::new(),
            nodes: Vec::new(),
            records: Vec::new(),
        }
    }

    /// Record that an owner carries this descriptor, replacing any previous
    /// one.
    pub fn insert_node(&mut self, owner: u64, node: SpineUiNode)
        requires
            old(self).wf(),
            node.wf(),
            node.in_mag(),
        ensures
            final(self).wf(),
            nr_has(final(self).nodes@, owner),
            nr_node(final(self).nodes@, owner) == node,
            forall|o: u64|
                o != owner ==> #[trigger] nr_has(final(self).nodes@, o) == nr_has(
                    old(self).nodes@,
                    o,
                ),
            forall|o: u64|
                o != owner && nr_has(old(self).nodes@, o) ==> nr_node(final(self).nodes@, o)
                    == nr_node(old(self).nodes@, o),
            final(self).records@ == old(self).records@,
            final(self).manager == old(self).manager,
            old(self).conflicts_tracked() ==> final(self).conflicts_tracked(),
    {
        let entry = NodeRecord { owner, node };
        let ghost s = self.nodes@;
        if let Some(i) = nr_find(&self.nodes, owner) {
            self.nodes[i] = entry;
            proof {
                let t = self.nodes@;
                assert forall|a: int, b: int|
                    0 <= a < b < t.len() implies t[a].owner != t[b].owner by {
                    assert(s[a].owner != s[b].owner);
                }
                lemma_nr_at(t, i as int);
                assert forall|o: u64| o != owner implies #[trigger] nr_has(t, o) == nr_has(
                    s,
                    o,
                ) by {
                    if nr_has(s, o) {
                        let j = nr_index(s, o);
                        lemma_nr_at(s, j);
                        assert(t[j].owner == o);
                    } else {
                        assert forall|k: int| 0 <= k < t.len() implies t[k].owner != o by {
                            if k != i {
                                assert(t[k] == s[k]);
                            }
                        }
                    }
                }
                assert forall|o: u64|
                    o != owner && #[trigger] nr_has(s, o) implies nr_node(t, o) == nr_node(
                    s,
                    o,
                ) by {
                    let j = nr_index(s, o);
                    lemma_nr_at(s, j);
                    assert(t[j].owner == o);
                    lemma_nr_at(t, j);
                }
            }
        } else {
            self.nodes.push(entry);
            proof {
                let t = self.nodes@;
                assert(t == s.push(entry));
                assert forall|a: int, b: int|
                    0 <= a < b < t.len() implies t[a].owner != t[b].owner by {
                    if b < s.len() {
                        assert(t[a] == s[a] && t[b] == s[b]);
                    } else {
                        assert(t[a] == s[a] && t[b] == entry);
                    }
                }
                lemma_nr_at(t, s.len() as int);
                assert forall|o: u64| o != owner implies #[trigger] nr_has(t, o) == nr_has(
                    s,
                    o,
                ) by {
                    if nr_has(s, o) {
                        let j = nr_index(s, o);
                        lemma_nr_at(s, j);
                        assert(t[j].owner == o);
                    } else {
                        assert forall|k: int| 0 <= k < t.len() implies t[k].owner != o by {
                            if k < s.len() {
                                assert(t[k] == s[k]);
                            } else {
                                assert(t[k] == entry);
                            }
                        }
                    }
                }
                assert forall|o: u64|
                    o != owner && #[trigger] nr_has(s, o) implies nr_node(t, o) == nr_node(
                    s,
                    o,
                ) by {
                    let j = nr_index(s, o);
                    lemma_nr_at(s, j);
                    assert(t[j].owner == o);
                    lemma_nr_at(t, j);
                }
            }
        }
    }

    /// Record that an owner's descriptor went away; cleanup sweeps the
    /// proxy on the next cycle.
    pub fn remove_node(&mut self, owner: u64)
        requires
            old(self).wf(),
        ensures
            final(self).wf(),
            !nr_has(final(self).nodes@, owner),
            forall|o: u64|
                o != owner ==> #[trigger] nr_has(final(self).nodes@, o) == nr_has(
                    old(self).nodes@,
                    o,
                ),
            forall|o: u64|
                o != owner && nr_has(old(self).nodes@, o) ==> nr_node(final(self).nodes@, o)
                    == nr_node(old(self).nodes@, o),
            final(self).records@ == old(self).records@,
            final(self).manager == old(self).manager,
            old(self).conflicts_tracked() ==> final(self).conflicts_tracked(),
    {
        let Some(i) = nr_find(&self.nodes, owner) else {
            return ;
        };
        let ghost s = self.nodes@;
        self.nodes.remove(i);
        proof {
            let t = self.nodes@;
            assert(forall|k: int| 0 <= k < i ==> t[k] == s[k]);
            assert(forall|k: int| i <= k < t.len() ==> t[k] == s[k + 1]);
            assert forall|a: int, b: int|
                0 <= a < b < t.len() implies t[a].owner != t[b].owner by {
                if b < i {
                    assert(t[a] == s[a] && t[b] == s[b]);
                } else if a < i {
                    assert(t[a] == s[a] && t[b] == s[b + 1]);
                } else {
                    assert(t[a] == s[a + 1] && t[b] == s[b + 1]);
                }
            }
            assert(forall|k: int| 0 <= k < t.len() ==> t[k].owner != owner);
            assert(!nr_has(t, owner));
            assert forall|o: u64| o != owner implies #[trigger] nr_has(t, o) == nr_has(s, o) by {
                if nr_has(s, o) {
                    let j = nr_index(s, o);
                    lemma_nr_at(s, j);
                    let jt = if j < i {
                        j
                    } else {
                        j - 1
                    };
                    assert(t[jt].owner == o);
                } else {
                    assert forall|k: int| 0 <= k < t.len() implies t[k].owner != o by {
                        if k < i {
                            assert(t[k] == s[k]);
                        } else {
                            assert(t[k] == s[k + 1]);
                        }
                    }
                }
            }
            assert forall|o: u64|
                o != owner && #[trigger] nr_has(s, o) implies nr_node(t, o) == nr_node(s, o) by {
                let j = nr_index(s, o);
                lemma_nr_at(s, j);
                let jt = if j < i {
                    j
                } else {
                    j - 1
                };
                assert(t[jt].owner == o);
                lemma_nr_at(t, jt);
            }
        }
    }

    /// First sight of a descriptor on an owner without a proxy: reserve a
    /// channel, record the proxy and camera the host engine spawned, start
    /// with an empty differ state, and hand back the channel and the
    /// content-size hint.
    pub fn setup_node(&mut self, owner: u64, proxy_entity: u64, camera_entity: u64) -> (r: Option<
        SetupPlan,
    >)
        requires
            old(self).wf(),
            old(self).manager.owner_layers@.len() < LAYER_TABLE_CAP,
            !pr_has_proxy(old(self).records@, proxy_entity),
        ensures
            final(self).wf(),
            r is Some <==> (nr_has(old(self).nodes@, owner) && !pr_has(old(self).records@, owner)),
            r is None ==> *final(self) == *old(self),
            r matches Some(plan) ==> {
                &&& pr_has(final(self).records@, owner)
                &&& final(self).records@ == old(self).records@.push(
                    final(self).records@.last(),
                )
                &&& {
                    let rec = final(self).records@.last();
                    &&& rec.owner == owner
                    &&& rec.proxy == (SpineUiProxy { proxy_entity, camera_entity })
                    &&& rec.layer == plan.layer
                    &&& rec.part_layers@.len() == 0
                    &&& rec.state.last_applied is None
                    &&& rec.state.last_non_animation is None
                    &&& !rec.content_ready
                }
                &&& ol_has(final(self).manager.owner_layers@, owner)
                &&& ol_layer(final(self).manager.owner_layers@, owner) == plan.layer
                &&& (!ol_has(old(self).manager.owner_layers@, owner) ==> {
                    &&& plan.layer >= 1
                    &&& !old(self).manager.spec_layer_used(plan.layer, None)
                    &&& forall|l: usize|
                        1 <= l < plan.layer ==> old(self).manager.spec_layer_used(l, None)
                })
                &&& plan.content_size == nr_node(old(self).nodes@, owner).auto_size
            },
            final(self).nodes@ == old(self).nodes@,
            final(self).manager.owner_layers@.len() <= old(self).manager.owner_layers@.len()
                + 1,
            final(self).records@.len() <= old(self).records@.len() + 1,
            final(self).manager.external_by_entity@ == old(self).manager.external_by_entity@,
            final(self).manager.external_layer_use@ == old(self).manager.external_layer_use@,
            final(self).manager.pending_reassign@ == old(self).manager.pending_reassign@,
            old(self).conflicts_tracked() ==> final(self).conflicts_tracked(),
    {
        let Some(ni) = nr_find(&self.nodes, owner) else {
            return None;
        };
        if pr_find(&self.records, owner).is_some() {
            return None;
        }
        let layer = self.manager.allocate_for_owner(owner);
        let content_size = self.nodes[ni].node.auto_size;
        proof {
            lemma_nr_at(self.nodes@, ni as int);
        }
        let record = ProxyRecord {
            owner,
            proxy: SpineUiProxy { proxy_entity, camera_entity },
            layer,
            part_layers: Vec::new(),
            state: SpineUiAnimationState::empty(),
            content_ready: false,
        };
        let ghost s = old(self).records@;
        self.records.push(record);
        proof {
            let t = self.records@;
            assert forall|a: int, b: int|
                0 <= a < b < t.len() implies t[a].owner != t[b].owner && t[a].proxy.proxy_entity
                != t[b].proxy.proxy_entity by {
                if b < s.len() {
                    assert(t[a] == s[a] && t[b] == s[b]);
                } else {
                    assert(t[a] == s[a]);
                    assert(!pr_has(s, owner));
                    assert(!pr_has_proxy(s, proxy_entity));
                }
            }
            assert forall|i: int|
                0 <= i < t.len() && ol_has(
                    self.manager.owner_layers@,
                    (#[trigger] t[i]).owner,
                ) implies ol_layer(self.manager.owner_layers@, t[i].owner) == t[i].layer by {
                if i < s.len() {
                    assert(t[i] == s[i]);
                    if t[i].owner == owner {
                        assert(pr_has(s, owner));
                    }
                } else {
                }
            }
            assert forall|i: int, p: int|
                0 <= i < t.len() && 0 <= p < t[i].part_layers@.len() implies #[trigger] t[i]
                .part_layers@[p] == t[i].layer by {
                if i < s.len() {
                    assert(t[i] == s[i]);
                }
            }
            assert(pr_has(t, owner)) by {
                assert(t[s.len() as int].owner == owner);
            }
        }
        Some(SetupPlan { layer, content_size })
    }

    /// Record the renderable parts the embedded content spawned for an
    /// owner's proxy; each part draws on the proxy's channel.
    pub fn attach_parts(&mut self, owner: u64, count: usize) -> (r: bool)
        requires
            old(self).wf(),
        ensures
            final(self).wf(),
            r == pr_has(old(self).records@, owner),
            !r ==> *final(self) == *old(self),
            r ==> {
                let i = pr_index(old(self).records@, owner);
                let rec = final(self).records@[i];
                &&& final(self).records@ == old(self).records@.update(i, rec)
                &&& rec.owner == owner
                &&& rec.proxy == old(self).records@[i].proxy
                &&& rec.layer == old(self).records@[i].layer
                &&& rec.part_layers@.len() == count
                &&& (forall|p: int| 0 <= p < count ==> rec.part_layers@[p] == rec.layer)
                &&& rec.state == old(self).records@[i].state
                &&& rec.content_ready == old(self).records@[i].content_ready
            },
            final(self).nodes@ == old(self).nodes@,
            final(self).manager == old(self).manager,
            old(self).conflicts_tracked() ==> final(self).conflicts_tracked(),
    {
        let Some(i) = pr_find(&self.records, owner) else {
            return false;
        };
        proof {
            lemma_pr_at(self.records@, i as int);
        }
        let layer = self.records[i].layer;
        let mut parts: Vec<usize> = Vec::new();
        let mut k: usize = 0;
        while k < count
            invariant
                0 <= k <= count,
                parts@.len() == k,
                forall|p: int| 0 <= p < k ==> parts@[p] == layer,
            decreases count - k,
        {
            parts.push(layer);
            k += 1;
        }
        let ghost s = self.records@;
        let rec = &mut self.records[i];
        rec.part_layers = parts;
        proof {
            let t = self.records@;
            assert(t == s.update(i as int, t[i as int]));
            assert(t[i as int].owner == owner);
            assert(t[i as int].layer == s[i as int].layer);
            assert forall|a: int, b: int|
                0 <= a < b < t.len() implies t[a].owner != t[b].owner && t[a].proxy.proxy_entity
                != t[b].proxy.proxy_entity by {
                assert(s[a].owner != s[b].owner);
                assert(s[a].proxy.proxy_entity != s[b].proxy.proxy_entity);
                if a != i && b != i {
                    assert(t[a] == s[a] && t[b] == s[b]);
                } else if a == i {
                    assert(t[b] == s[b]);
                } else {
                    assert(t[a] == s[a]);
                }
            }
            assert forall|j: int|
                0 <= j < t.len() && ol_has(
                    self.manager.owner_layers@,
                    (#[trigger] t[j]).owner,
                ) implies ol_layer(self.manager.owner_layers@, t[j].owner) == t[j].layer by {
                if j != i {
                    assert(t[j] == s[j]);
                }
            }
            assert forall|j: int, p: int|
                0 <= j < t.len() && 0 <= p < t[j].part_layers@.len() implies #[trigger] t[j]
                .part_layers@[p] == t[j].layer by {
                if j != i {
                    assert(t[j] == s[j]);
                }
            }
            lemma_pr_at(s, i as int);
        }
        true
    }

    /// Forward the embedded content's ready signal: resolve it to the owner
    /// through the proxy record, perform the mandatory initial application
    /// when the owner still carries a descriptor, and emit the owner-facing
    /// event.
    pub fn process_ready(&mut self, proxy_entity: u64) -> (r: Option<ReadyOutcome>)
        requires
            old(self).wf(),
        ensures
            final(self).wf(),
            r is Some <==> pr_has_proxy(old(self).records@, proxy_entity),
            r is None ==> *final(self) == *old(self),
            r matches Some(outcome) ==> {
                let i = pr_proxy_index(old(self).records@, proxy_entity);
                let owner = old(self).records@[i].owner;
                &&& outcome.event == (SpineUiReadyEvent { entity: owner, proxy_entity })
                &&& (outcome.apply is Some <==> nr_has(old(self).nodes@, owner))
                &&& (outcome.apply matches Some(apply) ==> {
                    let node = nr_node(old(self).nodes@, owner);
                    &&& spec_anim_opt_eq(apply.animation, node.animation)
                    &&& apply.tint == node.tint
                })
                &&& {
                    let rec = final(self).records@[i];
                    &&& final(self).records@ == old(self).records@.update(i, rec)
                    &&& rec.owner == owner
                    &&& rec.proxy == old(self).records@[i].proxy
                    &&& rec.layer == old(self).records@[i].layer
                    &&& rec.part_layers == old(self).records@[i].part_layers
                    &&& rec.content_ready
                    &&& (nr_has(old(self).nodes@, owner) ==> {
                        let node = nr_node(old(self).nodes@, owner);
                        &&& spec_anim_opt_eq(rec.state.last_applied, node.animation)
                        &&& rec.state.last_non_animation == Some(
                            SpineUiNonAnimationState::spec_of(node),
                        )
                    })
                    &&& (!nr_has(old(self).nodes@, owner) ==> rec.state == old(
                        self,
                    ).records@[i].state)
                }
            },
            final(self).nodes@ == old(self).nodes@,
            final(self).manager == old(self).manager,
            old(self).conflicts_tracked() ==> final(self).conflicts_tracked(),
    {
        let Some(i) = pr_find_proxy(&self.records, proxy_entity) else {
            return None;
        };
        proof {
            let j = pr_proxy_index(self.records@, proxy_entity);
            if j < i {
                assert(self.records@[j].proxy.proxy_entity != self.records@[
                    i as int
                ].proxy.proxy_entity);
            } else if j > i {
                assert(self.records@[i as int].proxy.proxy_entity != self.records@[
                    j
                ].proxy.proxy_entity);
            }
        }
        let owner = self.records[i].owner;
        let ghost s = self.records@;
        let apply: Option<ReadyApply> = match nr_find(&self.nodes, owner) {
            Some(ni) => {
                proof {
                    lemma_nr_at(self.nodes@, ni as int);
                }
                let node = &self.nodes[ni].node;
                let animation = match &node.animation {
                    Some(a) => Some(a.clone()),
                    None => None,
                };
                let snapshot = SpineUiNonAnimationState::from_node(node);
                let last_applied = match &node.animation {
                    Some(a) => Some(a.clone()),
                    None => None,
                };
                let tint = node.tint;
                let rec = &mut self.records[i];
                rec.state = SpineUiAnimationState {
                    last_applied,
                    last_non_animation: Some(snapshot),
                };
                rec.content_ready = true;
                Some(ReadyApply { animation, tint })
            },
            None => {
                let rec = &mut self.records[i];
                rec.content_ready = true;
                None
            },
        };
        proof {
            let t = self.records@;
            assert(t == s.update(i as int, t[i as int]));
            assert forall|a: int, b: int|
                0 <= a < b < t.len() implies t[a].owner != t[b].owner && t[a].proxy.proxy_entity
                != t[b].proxy.proxy_entity by {
                assert(s[a].owner != s[b].owner);
                assert(s[a].proxy.proxy_entity != s[b].proxy.proxy_entity);
                if a != i && b != i {
                    assert(t[a] == s[a] && t[b] == s[b]);
                } else if a == i {
                    assert(t[b] == s[b]);
                } else {
                    assert(t[a] == s[a]);
                }
            }
            assert forall|j: int|
                0 <= j < t.len() && ol_has(
                    self.manager.owner_layers@,
                    (#[trigger] t[j]).owner,
                ) implies ol_layer(self.manager.owner_layers@, t[j].owner) == t[j].layer by {
                if j != i {
                    assert(t[j] == s[j]);
                }
            }
            assert forall|j: int, p: int|
                0 <= j < t.len() && 0 <= p < t[j].part_layers@.len() implies #[trigger] t[j]
                .part_layers@[p] == t[j].layer by {
                if j != i {
                    assert(t[j] == s[j]);
                }
            }
        }
        Some(ReadyOutcome { event: SpineUiReadyEvent { entity: owner, proxy_entity }, apply })
    }

    /// One differ step for an owner whose descriptor changed this cycle:
    /// decide whether to (re)apply the animation request, update the stored
    /// snapshots, and hand the decision back. Nothing happens for an owner
    /// without both a descriptor and a proxy; the playback engine is only
    /// touched once its content is ready.
    pub fn sync_animation(&mut self, owner: u64) -> (action: AnimationAction)
        requires
            old(self).wf(),
        ensures
            final(self).wf(),
            final(self).nodes@ == old(self).nodes@,
            final(self).manager == old(self).manager,
            old(self).conflicts_tracked() ==> final(self).conflicts_tracked(),
            !(nr_has(old(self).nodes@, owner) && pr_has(old(self).records@, owner)) ==> {
                &&& *final(self) == *old(self)
                &&& action == AnimationAction::Keep
            },
            (nr_has(old(self).nodes@, owner) && pr_has(old(self).records@, owner)) ==> {
                let i = pr_index(old(self).records@, owner);
                let node = nr_node(old(self).nodes@, owner);
                let state0 = old(self).records@[i].state;
                let rec = final(self).records@[i];
                &&& final(self).records@ == old(self).records@.update(i, rec)
                &&& rec.owner == owner
                &&& rec.proxy == old(self).records@[i].proxy
                &&& rec.layer == old(self).records@[i].layer
                &&& rec.part_layers == old(self).records@[i].part_layers
                &&& rec.content_ready == old(self).records@[i].content_ready
                &&& (!spec_differ_applies(state0, node) ==> {
                    &&& rec.state == spec_differ_next(state0, node)
                    &&& action == AnimationAction::Keep
                })
                &&& (spec_differ_applies(state0, node) && old(self).records@[i].content_ready
                    ==> {
                    &&& rec.state == spec_differ_next(state0, node)
                    &&& action == AnimationAction::Apply(node.animation)
                })
                &&& (spec_differ_applies(state0, node) && !old(self).records@[i].content_ready
                    ==> {
                    &&& rec.state == state0
                    &&& action == AnimationAction::Keep
                })
            },
    {
        let Some(ni) = nr_find(&self.nodes, owner) else {
            return AnimationAction::Keep;
        };
        let Some(i) = pr_find(&self.records, owner) else {
            return AnimationAction::Keep;
        };
        proof {
            lemma_nr_at(self.nodes@, ni as int);
            lemma_pr_at(self.records@, i as int);
        }
        let ghost s = self.records@;
        let content_ready = self.records[i].content_ready;
        let node = &self.nodes[ni].node;

        // The visual-only branch never needs the playback engine; the apply
        // branch does, so it waits for the content-ready signal.
        let ghost state0 = self.records@[i as int].state;
        let mut probe = SpineUiAnimationState {
            last_applied: clone_animation_opt(&self.records[i].state.last_applied),
            last_non_animation: self.records[i].state.last_non_animation,
        };
        let action0 = sync_animation_change(&mut probe, node);
        let keep_update = match &action0 {
            AnimationAction::Keep => true,
            AnimationAction::Apply(_) => content_ready,
        };
        let action = if keep_update {
            let rec = &mut self.records[i];
            rec.state = probe;
            action0
        } else {
            AnimationAction::Keep
        };
        proof {
            let t = self.records@;
            assert(t == s.update(i as int, t[i as int]));
            assert forall|a: int, b: int|
                0 <= a < b < t.len() implies t[a].owner != t[b].owner && t[a].proxy.proxy_entity
                != t[b].proxy.proxy_entity by {
                assert(s[a].owner != s[b].owner);
                assert(s[a].proxy.proxy_entity != s[b].proxy.proxy_entity);
                if a != i && b != i {
                    assert(t[a] == s[a] && t[b] == s[b]);
                } else if a == i {
                    assert(t[b] == s[b]);
                } else {
                    assert(t[a] == s[a]);
                }
            }
            assert forall|j: int|
                0 <= j < t.len() && ol_has(
                    self.manager.owner_layers@,
                    (#[trigger] t[j]).owner,
                ) implies ol_layer(self.manager.owner_layers@, t[j].owner) == t[j].layer by {
                if j != i {
                    assert(t[j] == s[j]);
                }
            }
            assert forall|j: int, p: int|
                0 <= j < t.len() && 0 <= p < t[j].part_layers@.len() implies #[trigger] t[j]
                .part_layers@[p] == t[j].layer by {
                if j != i {
                    assert(t[j] == s[j]);
                }
            }
        }
        action
    }
}

/// An element of a tail is an element of the next-shorter tail unless it is
/// the head.
proof fn lemma_subrange_step(p: Seq<u64>, k: int, x: u64)
    requires
        0 <= k < p.len(),
        p.subrange(k, p.len() as int).contains(x),
        x != p[k],
    ensures
        p.subrange(k + 1, p.len() as int).contains(x),
{
    let s = p.subrange(k, p.len() as int);
    let j = choose|j: int| 0 <= j < s.len() && s[j] == x;
    assert(s[j] == p[k + j]);
    assert(j != 0);
    assert(p.subrange(k + 1, p.len() as int)[j - 1] == x);
}

/// An element of a prefix is an element of the next-longer prefix.
pub proof fn lemma_prefix_contains(p: Seq<u64>, k: int, o: u64)
    requires
        0 <= k < p.len(),
        p.subrange(0, k).contains(o),
    ensures
        p.subrange(0, k + 1).contains(o),
{
    let i = choose|i: int| 0 <= i < k && p.subrange(0, k)[i] == o;
    assert(p.subrange(0, k + 1)[i] == o);
}

/// What one reassignment reports for observability: the owner, the channels
/// it moved between, and how many renderable parts followed.
#[derive(Clone, Copy, Debug)]
pub struct ReassignReport {
    pub owner: u64,
    pub previous_layer: usize,
    pub new_layer: usize,
    pub updated_renderables: usize,
}

/// One swept proxy: the owner whose descriptor went away and the entities
/// the host engine must despawn.
#[derive(Clone, Copy, Debug)]
pub struct CleanupAction {
    pub owner: u64,
    pub proxy_entity: u64,
    pub camera_entity: u64,
}

impl SpineUiRegistry {
    /// Record the channel set an external entity claims; owners colliding
    /// with the fresh claim are marked for the next resolution pass.
    pub fn upsert_external_usage(&mut self, entity: u64, layers: Vec<usize>)
        requires
            old(self).wf(),
            old(self).conflicts_tracked(),
            layers@.no_duplicates(),
            forall|i: int| 0 <= i < layers@.len() ==> layers@[i] < usize::MAX - 1,
            old(self).manager.external_by_entity@.len() < LAYER_TABLE_CAP,
            old(self).manager.external_layer_use@.len() + layers@.len() <= LAYER_TABLE_CAP,
        ensures
            final(self).wf(),
            final(self).conflicts_tracked(),
            ex_has(final(self).manager.external_by_entity@, entity),
            ex_layers(final(self).manager.external_by_entity@, entity) == layers@,
            forall|e: u64|
                e != entity ==> #[trigger] ex_has(final(self).manager.external_by_entity@, e)
                    == ex_has(old(self).manager.external_by_entity@, e),
            final(self).manager.owner_layers@ == old(self).manager.owner_layers@,
            final(self).manager.external_layer_use@.len() <= old(
                self,
            ).manager.external_layer_use@.len() + layers@.len(),
            final(self).manager.external_by_entity@.len() <= old(
                self,
            ).manager.external_by_entity@.len() + 1,
            final(self).nodes@ == old(self).nodes@,
            final(self).records@ == old(self).records@,
    {
        self.manager.upsert_external_layers(entity, layers);
        proof {
            assert forall|i: int|
                0 <= i < self.records@.len() && ol_has(
                    self.manager.owner_layers@,
                    (#[trigger] self.records@[i]).owner,
                ) implies ol_layer(self.manager.owner_layers@, self.records@[i].owner)
                == self.records@[i].layer by {}
        }
    }

    /// Drop the channel references an external entity held, when it goes
    /// away.
    pub fn remove_external_usage(&mut self, entity: u64)
        requires
            old(self).wf(),
            old(self).conflicts_tracked(),
        ensures
            final(self).wf(),
            final(self).conflicts_tracked(),
            !ex_has(final(self).manager.external_by_entity@, entity),
            forall|e: u64|
                e != entity ==> #[trigger] ex_has(final(self).manager.external_by_entity@, e)
                    == ex_has(old(self).manager.external_by_entity@, e),
            final(self).manager.owner_layers@ == old(self).manager.owner_layers@,
            final(self).manager.external_layer_use@.len() <= old(
                self,
            ).manager.external_layer_use@.len(),
            final(self).manager.external_by_entity@.len() <= old(
                self,
            ).manager.external_by_entity@.len(),
            final(self).nodes@ == old(self).nodes@,
            final(self).records@ == old(self).records@,
    {
        self.manager.remove_external_entity(entity);
    }

    #[verifier::rlimit(100)]
    #[verifier::spinoff_prover]
    /// Resolve every pending channel conflict: drain the marked owners; an
    /// owner without a descriptor is released, any other is moved to a
    /// fresh conflict-free channel, and its proxy, camera and every
    /// renderable part follow. One pass eliminates all conflicts, and a
    /// pass with nothing pending mutates nothing.
    pub fn resolve_render_layer_conflicts(&mut self) -> (reports: Vec<ReassignReport>)
        requires
            old(self).wf(),
            old(self).conflicts_tracked(),
        ensures
            final(self).wf(),
            final(self).conflicts_tracked(),
            final(self).manager.no_conflicts(),
            final(self).manager.pending_reassign@.len() == 0,
            forall|o: u64|
                ol_has(old(self).manager.owner_layers@, o) && nr_has(old(self).nodes@, o)
                    ==> #[trigger] ol_has(final(self).manager.owner_layers@, o),
            forall|o: u64|
                old(self).manager.pending_reassign@.contains(o) && !nr_has(old(self).nodes@, o)
                    ==> !ol_has(final(self).manager.owner_layers@, o),
            forall|k2: int|
                0 <= k2 < reports@.len() ==> {
                    let rep = #[trigger] reports@[k2];
                    &&& rep.previous_layer != rep.new_layer
                    &&& old(self).manager.pending_reassign@.contains(rep.owner)
                    &&& nr_has(old(self).nodes@, rep.owner)
                    &&& ol_has(final(self).manager.owner_layers@, rep.owner)
                    &&& ol_layer(final(self).manager.owner_layers@, rep.owner) == rep.new_layer
                    &&& (pr_has(final(self).records@, rep.owner) ==> final(self).records@[
                        pr_index(final(self).records@, rep.owner)
                    ].part_layers@.len() == rep.updated_renderables)
                    &&& (!pr_has(final(self).records@, rep.owner)
                        ==> rep.updated_renderables == 0)
                },
            forall|o: u64|
                old(self).manager.pending_reassign@.contains(o) && nr_has(old(self).nodes@, o)
                    && ol_has(old(self).manager.owner_layers@, o) ==> ol_layer(
                    final(self).manager.owner_layers@,
                    o,
                ) == ol_layer(old(self).manager.owner_layers@, o) || exists|k2: int|
                    0 <= k2 < reports@.len() && (#[trigger] reports@[k2]).owner == o,
            final(self).nodes@ == old(self).nodes@,
            final(self).manager.external_by_entity@ == old(self).manager.external_by_entity@,
            final(self).manager.external_layer_use@ == old(self).manager.external_layer_use@,
            final(self).records@.len() == old(self).records@.len(),
            forall|i: int|
                0 <= i < final(self).records@.len() ==> {
                    let rec = #[trigger] final(self).records@[i];
                    let rec0 = old(self).records@[i];
                    &&& rec.owner == rec0.owner
                    &&& rec.proxy == rec0.proxy
                    &&& rec.part_layers@.len() == rec0.part_layers@.len()
                    &&& rec.state == rec0.state
                    &&& rec.content_ready == rec0.content_ready
                },
            old(self).manager.pending_reassign@.len() == 0 ==> {
                &&& final(self).manager.owner_layers@ == old(self).manager.owner_layers@
                &&& final(self).manager.pending_reassign@ == old(self).manager.pending_reassign@
                &&& final(self).records@ == old(self).records@
                &&& reports@.len() == 0
            },
    {
        let pending = self.manager.take_pending_reassignments();
        let ghost p = pending@;
        let mut reports: Vec<ReassignReport> = Vec::new();
        let n = pending.len();
        proof {
            assert(p.subrange(0, p.len() as int) =~= p);
        }
        let mut k: usize = 0;
        while k < n
            invariant
                n == pending.len(),
                pending@ == p,
                0 <= k <= n,
                self.wf(),
                self.nodes@ == old(self).nodes@,
                self.manager.external_by_entity@ == old(self).manager.external_by_entity@,
                self.manager.external_layer_use@ == old(self).manager.external_layer_use@,
                self.manager.pending_reassign@.len() == 0,
                pending_unique(p),
                forall|o: u64|
                    ol_has(old(self).manager.owner_layers@, o) && nr_has(old(self).nodes@, o)
                        ==> #[trigger] ol_has(self.manager.owner_layers@, o),
                forall|o: u64|
                    !p.subrange(0, k as int).contains(o) ==> #[trigger] ol_has(
                        self.manager.owner_layers@,
                        o,
                    ) == ol_has(old(self).manager.owner_layers@, o) && (ol_has(
                        old(self).manager.owner_layers@,
                        o,
                    ) ==> ol_layer(self.manager.owner_layers@, o) == ol_layer(
                        old(self).manager.owner_layers@,
                        o,
                    )),
                forall|o: u64|
                    p.subrange(0, k as int).contains(o) && !nr_has(old(self).nodes@, o)
                        ==> !ol_has(self.manager.owner_layers@, o),
                forall|k2: int|
                    0 <= k2 < reports@.len() ==> {
                        let rep = #[trigger] reports@[k2];
                        &&& rep.previous_layer != rep.new_layer
                        &&& p.subrange(0, k as int).contains(rep.owner)
                        &&& nr_has(old(self).nodes@, rep.owner)
                        &&& ol_has(self.manager.owner_layers@, rep.owner)
                        &&& ol_layer(self.manager.owner_layers@, rep.owner) == rep.new_layer
                        &&& (pr_has(self.records@, rep.owner) ==> self.records@[
                            pr_index(self.records@, rep.owner)
                        ].part_layers@.len() == rep.updated_renderables)
                        &&& (!pr_has(self.records@, rep.owner) ==> rep.updated_renderables == 0)
                    },
                forall|o: u64|
                    p.subrange(0, k as int).contains(o) && nr_has(old(self).nodes@, o)
                        && ol_has(old(self).manager.owner_layers@, o) ==> ol_layer(
                        self.manager.owner_layers@,
                        o,
                    ) == ol_layer(old(self).manager.owner_layers@, o) || exists|k2: int|
                        0 <= k2 < reports@.len() && (#[trigger] reports@[k2]).owner == o,
                reports@.len() <= k,
                p.len() == 0 ==> self.records@ == old(self).records@
                    && self.manager.owner_layers@ == old(self).manager.owner_layers@,
                self.records@.len() == old(self).records@.len(),
                forall|i: int|
                    0 <= i < self.records@.len() ==> {
                        let rec = #[trigger] self.records@[i];
                        let rec0 = old(self).records@[i];
                        &&& rec.owner == rec0.owner
                        &&& rec.proxy == rec0.proxy
                        &&& rec.part_layers@.len() == rec0.part_layers@.len()
                        &&& rec.state == rec0.state
                        &&& rec.content_ready == rec0.content_ready
                    },
                forall|i: int|
                    0 <= i < self.manager.owner_layers@.len() && lu_has(
                        self.manager.external_layer_use@,
                        (#[trigger] self.manager.owner_layers@[i]).layer,
                    ) ==> p.subrange(k as int, p.len() as int).contains(
                        self.manager.owner_layers@[i].owner,
                    ),
            decreases n - k,
        {
            let owner = pending[k];
            let ghost m0 = self.manager;
            let ghost r0 = self.records@;
            let ghost reports0 = reports@;
            proof {
                assert(p.subrange(0, k as int + 1) =~= p.subrange(0, k as int).push(
                    p[k as int],
                ));
                assert(p.subrange(0, k as int + 1)[k as int] == owner);
                assert(!p.subrange(0, k as int).contains(owner)) by {
                    if p.subrange(0, k as int).contains(owner) {
                        let i2 = choose|i2: int|
                            0 <= i2 < k && p.subrange(0, k as int)[i2] == owner;
                        assert(p[i2] == owner);
                        assert(p[i2] != p[k as int]);
                    }
                }
            }
            if nr_find(&self.nodes, owner).is_none() {
                self.manager.release_owner(owner);
                proof {
                    assert forall|i: int|
                        0 <= i < self.manager.owner_layers@.len() && lu_has(
                            self.manager.external_layer_use@,
                            (#[trigger] self.manager.owner_layers@[i]).layer,
                        ) implies p.subrange(k as int + 1, p.len() as int).contains(
                        self.manager.owner_layers@[i].owner,
                    ) by {
                        let o = self.manager.owner_layers@[i].owner;
                        crate::layers::lemma_ol_at(self.manager.owner_layers@, i);
                        assert(o != owner);
                        assert(ol_has(m0.owner_layers@, o));
                        assert(ol_layer(m0.owner_layers@, o) == self.manager.owner_layers@[
                            i
                        ].layer);
                        let j = crate::layers::ol_index(m0.owner_layers@, o);
                        crate::layers::lemma_ol_at(m0.owner_layers@, j);
                        assert(lu_has(
                            m0.external_layer_use@,
                            m0.owner_layers@[j].layer,
                        ));
                        assert(p.subrange(k as int, p.len() as int).contains(o));
                        lemma_subrange_step(p, k as int, o);
                    }
                    assert forall|i: int|
                        0 <= i < self.records@.len() && ol_has(
                            self.manager.owner_layers@,
                            (#[trigger] self.records@[i]).owner,
                        ) implies ol_layer(self.manager.owner_layers@, self.records@[i].owner)
                        == self.records@[i].layer by {
                        let o = self.records@[i].owner;
                        assert(o != owner);
                        assert(ol_has(m0.owner_layers@, o));
                    }
                    assert forall|o: u64|
                        ol_has(old(self).manager.owner_layers@, o) && nr_has(
                            old(self).nodes@,
                            o,
                        ) implies #[trigger] ol_has(self.manager.owner_layers@, o) by {
                        assert(o != owner);
                        assert(ol_has(m0.owner_layers@, o));
                    }
                    assert forall|o: u64|
                        !p.subrange(0, k as int + 1).contains(o) implies #[trigger] ol_has(
                        self.manager.owner_layers@,
                        o,
                    ) == ol_has(old(self).manager.owner_layers@, o) && (ol_has(
                        old(self).manager.owner_layers@,
                        o,
                    ) ==> ol_layer(self.manager.owner_layers@, o) == ol_layer(
                        old(self).manager.owner_layers@,
                        o,
                    )) by {
                        assert(o != owner);
                        assert(!p.subrange(0, k as int).contains(o)) by {
                            if p.subrange(0, k as int).contains(o) {
                                lemma_prefix_contains(p, k as int, o);
                            }
                        }
                    }
                    assert forall|o: u64|
                        p.subrange(0, k as int + 1).contains(o) && !nr_has(
                            old(self).nodes@,
                            o,
                        ) implies !ol_has(self.manager.owner_layers@, o) by {
                        if o != owner {
                            let i2 = choose|i2: int|
                                0 <= i2 < k + 1 && #[trigger] p.subrange(0, k as int + 1)[i2] == o;
                            assert(p.subrange(0, k as int)[i2] == o);
                            assert(!ol_has(m0.owner_layers@, o));
                        }
                    }
                    assert forall|k2: int|
                        0 <= k2 < reports@.len() implies {
                        let rep = #[trigger] reports@[k2];
                        &&& rep.previous_layer != rep.new_layer
                        &&& p.subrange(0, k as int + 1).contains(rep.owner)
                        &&& nr_has(old(self).nodes@, rep.owner)
                        &&& ol_has(self.manager.owner_layers@, rep.owner)
                        &&& ol_layer(self.manager.owner_layers@, rep.owner) == rep.new_layer
                        &&& (pr_has(self.records@, rep.owner) ==> self.records@[
                            pr_index(self.records@, rep.owner)
                        ].part_layers@.len() == rep.updated_renderables)
                        &&& (!pr_has(self.records@, rep.owner) ==> rep.updated_renderables == 0)
                    } by {
                        let rep = reports@[k2];
                        assert(rep.owner != owner);
                        lemma_prefix_contains(p, k as int, rep.owner);
                        assert(ol_has(m0.owner_layers@, rep.owner));
                    }
                    assert forall|o: u64|
                        p.subrange(0, k as int + 1).contains(o) && nr_has(old(self).nodes@, o)
                            && ol_has(old(self).manager.owner_layers@, o) implies ol_layer(
                        self.manager.owner_layers@,
                        o,
                    ) == ol_layer(old(self).manager.owner_layers@, o) || exists|k2: int|
                        0 <= k2 < reports@.len() && (#[trigger] reports@[k2]).owner == o by {
                        assert(o != owner);
                        let i2 = choose|i2: int|
                            0 <= i2 < k + 1 && #[trigger] p.subrange(0, k as int + 1)[i2] == o;
                        assert(p.subrange(0, k as int)[i2] == o);
                        if ol_layer(m0.owner_layers@, o) == ol_layer(
                            old(self).manager.owner_layers@,
                            o,
                        ) {
                            assert(ol_has(m0.owner_layers@, o));
                        }
                    }
                }
            } else {
                match self.manager.reassign_owner_layer(owner) {
                    None => {
                        proof {
                            assert forall|i: int|
                                0 <= i < self.manager.owner_layers@.len() && lu_has(
                                    self.manager.external_layer_use@,
                                    (#[trigger] self.manager.owner_layers@[i]).layer,
                                ) implies p.subrange(k as int + 1, p.len() as int).contains(
                                self.manager.owner_layers@[i].owner,
                            ) by {
                                let o = self.manager.owner_layers@[i].owner;
                                crate::layers::lemma_ol_at(self.manager.owner_layers@, i);
                                if o == owner {
                                    assert(ol_layer(m0.owner_layers@, owner)
                                        == self.manager.owner_layers@[i].layer);
                                    assert(!m0.spec_layer_used(
                                        self.manager.owner_layers@[i].layer,
                                        Some(owner),
                                    ));
                                    assert(false);
                                }
                                assert(p.subrange(k as int, p.len() as int).contains(o));
                                lemma_subrange_step(p, k as int, o);
                            }
                            assert forall|o: u64|
                                !p.subrange(0, k as int + 1).contains(o) implies #[trigger] ol_has(
                                self.manager.owner_layers@,
                                o,
                            ) == ol_has(old(self).manager.owner_layers@, o) && (ol_has(
                                old(self).manager.owner_layers@,
                                o,
                            ) ==> ol_layer(self.manager.owner_layers@, o) == ol_layer(
                                old(self).manager.owner_layers@,
                                o,
                            )) by {
                                assert(!p.subrange(0, k as int).contains(o)) by {
                                    if p.subrange(0, k as int).contains(o) {
                                        lemma_prefix_contains(p, k as int, o);
                                    }
                                }
                            }
                            assert forall|o: u64|
                                p.subrange(0, k as int + 1).contains(o) && !nr_has(
                                    old(self).nodes@,
                                    o,
                                ) implies !ol_has(self.manager.owner_layers@, o) by {
                                assert(o != owner);
                                let i2 = choose|i2: int|
                                    0 <= i2 < k + 1 && #[trigger] p.subrange(0, k as int + 1)[i2] == o;
                                assert(p.subrange(0, k as int)[i2] == o);
                            }
                            assert forall|k2: int|
                                0 <= k2 < reports@.len() implies p.subrange(
                                0,
                                k as int + 1,
                            ).contains((#[trigger] reports@[k2]).owner) by {
                                lemma_prefix_contains(p, k as int, reports@[k2].owner);
                            }
                            assert forall|o: u64|
                                p.subrange(0, k as int + 1).contains(o) && nr_has(
                                    old(self).nodes@,
                                    o,
                                ) && ol_has(old(self).manager.owner_layers@, o) implies ol_layer(
                                self.manager.owner_layers@,
                                o,
                            ) == ol_layer(old(self).manager.owner_layers@, o) || exists|k2: int|
                                0 <= k2 < reports@.len() && (#[trigger] reports@[k2]).owner
                                    == o by {
                                if o != owner {
                                    let i2 = choose|i2: int|
                                        0 <= i2 < k + 1 && #[trigger] p.subrange(0, k as int + 1)[i2] == o;
                                    assert(p.subrange(0, k as int)[i2] == o);
                                }
                            }
                        }
                    },
                    Some((previous_layer, new_layer)) => {
                        let mut updated_renderables: usize = 0;
                        if let Some(ri) = pr_find(&self.records, owner) {
                            proof {
                                lemma_pr_at(self.records@, ri as int);
                            }
                            let parts_len = self.records[ri].part_layers.len();
                            let mut parts: Vec<usize> = Vec::new();
                            let mut j: usize = 0;
                            while j < parts_len
                                invariant
                                    0 <= j <= parts_len,
                                    parts@.len() == j,
                                    forall|q: int| 0 <= q < j ==> parts@[q] == new_layer,
                                decreases parts_len - j,
                            {
                                parts.push(new_layer);
                                j += 1;
                            }
                            let ghost s = self.records@;
                            let rec = &mut self.records[ri];
                            rec.layer = new_layer;
                            rec.part_layers = parts;
                            updated_renderables = parts_len;
                            proof {
                                let t = self.records@;
                                assert(t == s.update(ri as int, t[ri as int]));
                                assert forall|a: int, b: int|
                                    0 <= a < b < t.len() implies t[a].owner != t[b].owner && t[
                                    a
                                ].proxy.proxy_entity != t[b].proxy.proxy_entity by {
                                    assert(s[a].owner != s[b].owner);
                                    assert(s[a].proxy.proxy_entity != s[b].proxy.proxy_entity);
                                    if a != ri && b != ri {
                                        assert(t[a] == s[a] && t[b] == s[b]);
                                    } else if a == ri {
                                        assert(t[b] == s[b]);
                                    } else {
                                        assert(t[a] == s[a]);
                                    }
                                }
                            }
                        }
                        reports.push(
                            ReassignReport { owner, previous_layer, new_layer, updated_renderables },
                        );
                        proof {
                            assert forall|i: int|
                                0 <= i < self.records@.len() && ol_has(
                                    self.manager.owner_layers@,
                                    (#[trigger] self.records@[i]).owner,
                                ) implies ol_layer(self.manager.owner_layers@, self.records@[
                                i
                            ].owner) == self.records@[i].layer by {
                                let o = self.records@[i].owner;
                                if o != owner {
                                    assert(ol_has(m0.owner_layers@, o));
                                    assert(ol_layer(m0.owner_layers@, o) == ol_layer(
                                        self.manager.owner_layers@,
                                        o,
                                    ));
                                }
                            }
                            assert forall|i: int|
                                0 <= i < self.manager.owner_layers@.len() && lu_has(
                                    self.manager.external_layer_use@,
                                    (#[trigger] self.manager.owner_layers@[i]).layer,
                                ) implies p.subrange(k as int + 1, p.len() as int).contains(
                                self.manager.owner_layers@[i].owner,
                            ) by {
                                let o = self.manager.owner_layers@[i].owner;
                                crate::layers::lemma_ol_at(self.manager.owner_layers@, i);
                                if o == owner {
                                    assert(ol_layer(self.manager.owner_layers@, owner)
                                        == self.manager.owner_layers@[i].layer);
                                    assert(!m0.spec_layer_used(
                                        self.manager.owner_layers@[i].layer,
                                        Some(owner),
                                    ));
                                    assert(false);
                                } else {
                                    assert(ol_has(m0.owner_layers@, o));
                                    let j2 = crate::layers::ol_index(m0.owner_layers@, o);
                                    crate::layers::lemma_ol_at(m0.owner_layers@, j2);
                                    assert(lu_has(
                                        m0.external_layer_use@,
                                        m0.owner_layers@[j2].layer,
                                    ));
                                    assert(p.subrange(k as int, p.len() as int).contains(o));
                                    lemma_subrange_step(p, k as int, o);
                                }
                            }
                            assert(reports@ == reports0.push(
                                ReassignReport {
                                    owner,
                                    previous_layer,
                                    new_layer,
                                    updated_renderables,
                                },
                            ));
                            assert forall|o2: u64|
                                o2 != owner && pr_has(r0, o2) implies pr_has(self.records@, o2)
                                && self.records@[pr_index(self.records@, o2)] == r0[
                                pr_index(r0, o2)
                            ] by {
                                let j2 = pr_index(r0, o2);
                                lemma_pr_at(r0, j2);
                                assert(self.records@[j2].owner == o2);
                                lemma_pr_at(self.records@, j2);
                            }
                            assert forall|o2: u64|
                                o2 != owner && !pr_has(r0, o2) implies !pr_has(
                                self.records@,
                                o2,
                            ) by {
                                if pr_has(self.records@, o2) {
                                    let j2 = pr_index(self.records@, o2);
                                    lemma_pr_at(self.records@, j2);
                                    assert(r0[j2].owner == o2);
                                }
                            }
                            assert forall|o: u64|
                                !p.subrange(0, k as int + 1).contains(o) implies #[trigger] ol_has(
                                self.manager.owner_layers@,
                                o,
                            ) == ol_has(old(self).manager.owner_layers@, o) && (ol_has(
                                old(self).manager.owner_layers@,
                                o,
                            ) ==> ol_layer(self.manager.owner_layers@, o) == ol_layer(
                                old(self).manager.owner_layers@,
                                o,
                            )) by {
                                assert(o != owner);
                                assert(!p.subrange(0, k as int).contains(o)) by {
                                    if p.subrange(0, k as int).contains(o) {
                                        lemma_prefix_contains(p, k as int, o);
                                    }
                                }
                            }
                            assert forall|o: u64|
                                p.subrange(0, k as int + 1).contains(o) && !nr_has(
                                    old(self).nodes@,
                                    o,
                                ) implies !ol_has(self.manager.owner_layers@, o) by {
                                assert(o != owner);
                                let i2 = choose|i2: int|
                                    0 <= i2 < k + 1 && #[trigger] p.subrange(0, k as int + 1)[i2] == o;
                                assert(p.subrange(0, k as int)[i2] == o);
                                assert(!ol_has(m0.owner_layers@, o));
                            }
                            assert forall|k2: int|
                                0 <= k2 < reports@.len() implies {
                                let rep = #[trigger] reports@[k2];
                                &&& rep.previous_layer != rep.new_layer
                                &&& p.subrange(0, k as int + 1).contains(rep.owner)
                                &&& nr_has(old(self).nodes@, rep.owner)
                                &&& ol_has(self.manager.owner_layers@, rep.owner)
                                &&& ol_layer(self.manager.owner_layers@, rep.owner)
                                    == rep.new_layer
                                &&& (pr_has(self.records@, rep.owner) ==> self.records@[
                                    pr_index(self.records@, rep.owner)
                                ].part_layers@.len() == rep.updated_renderables)
                                &&& (!pr_has(self.records@, rep.owner)
                                    ==> rep.updated_renderables == 0)
                            } by {
                                if k2 < reports0.len() {
                                    let rep = reports0[k2];
                                    assert(reports@[k2] == rep);
                                    assert(rep.owner != owner);
                                    lemma_prefix_contains(p, k as int, rep.owner);
                                    assert(ol_has(m0.owner_layers@, rep.owner));
                                } else {
                                    assert(reports@[k2].owner == owner);
                                    if pr_has(self.records@, owner) {
                                        let j2 = pr_index(self.records@, owner);
                                        lemma_pr_at(self.records@, j2);
                                        assert(self.records@[j2].part_layers@.len()
                                            == updated_renderables);
                                    }
                                }
                            }
                            assert forall|o: u64|
                                p.subrange(0, k as int + 1).contains(o) && nr_has(
                                    old(self).nodes@,
                                    o,
                                ) && ol_has(old(self).manager.owner_layers@, o) implies ol_layer(
                                self.manager.owner_layers@,
                                o,
                            ) == ol_layer(old(self).manager.owner_layers@, o) || exists|k2: int|
                                0 <= k2 < reports@.len() && (#[trigger] reports@[k2]).owner
                                    == o by {
                                if o == owner {
                                    assert(reports@[reports0.len() as int].owner == owner);
                                } else {
                                    let i2 = choose|i2: int|
                                        0 <= i2 < k + 1 && #[trigger] p.subrange(0, k as int + 1)[i2] == o;
                                    assert(p.subrange(0, k as int)[i2] == o);
                                    if !(exists|k2: int|
                                        0 <= k2 < reports0.len() && (#[trigger] reports0[
                                            k2
                                        ]).owner == o) {
                                        assert(ol_has(m0.owner_layers@, o));
                                    } else {
                                        let k2 = choose|k2: int|
                                            0 <= k2 < reports0.len() && (#[trigger] reports0[
                                                k2
                                            ]).owner == o;
                                        assert(reports@[k2] == reports0[k2]);
                                    }
                                }
                            }
                        }
                    },
                }
            }
            k += 1;
        }
        proof {
            if p.len() == 0 {
                assert(self.manager.pending_reassign@ =~= old(self).manager.pending_reassign@);
            }
            assert(p.subrange(n as int, p.len() as int).len() == 0);
            assert forall|i: int|
                0 <= i < self.manager.owner_layers@.len() implies !lu_has(
                self.manager.external_layer_use@,
                (#[trigger] self.manager.owner_layers@[i]).layer,
            ) by {
                if lu_has(
                    self.manager.external_layer_use@,
                    self.manager.owner_layers@[i].layer,
                ) {
                    assert(p.subrange(n as int, p.len() as int).contains(
                        self.manager.owner_layers@[i].owner,
                    ));
                }
            }
        }
        reports
    }

    #[verifier::rlimit(100)]
    /// Sweep every proxy whose owner no longer carries a descriptor:
    /// release its channel, drop the record, and hand the entities back for
    /// despawning. Proxies of owners still carrying a descriptor survive
    /// untouched.
    pub fn cleanup(&mut self) -> (removed: Vec<CleanupAction>)
        requires
            old(self).wf(),
            old(self).conflicts_tracked(),
        ensures
            final(self).wf(),
            final(self).conflicts_tracked(),
            final(self).nodes@ == old(self).nodes@,
            final(self).manager.external_by_entity@ == old(self).manager.external_by_entity@,
            final(self).manager.external_layer_use@ == old(self).manager.external_layer_use@,
            final(self).manager.pending_reassign@.len() <= old(
                self,
            ).manager.pending_reassign@.len(),
            forall|i: int|
                0 <= i < final(self).records@.len() ==> nr_has(
                    old(self).nodes@,
                    (#[trigger] final(self).records@[i]).owner,
                ) && old(self).records@.contains(final(self).records@[i]),
            forall|i: int|
                0 <= i < old(self).records@.len() && nr_has(
                    old(self).nodes@,
                    (#[trigger] old(self).records@[i]).owner,
                ) ==> final(self).records@.contains(old(self).records@[i]),
            forall|i: int|
                0 <= i < old(self).records@.len() && !nr_has(
                    old(self).nodes@,
                    (#[trigger] old(self).records@[i]).owner,
                ) ==> !ol_has(final(self).manager.owner_layers@, old(self).records@[i].owner)
                    && !pr_has(final(self).records@, old(self).records@[i].owner) && !final(self).manager.pending_reassign@.contains(old(self).records@[i].owner),
            forall|i: int|
                0 <= i < old(self).records@.len() && !nr_has(
                    old(self).nodes@,
                    (#[trigger] old(self).records@[i]).owner,
                ) ==> exists|q: int|
                    0 <= q < removed@.len() && (#[trigger] removed@[q]).owner == old(self).records@[i].owner && removed@[q].proxy_entity
                            == old(self).records@[i].proxy.proxy_entity && removed@[q].camera_entity == old(self).records@[i].proxy.camera_entity,
            forall|q: int|
                0 <= q < removed@.len() ==> {
                    let o = (#[trigger] removed@[q]).owner;
                    &&& !nr_has(old(self).nodes@, o)
                    &&& pr_has(old(self).records@, o)
                    &&& removed@[q].proxy_entity == old(self).records@[pr_index(
                        old(self).records@,
                        o,
                    )].proxy.proxy_entity
                    &&& removed@[q].camera_entity == old(self).records@[pr_index(
                        old(self).records@,
                        o,
                    )].proxy.camera_entity
                },
            forall|o: u64|
                nr_has(old(self).nodes@, o) || !pr_has(old(self).records@, o) ==> {
                    &&& #[trigger] ol_has(final(self).manager.owner_layers@, o) == ol_has(
                        old(self).manager.owner_layers@,
                        o,
                    )
                    &&& (ol_has(old(self).manager.owner_layers@, o) ==> ol_layer(
                        final(self).manager.owner_layers@,
                        o,
                    ) == ol_layer(old(self).manager.owner_layers@, o))
                },
    {
        let mut old_records: Vec<ProxyRecord> = Vec::new();
        core::mem::swap(&mut old_records, &mut self.records);
        let ghost or = old_records@;
        let mut removed: Vec<CleanupAction> = Vec::new();
        proof {
            assert(or.subrange(0, or.len() as int) =~= or);
        }
        while old_records.len() > 0
            invariant
                old_records@ == or.subrange(0, old_records@.len() as int),
                old_records@.len() <= or.len(),
                or == old(self).records@,
                old(self).wf(),
                self.wf(),
                self.nodes@ == old(self).nodes@,
                self.manager.external_by_entity@ == old(self).manager.external_by_entity@,
                self.manager.external_layer_use@ == old(self).manager.external_layer_use@,
                self.manager.conflicts_marked(),
                self.manager.pending_reassign@.len() <= old(
                    self,
                ).manager.pending_reassign@.len(),
                pr_unique(or),
                forall|a: int, b: int|
                    0 <= a < b < or.len() ==> or[a].proxy.proxy_entity != or[
                        b
                    ].proxy.proxy_entity,
                forall|i: int|
                    0 <= i < self.records@.len() ==> nr_has(
                        old(self).nodes@,
                        (#[trigger] self.records@[i]).owner,
                    ) && or.contains(self.records@[i]),
                forall|i: int|
                    0 <= i < self.records@.len() ==> exists|j: int|
                        old_records@.len() <= j < or.len() && or[j] == #[trigger] self.records@[i],
                forall|j: int|
                    old_records@.len() <= j < or.len() && nr_has(
                        old(self).nodes@,
                        (#[trigger] or[j]).owner,
                    ) ==> self.records@.contains(or[j]),
                forall|j: int|
                    old_records@.len() <= j < or.len() && !nr_has(
                        old(self).nodes@,
                        (#[trigger] or[j]).owner,
                    ) ==> !ol_has(self.manager.owner_layers@, or[j].owner) && !pr_has(
                        self.records@,
                        or[j].owner,
                    ) && !self.manager.pending_reassign@.contains(or[j].owner),
                forall|j: int|
                    old_records@.len() <= j < or.len() && !nr_has(
                        old(self).nodes@,
                        (#[trigger] or[j]).owner,
                    ) ==> exists|q: int|
                        0 <= q < removed@.len() && (#[trigger] removed@[q]).owner == or[j].owner && removed@[q].proxy_entity
                            == or[j].proxy.proxy_entity && removed@[q].camera_entity == or[j].proxy.camera_entity,
                forall|q: int|
                    0 <= q < removed@.len() ==> {
                        let o = (#[trigger] removed@[q]).owner;
                        &&& !nr_has(old(self).nodes@, o)
                        &&& pr_has(or, o)
                        &&& removed@[q].proxy_entity == or[pr_index(or, o)].proxy.proxy_entity
                        &&& removed@[q].camera_entity == or[pr_index(or, o)].proxy.camera_entity
                    },
                forall|o: u64|
                    nr_has(old(self).nodes@, o) || !pr_has(or, o) ==> {
                        &&& #[trigger] ol_has(self.manager.owner_layers@, o) == ol_has(
                            old(self).manager.owner_layers@,
                            o,
                        )
                        &&& (ol_has(old(self).manager.owner_layers@, o) ==> ol_layer(
                            self.manager.owner_layers@,
                            o,
                        ) == ol_layer(old(self).manager.owner_layers@, o))
                    },
            decreases old_records.len(),
        {
            let ghost m = old_records@.len() as int;
            let record = old_records.pop().unwrap();
            proof {
                assert(record == or[m - 1]);
                assert(old_records@ =~= or.subrange(0, m - 1));
            }
            let owner = record.owner;
            let keep = nr_find(&self.nodes, owner).is_some();
            let ghost kept0 = self.records@;
            let ghost m0 = self.manager;
            if keep {
                self.records.push(record);
                proof {
                    let t = self.records@;
                    assert(t == kept0.push(or[m - 1]));
                    assert forall|a: int, b: int|
                        0 <= a < b < t.len() implies t[a].owner != t[b].owner && t[
                        a
                    ].proxy.proxy_entity != t[b].proxy.proxy_entity by {
                        if b < kept0.len() {
                            assert(t[a] == kept0[a] && t[b] == kept0[b]);
                        } else {
                            assert(t[a] == kept0[a] && t[b] == or[m - 1]);
                            let j = choose|j: int| m <= j < or.len() && or[j] == kept0[a];
                            assert(or[j].owner != or[m - 1].owner);
                            assert(or[j].proxy.proxy_entity != or[m - 1].proxy.proxy_entity);
                        }
                    }
                    assert forall|i: int|
                        0 <= i < t.len() && ol_has(
                            self.manager.owner_layers@,
                            (#[trigger] t[i]).owner,
                        ) implies ol_layer(self.manager.owner_layers@, t[i].owner) == t[
                        i
                    ].layer by {
                        if i < kept0.len() {
                            assert(t[i] == kept0[i]);
                        } else {
                            assert(t[i] == or[m - 1]);
                            let o = t[i].owner;
                            assert(nr_has(old(self).nodes@, o));
                            assert(ol_has(self.manager.owner_layers@, o) == ol_has(
                                old(self).manager.owner_layers@,
                                o,
                            ));
                            assert(old(self).records@[m - 1] == or[m - 1]);
                            assert(ol_layer(old(self).manager.owner_layers@, o) == or[
                                m - 1
                            ].layer);
                        }
                    }
                    assert forall|i: int, pq: int|
                        0 <= i < t.len() && 0 <= pq < t[i].part_layers@.len() implies #[trigger] t[
                        i
                    ].part_layers@[pq] == t[i].layer by {
                        if i < kept0.len() {
                            assert(t[i] == kept0[i]);
                        } else {
                            assert(t[i] == or[m - 1]);
                            assert(old(self).records@[m - 1] == or[m - 1]);
                            assert(old(self).records@[m - 1].part_layers@[pq] == old(
                                self,
                            ).records@[m - 1].layer);
                        }
                    }
                    assert forall|j: int|
                        m - 1 <= j < or.len() && nr_has(
                            old(self).nodes@,
                            (#[trigger] or[j]).owner,
                        ) implies t.contains(or[j]) by {
                        if j >= m {
                            assert(kept0.contains(or[j]));
                            let q = choose|q: int| 0 <= q < kept0.len() && kept0[q] == or[j];
                            assert(t[q] == or[j]);
                        } else {
                            assert(t[kept0.len() as int] == or[j]);
                        }
                    }
                    assert forall|j: int|
                        m - 1 <= j < or.len() && !nr_has(
                            old(self).nodes@,
                            (#[trigger] or[j]).owner,
                        ) implies !ol_has(self.manager.owner_layers@, or[j].owner) && !pr_has(
                        t,
                        or[j].owner,
                    ) by {
                        assert(j >= m);
                        assert(!pr_has(kept0, or[j].owner));
                        assert forall|q: int| 0 <= q < t.len() implies t[q].owner != or[
                            j
                        ].owner by {
                            if q < kept0.len() {
                                assert(t[q] == kept0[q]);
                            } else {
                                assert(t[q] == or[m - 1]);
                                assert(or[j].owner != or[m - 1].owner);
                            }
                        }
                    }
                    assert forall|i: int|
                        0 <= i < t.len() implies exists|j: int|
                            m - 1 <= j < or.len() && or[j] == #[trigger] t[i] by {
                        if i < kept0.len() {
                            assert(t[i] == kept0[i]);
                            let j = choose|j: int| m <= j < or.len() && or[j] == kept0[i];
                            assert(or[j] == t[i]);
                        } else {
                            assert(or[m - 1] == t[i]);
                        }
                    }
                }
            } else {
                let action = CleanupAction {
                    owner,
                    proxy_entity: record.proxy.proxy_entity,
                    camera_entity: record.proxy.camera_entity,
                };
                self.manager.release_owner(owner);
                let ghost removed0 = removed@;
                removed.push(action);
                proof {
                    assert(!nr_has(old(self).nodes@, owner));
                    assert(removed@ == removed0.push(action));
                    assert forall|j: int|
                        m - 1 <= j < or.len() && !nr_has(
                            old(self).nodes@,
                            (#[trigger] or[j]).owner,
                        ) implies exists|q: int|
                        0 <= q < removed@.len() && (#[trigger] removed@[q]).owner == or[j].owner && removed@[q].proxy_entity
                            == or[j].proxy.proxy_entity && removed@[q].camera_entity == or[j].proxy.camera_entity by {
                        if j == m - 1 {
                            assert(removed@[removed0.len() as int] == action);
                        } else {
                            let q = choose|q: int|
                                0 <= q < removed0.len() && (#[trigger] removed0[q]).owner == or[j].owner && removed0[q].proxy_entity
                            == or[j].proxy.proxy_entity && removed0[q].camera_entity == or[j].proxy.camera_entity;
                            assert(removed@[q] == removed0[q]);
                        }
                    }
                    lemma_pr_at(or, m - 1);
                    assert forall|q: int|
                        0 <= q < removed@.len() implies {
                        let o = (#[trigger] removed@[q]).owner;
                        &&& !nr_has(old(self).nodes@, o)
                        &&& pr_has(or, o)
                        &&& removed@[q].proxy_entity == or[pr_index(or, o)].proxy.proxy_entity
                        &&& removed@[q].camera_entity == or[pr_index(or, o)].proxy.camera_entity
                    } by {
                        if q < removed0.len() {
                            assert(removed@[q] == removed0[q]);
                        } else {
                            assert(removed@[q] == action);
                            assert(or[m - 1].owner == owner);
                        }
                    }
                    assert forall|i: int|
                        0 <= i < self.records@.len() && ol_has(
                            self.manager.owner_layers@,
                            (#[trigger] self.records@[i]).owner,
                        ) implies ol_layer(self.manager.owner_layers@, self.records@[i].owner)
                        == self.records@[i].layer by {
                        let o = self.records@[i].owner;
                        assert(nr_has(old(self).nodes@, o));
                        assert(o != owner);
                        assert(ol_has(m0.owner_layers@, o));
                    }
                    assert forall|o: u64|
                        nr_has(old(self).nodes@, o) || !pr_has(or, o) implies {
                        &&& #[trigger] ol_has(self.manager.owner_layers@, o) == ol_has(
                            old(self).manager.owner_layers@,
                            o,
                        )
                        &&& (ol_has(old(self).manager.owner_layers@, o) ==> ol_layer(
                            self.manager.owner_layers@,
                            o,
                        ) == ol_layer(old(self).manager.owner_layers@, o))
                    } by {
                        assert(pr_has(or, owner)) by {
                            assert(or[m - 1].owner == owner);
                        }
                        assert(o != owner);
                    }
                    assert forall|j: int|
                        m - 1 <= j < or.len() && !nr_has(
                            old(self).nodes@,
                            (#[trigger] or[j]).owner,
                        ) implies !ol_has(self.manager.owner_layers@, or[j].owner) && !pr_has(
                        self.records@,
                        or[j].owner,
                    ) by {
                        if j >= m {
                            if or[j].owner == owner {
                            } else {
                                assert(!ol_has(m0.owner_layers@, or[j].owner));
                                assert(!pr_has(kept0, or[j].owner));
                            }
                        } else {
                            assert(or[j].owner == owner);
                            assert forall|q: int|
                                0 <= q < self.records@.len() implies self.records@[q].owner
                                != owner by {
                                assert(nr_has(old(self).nodes@, self.records@[q].owner));
                            }
                        }
                    }
                    assert forall|j: int|
                        m - 1 <= j < or.len() && nr_has(
                            old(self).nodes@,
                            (#[trigger] or[j]).owner,
                        ) implies self.records@.contains(or[j]) by {
                        assert(j >= m);
                    }
                }
            }
        }
        proof {
            assert(or.subrange(0, 0) =~= Seq::<ProxyRecord>::empty());
        }
        removed
    }
}


} // verus!
