//! One update cycle, stage by stage in the subsystem's fixed order.
//!
//! Every cycle the pipeline runs: refresh external channel usage, create
//! proxies for newly descriptored owners, resolve pending channel
//! conflicts, refresh content-size hints, synchronize transforms and
//! visibility, forward ready signals, apply animation diffs, and sweep
//! orphaned proxies. The host engine collects the cycle's inputs up front
//! and acts on the outputs afterwards; the decisions in between all run
//! here. After a cycle no owner's channel collides with external usage and
//! every surviving proxy belongs to an owner that still carries a
//! descriptor.

use crate::differ::spec_anim_opt_eq;
use crate::differ::AnimationAction;
use crate::differ::SpineUiNonAnimationState;
use crate::fit::compute_proxy_sync;
use crate::fit::sync_plan_matches;
use crate::fit::ProxySyncPlan;
use crate::frac::FRAC_MAG;
use crate::layers::lu_has;
use crate::layers::ol_has;
use crate::layers::ol_index;
use crate::layers::ol_layer;
use crate::layers::LAYER_TABLE_CAP;
use crate::node::FracVec2;
use crate::node::SpineUiAnimation;
use crate::node::SpineUiNode;
use crate::registry::lemma_nr_at;
use crate::registry::lemma_pr_at;
use crate::registry::lemma_pr_proxy_at;
use crate::registry::lemma_pr_value_at;
use crate::registry::lemma_prefix_contains;
use crate::registry::pr_proxy_index;
use crate::registry::ProxyRecord;
use crate::registry::nr_has;
use crate::registry::nr_node;
use crate::registry::pr_has;
use crate::registry::pr_has_proxy;
use crate::registry::pr_index;
use crate::registry::NodeRecord;
use crate::registry::CleanupAction;
use crate::registry::ReassignReport;
use crate::registry::SpineUiReadyEvent;
use crate::registry::SpineUiRegistry;
use vstd::prelude::*;

verus! {

/// An external entity and the channel set it claims.
pub struct ExternalUsage {
    pub entity: u64,
    pub layers: Vec<usize>,
}

/// An owner whose descriptor appeared or changed this cycle.
pub struct ChangedNode {
    pub owner: u64,
    pub node: SpineUiNode,
}

/// An owner newly carrying a descriptor, with the entities the host engine
/// spawned for its off-screen pass.
pub struct AddedNode {
    pub owner: u64,
    pub proxy_entity: u64,
    pub camera_entity: u64,
}

/// One owner's layout result: the available area, the content's authored
/// bounding box, and the owner's inherited visibility.
pub struct LayoutInput {
    pub owner: u64,
    pub available: FracVec2,
    pub setup_min: FracVec2,
    pub setup_size: FracVec2,
    pub visible: bool,
}

/// Everything the host engine collected for one update cycle.
pub struct CycleInputs {
    /// External entities whose channel claims were removed.
    pub external_removed: Vec<u64>,
    /// External entities whose channel claims appeared or changed.
    pub external_changed: Vec<ExternalUsage>,
    /// Owners whose descriptor appeared or changed.
    pub changed_nodes: Vec<ChangedNode>,
    /// Owners whose descriptor was removed.
    pub removed_nodes: Vec<u64>,
    /// Owners to set a proxy up for.
    pub added_nodes: Vec<AddedNode>,
    /// Layout results to synchronize transforms from.
    pub layouts: Vec<LayoutInput>,
    /// Proxy entities whose embedded content reported ready.
    pub ready: Vec<u64>,
}

/// A content-size hint to hand to the layout engine, or to drop.
pub struct ContentHint {
    pub owner: u64,
    pub size: Option<FracVec2>,
}

/// One owner's transform, visibility and tint push for the renderer.
pub struct OwnerSync {
    pub owner: u64,
    pub plan: ProxySyncPlan,
}

/// One playback command: set the animation on the track, or clear it.
pub struct PlaybackCommand {
    pub owner: u64,
    pub animation: Option<SpineUiAnimation>,
}

/// Everything the host engine must act on after one update cycle.
pub struct CycleOutputs {
    pub content_hints: Vec<ContentHint>,
    pub reassignments: Vec<ReassignReport>,
    pub transforms: Vec<OwnerSync>,
    pub ready_events: Vec<SpineUiReadyEvent>,
    pub playback: Vec<PlaybackCommand>,
    pub removed: Vec<CleanupAction>,
}

/// Channels claimed over a batch of external-usage updates.
pub open spec fn total_claimed(s: Seq<ExternalUsage>) -> nat
    decreases s.len(),
{
    if s.len() == 0 {
        0
    } else {
        s[0].layers@.len() + total_claimed(s.drop_first())
    }
}

/// The cycle's inputs fit the tables and respect the library's bounds.
pub open spec fn inputs_wf(reg: SpineUiRegistry, inputs: CycleInputs) -> bool {
    &&& (forall|i: int|
        0 <= i < inputs.external_changed@.len() ==> (#[trigger] inputs.external_changed@[
            i
        ]).layers@.no_duplicates())
    &&& (forall|i: int, j: int|
        0 <= i < inputs.external_changed@.len() && 0 <= j
            < inputs.external_changed@[i].layers@.len()
            ==> #[trigger] inputs.external_changed@[i].layers@[j] < usize::MAX - 1)
    &&& reg.manager.external_by_entity@.len() + inputs.external_changed@.len()
        <= LAYER_TABLE_CAP
    &&& reg.manager.external_layer_use@.len() + total_claimed(inputs.external_changed@)
        <= LAYER_TABLE_CAP
    &&& (forall|i: int|
        0 <= i < inputs.changed_nodes@.len() ==> (#[trigger] inputs.changed_nodes@[
            i
        ]).node.wf() && inputs.changed_nodes@[i].node.in_mag())
    &&& reg.manager.owner_layers@.len() + inputs.added_nodes@.len() <= LAYER_TABLE_CAP
    &&& (forall|i: int|
        0 <= i < inputs.added_nodes@.len() ==> !pr_has_proxy(
            reg.records@,
            (#[trigger] inputs.added_nodes@[i]).proxy_entity,
        ))
    &&& (forall|i: int, j: int|
        0 <= i < j < inputs.added_nodes@.len() ==> inputs.added_nodes@[i].proxy_entity
            != inputs.added_nodes@[j].proxy_entity)
    &&& (forall|i: int|
        0 <= i < inputs.layouts@.len() ==> {
            let l = #[trigger] inputs.layouts@[i];
            &&& l.available.wf() && l.available.mag_le(FRAC_MAG as int)
            &&& l.setup_min.wf() && l.setup_min.mag_le(FRAC_MAG as int)
            &&& l.setup_size.wf() && l.setup_size.mag_le(FRAC_MAG as int)
        })
    &&& inputs.ready@.no_duplicates()
}

/// A ready signal for this proxy has been served: the owner-facing event
/// was emitted; while the owner carries a descriptor, a playback command
/// carries its request; and the proxy's record shows the content ready with
/// the applied request and snapshot recorded. `rp` addresses records as
/// they stood when the signals were processed; `cur` is the table now.
pub open spec fn spec_ready_served(
    rp: Seq<ProxyRecord>,
    nodes: Seq<NodeRecord>,
    events: Seq<SpineUiReadyEvent>,
    playback: Seq<PlaybackCommand>,
    cur: Seq<ProxyRecord>,
    pe: u64,
) -> bool {
    let ix = pr_proxy_index(rp, pe);
    let owner = rp[ix].owner;
    &&& (exists|j: int|
        0 <= j < events.len() && (#[trigger] events[j]).entity == owner && events[j].proxy_entity
            == pe)
    &&& (nr_has(nodes, owner) ==> exists|j: int|
        0 <= j < playback.len() && (#[trigger] playback[j]).owner == owner && spec_anim_opt_eq(
            playback[j].animation,
            nr_node(nodes, owner).animation,
        ))
    &&& cur[ix].content_ready
    &&& (nr_has(nodes, owner) ==> spec_anim_opt_eq(
        cur[ix].state.last_applied,
        nr_node(nodes, owner).animation,
    ) && cur[ix].state.last_non_animation == Some(
        SpineUiNonAnimationState::spec_of(nr_node(nodes, owner)),
    ))
}

/// Refresh the descriptor table: changed descriptors are recorded (the
/// last write for an owner wins), removed descriptors are dropped, every
/// other owner's descriptor is untouched.
#[verifier::rlimit(100)]
#[verifier::spinoff_prover]
fn refresh_descriptors(
    reg: &mut SpineUiRegistry,
    changed_nodes: &Vec<ChangedNode>,
    removed_nodes: &Vec<u64>,
)
    requires
        old(reg).wf(),
        old(reg).conflicts_tracked(),
        forall|i: int|
            0 <= i < changed_nodes@.len() ==> (#[trigger] changed_nodes@[i]).node.wf()
                && changed_nodes@[i].node.in_mag(),
    ensures
        final(reg).wf(),
        final(reg).conflicts_tracked(),
        final(reg).manager == old(reg).manager,
        final(reg).records@ == old(reg).records@,
{
    let n_changed = changed_nodes.len();
    let mut c: usize = 0;
    while c < n_changed
        invariant
            n_changed == changed_nodes.len(),
            0 <= c <= n_changed,
            forall|i2: int|
                0 <= i2 < n_changed ==> (#[trigger] changed_nodes@[i2]).node.wf()
                    && changed_nodes@[i2].node.in_mag(),
            reg.wf(),
            reg.conflicts_tracked(),
            reg.manager == old(reg).manager,
            reg.records@ == old(reg).records@,
        decreases n_changed - c,
    {
        let changed = &changed_nodes[c];
        reg.insert_node(changed.owner, changed.node.clone());
        c += 1;
    }
    let n_removed = removed_nodes.len();
    let mut r: usize = 0;
    while r < n_removed
        invariant
            n_removed == removed_nodes.len(),
            0 <= r <= n_removed,
            reg.wf(),
            reg.conflicts_tracked(),
            reg.manager == old(reg).manager,
            reg.records@ == old(reg).records@,
        decreases n_removed - r,
    {
        reg.remove_node(removed_nodes[r]);
        r += 1;
    }
}

/// Run one update cycle in the pipeline's fixed order. Afterwards no
/// owner's channel is externally referenced, nothing is left pending, and
/// every surviving proxy record belongs to an owner still carrying a
/// descriptor.
#[verifier::rlimit(100)]
#[verifier::spinoff_prover]
pub fn run_update_cycle(reg: &mut SpineUiRegistry, inputs: CycleInputs) -> (out: CycleOutputs)
    requires
        old(reg).wf(),
        old(reg).conflicts_tracked(),
        inputs_wf(*old(reg), inputs),
    ensures
        final(reg).wf(),
        final(reg).conflicts_tracked(),
        final(reg).manager.no_conflicts(),
        final(reg).manager.pending_reassign@.len() == 0,
        forall|i: int|
            0 <= i < final(reg).records@.len() ==> nr_has(
                final(reg).nodes@,
                (#[trigger] final(reg).records@[i]).owner,
            ),
        out.content_hints@.len() == inputs.changed_nodes@.len(),
        forall|k: int|
            0 <= k < out.content_hints@.len() ==> (#[trigger] out.content_hints@[k]).owner
                == inputs.changed_nodes@[k].owner && out.content_hints@[k].size
                == inputs.changed_nodes@[k].node.auto_size,
        forall|i: int|
            0 <= i < inputs.layouts@.len() && nr_has(
                final(reg).nodes@,
                (#[trigger] inputs.layouts@[i]).owner,
            ) ==> exists|j: int|
                0 <= j < out.transforms@.len() && (#[trigger] out.transforms@[j]).owner
                    == inputs.layouts@[i].owner && sync_plan_matches(
                    out.transforms@[j].plan,
                    nr_node(final(reg).nodes@, inputs.layouts@[i].owner),
                    inputs.layouts@[i].available,
                    inputs.layouts@[i].setup_min,
                    inputs.layouts@[i].setup_size,
                    inputs.layouts@[i].visible,
                ),
        forall|i: int|
            0 <= i < inputs.ready@.len() && pr_has_proxy(
                old(reg).records@,
                #[trigger] inputs.ready@[i],
            ) ==> {
                let owner = old(reg).records@[pr_proxy_index(
                    old(reg).records@,
                    inputs.ready@[i],
                )].owner;
                &&& (exists|j: int|
                    0 <= j < out.ready_events@.len() && (#[trigger] out.ready_events@[j]).entity
                        == owner && out.ready_events@[j].proxy_entity == inputs.ready@[i])
                &&& (nr_has(final(reg).nodes@, owner) ==> exists|j: int|
                    0 <= j < out.playback@.len() && (#[trigger] out.playback@[j]).owner == owner
                        && spec_anim_opt_eq(
                        out.playback@[j].animation,
                        nr_node(final(reg).nodes@, owner).animation,
                    ))
                &&& (pr_has(final(reg).records@, owner) ==> {
                    let rec = final(reg).records@[pr_index(final(reg).records@, owner)];
                    &&& rec.content_ready
                    &&& (nr_has(final(reg).nodes@, owner) ==> spec_anim_opt_eq(
                        rec.state.last_applied,
                        nr_node(final(reg).nodes@, owner).animation,
                    ) && rec.state.last_non_animation == Some(
                        SpineUiNonAnimationState::spec_of(nr_node(final(reg).nodes@, owner)),
                    ))
                })
            },
        forall|j: int|
            0 <= j < out.ready_events@.len() ==> inputs.ready@.contains(
                (#[trigger] out.ready_events@[j]).proxy_entity,
            ),
        forall|i: int|
            0 <= i < old(reg).records@.len() && !nr_has(
                final(reg).nodes@,
                (#[trigger] old(reg).records@[i]).owner,
            ) ==> exists|q: int|
                0 <= q < out.removed@.len() && (#[trigger] out.removed@[q]).owner == old(
                    reg,
                ).records@[i].owner && out.removed@[q].proxy_entity == old(
                    reg,
                ).records@[i].proxy.proxy_entity && out.removed@[q].camera_entity == old(
                    reg,
                ).records@[i].proxy.camera_entity,
        forall|q: int|
            0 <= q < out.removed@.len() ==> !nr_has(
                final(reg).nodes@,
                (#[trigger] out.removed@[q]).owner,
            ),
        forall|k: int|
            0 <= k < out.reassignments@.len() ==> {
                let rep = #[trigger] out.reassignments@[k];
                &&& rep.previous_layer != rep.new_layer
                &&& nr_has(final(reg).nodes@, rep.owner)
                &&& ol_has(final(reg).manager.owner_layers@, rep.owner)
                &&& ol_layer(final(reg).manager.owner_layers@, rep.owner) == rep.new_layer
                &&& (pr_has(final(reg).records@, rep.owner) ==> final(reg).records@[
                    pr_index(final(reg).records@, rep.owner)
                ].part_layers@.len() == rep.updated_renderables)
            },
{
    let mut out = CycleOutputs {
        content_hints: Vec::new(),
        reassignments: Vec::new(),
        transforms: Vec::new(),
        ready_events: Vec::new(),
        playback: Vec::new(),
        removed: Vec::new(),
    };

    // External entities that went away release their channel references.
    let n_removed_ext = inputs.external_removed.len();
    let mut i: usize = 0;
    while i < n_removed_ext
        invariant
            n_removed_ext == inputs.external_removed.len(),
            0 <= i <= n_removed_ext,
            reg.wf(),
            reg.conflicts_tracked(),
            reg.manager.external_by_entity@.len() <= old(reg).manager.external_by_entity@.len(),
            reg.manager.external_layer_use@.len() <= old(reg).manager.external_layer_use@.len(),
            reg.manager.owner_layers@ == old(reg).manager.owner_layers@,
            reg.records@ == old(reg).records@,
            reg.nodes@ == old(reg).nodes@,
        decreases n_removed_ext - i,
    {
        reg.remove_external_usage(inputs.external_removed[i]);
        i += 1;
    }

    // Fresh or changed external claims are recorded; collisions mark owners.
    let mut external_changed = inputs.external_changed;
    let ghost changed0 = external_changed@;
    let n_changed_ext = external_changed.len();
    let mut k: usize = 0;
    while k < n_changed_ext
        invariant
            n_changed_ext == changed0.len(),
            external_changed@ == changed0.subrange(k as int, changed0.len() as int),
            0 <= k <= n_changed_ext,
            forall|i2: int|
                0 <= i2 < changed0.len() ==> (#[trigger] changed0[
                    i2
                ]).layers@.no_duplicates(),
            forall|i2: int, j2: int|
                0 <= i2 < changed0.len() && 0 <= j2 < changed0[i2].layers@.len()
                    ==> #[trigger] changed0[i2].layers@[j2] < usize::MAX - 1,
            reg.wf(),
            reg.conflicts_tracked(),
            reg.manager.external_by_entity@.len() + (n_changed_ext - k) <= LAYER_TABLE_CAP,
            reg.manager.external_layer_use@.len() + total_claimed(external_changed@)
                <= LAYER_TABLE_CAP,
            reg.manager.owner_layers@ == old(reg).manager.owner_layers@,
            reg.records@ == old(reg).records@,
            reg.nodes@ == old(reg).nodes@,
        decreases n_changed_ext - k,
    {
        proof {
            assert(external_changed@[0] == changed0[k as int]);
            assert(total_claimed(external_changed@) == external_changed@[0].layers@.len()
                + total_claimed(external_changed@.drop_first()));
        }
        let usage = external_changed.remove(0);
        proof {
            assert(external_changed@ =~= changed0.subrange(k as int + 1, changed0.len() as int));
        }
        reg.upsert_external_usage(usage.entity, usage.layers);
        k += 1;
    }

    // Descriptor state is refreshed before proxies are set up: the records
    // mirror what the owners carry when the cycle's systems run.
    let n_changed = inputs.changed_nodes.len();
    refresh_descriptors(reg, &inputs.changed_nodes, &inputs.removed_nodes);
    let ghost refreshed = *reg;

    // Newly descriptored owners get a channel, a proxy and a camera.
    let n_added = inputs.added_nodes.len();
    let mut a: usize = 0;
    while a < n_added
        invariant
            n_added == inputs.added_nodes.len(),
            0 <= a <= n_added,
            reg.wf(),
            reg.conflicts_tracked(),
            reg.manager.owner_layers@.len() + (n_added - a) <= LAYER_TABLE_CAP,
            forall|i2: int, j2: int|
                0 <= i2 < j2 < n_added ==> inputs.added_nodes@[i2].proxy_entity
                    != inputs.added_nodes@[j2].proxy_entity,
            forall|i2: int|
                a <= i2 < n_added ==> !pr_has_proxy(
                    reg.records@,
                    (#[trigger] inputs.added_nodes@[i2]).proxy_entity,
                ),
            reg.records@.len() >= old(reg).records@.len(),
            forall|i2: int|
                0 <= i2 < old(reg).records@.len() ==> #[trigger] reg.records@[i2] == old(
                    reg,
                ).records@[i2],
        decreases n_added - a,
    {
        let added = &inputs.added_nodes[a];
        let ghost recs0 = reg.records@;
        reg.setup_node(added.owner, added.proxy_entity, added.camera_entity);
        proof {
            assert forall|i2: int|
                a + 1 <= i2 < n_added implies !pr_has_proxy(
                reg.records@,
                (#[trigger] inputs.added_nodes@[i2]).proxy_entity,
            ) by {
                let pe = inputs.added_nodes@[i2].proxy_entity;
                if reg.records@ != recs0 {
                    assert(reg.records@ == recs0.push(reg.records@.last()));
                    if pr_has_proxy(reg.records@, pe) {
                        let j = choose|j: int|
                            0 <= j < reg.records@.len() && reg.records@[j].proxy.proxy_entity
                                == pe;
                        if j < recs0.len() {
                            assert(recs0[j].proxy.proxy_entity == pe);
                        } else {
                            assert(reg.records@[j].proxy.proxy_entity == inputs.added_nodes@[
                                a as int
                            ].proxy_entity);
                        }
                    }
                } else {
                    if pr_has_proxy(reg.records@, pe) {
                        assert(pr_has_proxy(recs0, pe));
                    }
                }
            }
        }
        a += 1;
    }

    // Channel conflicts marked by the external refresh are resolved now.
    let ghost pre_resolve = *reg;
    out.reassignments = reg.resolve_render_layer_conflicts();
    let ghost resolved = *reg;
    let ghost reassignments_done = out.reassignments@;
    proof {
        assert forall|i: int| 0 <= i < old(reg).records@.len() implies {
            let rp = #[trigger] resolved.records@[i];
            let r0 = old(reg).records@[i];
            &&& rp.owner == r0.owner
            &&& rp.proxy == r0.proxy
            &&& rp.state == r0.state
            &&& rp.content_ready == r0.content_ready
        } by {
            assert(pre_resolve.records@[i] == old(reg).records@[i]);
        }
        assert(resolved.records@.len() >= old(reg).records@.len());
    }

    // Changed descriptors refresh their content-size hint.
    let mut h: usize = 0;
    while h < n_changed
        invariant
            n_changed == inputs.changed_nodes.len(),
            0 <= h <= n_changed,
            out.content_hints@.len() == h,
            forall|k: int|
                0 <= k < h ==> (#[trigger] out.content_hints@[k]).owner
                    == inputs.changed_nodes@[k].owner && out.content_hints@[k].size
                    == inputs.changed_nodes@[k].node.auto_size,
            out.ready_events@.len() == 0,
            out.playback@.len() == 0,
            out.reassignments@ == reassignments_done,
        decreases n_changed - h,
    {
        let changed = &inputs.changed_nodes[h];
        out.content_hints.push(
            ContentHint { owner: changed.owner, size: changed.node.auto_size },
        );
        h += 1;
    }

    let ghost hints_done = out.content_hints@;

    // Transforms, visibility and tint follow the layout results.
    let ghost stage_nodes = reg.nodes@;
    let n_layouts = inputs.layouts.len();
    let mut t: usize = 0;
    while t < n_layouts
        invariant
            n_layouts == inputs.layouts.len(),
            0 <= t <= n_layouts,
            forall|i2: int|
                0 <= i2 < n_layouts ==> {
                    let l = #[trigger] inputs.layouts@[i2];
                    &&& l.available.wf() && l.available.mag_le(FRAC_MAG as int)
                    &&& l.setup_min.wf() && l.setup_min.mag_le(FRAC_MAG as int)
                    &&& l.setup_size.wf() && l.setup_size.mag_le(FRAC_MAG as int)
                },
            reg.wf(),
            reg.nodes@ == stage_nodes,
            out.content_hints@ == hints_done,
            out.ready_events@.len() == 0,
            out.playback@.len() == 0,
            out.reassignments@ == reassignments_done,
            forall|i2: int|
                0 <= i2 < t && nr_has(stage_nodes, (#[trigger] inputs.layouts@[i2]).owner)
                    ==> exists|j: int|
                    0 <= j < out.transforms@.len() && (#[trigger] out.transforms@[j]).owner
                        == inputs.layouts@[i2].owner && sync_plan_matches(
                        out.transforms@[j].plan,
                        nr_node(stage_nodes, inputs.layouts@[i2].owner),
                        inputs.layouts@[i2].available,
                        inputs.layouts@[i2].setup_min,
                        inputs.layouts@[i2].setup_size,
                        inputs.layouts@[i2].visible,
                    ),
        decreases n_layouts - t,
    {
        let layout = &inputs.layouts[t];
        if let Some(ni) = crate::registry::nr_find(&reg.nodes, layout.owner) {
            proof {
                lemma_nr_at(reg.nodes@, ni as int);
            }
            let plan = compute_proxy_sync(
                &reg.nodes[ni].node,
                layout.available,
                layout.setup_min,
                layout.setup_size,
                layout.visible,
            );
            let ghost before = out.transforms@;
            out.transforms.push(OwnerSync { owner: layout.owner, plan });
            proof {
                assert(out.transforms@[before.len() as int].owner == layout.owner);
                assert forall|i2: int|
                    0 <= i2 < t + 1 && nr_has(
                        stage_nodes,
                        (#[trigger] inputs.layouts@[i2]).owner,
                    ) implies exists|j: int|
                    0 <= j < out.transforms@.len() && (#[trigger] out.transforms@[j]).owner
                        == inputs.layouts@[i2].owner && sync_plan_matches(
                        out.transforms@[j].plan,
                        nr_node(stage_nodes, inputs.layouts@[i2].owner),
                        inputs.layouts@[i2].available,
                        inputs.layouts@[i2].setup_min,
                        inputs.layouts@[i2].setup_size,
                        inputs.layouts@[i2].visible,
                    ) by {
                    if i2 < t {
                        let j = choose|j: int|
                            0 <= j < before.len() && (#[trigger] before[j]).owner
                                == inputs.layouts@[i2].owner && sync_plan_matches(
                                before[j].plan,
                                nr_node(stage_nodes, inputs.layouts@[i2].owner),
                                inputs.layouts@[i2].available,
                                inputs.layouts@[i2].setup_min,
                                inputs.layouts@[i2].setup_size,
                                inputs.layouts@[i2].visible,
                            );
                        assert(out.transforms@[j] == before[j]);
                    } else {
                        assert(out.transforms@[before.len() as int] == OwnerSync {
                            owner: layout.owner,
                            plan,
                        });
                    }
                }
            }
        }
        t += 1;
    }

    let ghost transforms_done = out.transforms@;

    // Ready signals are forwarded and perform the initial application.
    let n_ready = inputs.ready.len();
    let mut y: usize = 0;
    while y < n_ready
        invariant
            n_ready == inputs.ready.len(),
            inputs.ready@.no_duplicates(),
            0 <= y <= n_ready,
            reg.wf(),
            reg.conflicts_tracked(),
            reg.manager == resolved.manager,
            reg.nodes@ == stage_nodes,
            out.content_hints@ == hints_done,
            out.transforms@ == transforms_done,
            out.reassignments@ == reassignments_done,
            resolved.wf(),
            reg.records@.len() == resolved.records@.len(),
            forall|i: int|
                0 <= i < reg.records@.len() ==> (#[trigger] reg.records@[i]).owner
                    == resolved.records@[i].owner && reg.records@[i].proxy == resolved.records@[
                    i
                ].proxy && reg.records@[i].layer == resolved.records@[i].layer && reg.records@[
                    i
                ].part_layers == resolved.records@[i].part_layers,
            forall|i2: int|
                0 <= i2 < y && pr_has_proxy(
                    resolved.records@,
                    #[trigger] inputs.ready@[i2],
                ) ==> spec_ready_served(
                    resolved.records@,
                    stage_nodes,
                    out.ready_events@,
                    out.playback@,
                    reg.records@,
                    inputs.ready@[i2],
                ),
            forall|i: int|
                0 <= i < reg.records@.len() && !inputs.ready@.subrange(0, y as int).contains(
                    (#[trigger] reg.records@[i]).proxy.proxy_entity,
                ) ==> reg.records@[i].state == resolved.records@[i].state && reg.records@[
                    i
                ].content_ready == resolved.records@[i].content_ready,
            forall|j: int|
                0 <= j < out.ready_events@.len() ==> inputs.ready@.contains(
                    (#[trigger] out.ready_events@[j]).proxy_entity,
                ),
        decreases n_ready - y,
    {
        let pe = inputs.ready[y];
        let ghost cur0 = reg.records@;
        let ghost events0 = out.ready_events@;
        let ghost playback0 = out.playback@;
        proof {
            assert(inputs.ready@.subrange(0, y as int + 1) =~= inputs.ready@.subrange(
                0,
                y as int,
            ).push(pe));
        }
        if let Some(outcome) = reg.process_ready(pe) {
            out.ready_events.push(outcome.event);
            if let Some(apply) = outcome.apply {
                out.playback.push(
                    PlaybackCommand { owner: outcome.event.entity, animation: apply.animation },
                );
            }
            proof {
                let ix = pr_proxy_index(cur0, pe);
                let owner = cur0[ix].owner;
                assert(reg.records@ == cur0.update(ix, reg.records@[ix]));
                lemma_pr_proxy_at(resolved.records@, ix);
                assert(pr_proxy_index(resolved.records@, pe) == ix);
                assert(out.ready_events@[events0.len() as int].entity == owner);
                assert forall|i2: int|
                    0 <= i2 < y + 1 && pr_has_proxy(
                        resolved.records@,
                        #[trigger] inputs.ready@[i2],
                    ) implies spec_ready_served(
                    resolved.records@,
                    stage_nodes,
                    out.ready_events@,
                    out.playback@,
                    reg.records@,
                    inputs.ready@[i2],
                ) by {
                    let pe2 = inputs.ready@[i2];
                    let ix2 = pr_proxy_index(resolved.records@, pe2);
                    lemma_pr_proxy_at(resolved.records@, ix2);
                    if i2 == y {
                        assert(ix2 == ix);
                        if nr_has(stage_nodes, owner) {
                            assert(out.playback@[playback0.len() as int].owner == owner);
                        }
                    } else {
                        assert(pe2 != pe);
                        assert(resolved.records@[ix2].proxy.proxy_entity == pe2);
                        assert(cur0[ix2].proxy.proxy_entity == pe2);
                        assert(ix2 != ix);
                        assert(reg.records@[ix2] == cur0[ix2]);
                        assert forall|j: int|
                            0 <= j < events0.len() implies out.ready_events@[j] == events0[
                            j
                        ] by {}
                        assert forall|j: int|
                            0 <= j < playback0.len() implies out.playback@[j] == playback0[
                            j
                        ] by {}
                    }
                }
                assert forall|i: int|
                    0 <= i < reg.records@.len() && !inputs.ready@.subrange(
                        0,
                        y as int + 1,
                    ).contains((#[trigger] reg.records@[i]).proxy.proxy_entity) implies reg
                    .records@[i].state == resolved.records@[i].state && reg.records@[
                    i
                ].content_ready == resolved.records@[i].content_ready by {
                    if i != ix {
                        assert(reg.records@[i] == cur0[i]);
                        assert(!inputs.ready@.subrange(0, y as int).contains(
                            cur0[i].proxy.proxy_entity,
                        )) by {
                            if inputs.ready@.subrange(0, y as int).contains(
                                cur0[i].proxy.proxy_entity,
                            ) {
                                lemma_prefix_contains(
                                    inputs.ready@,
                                    y as int,
                                    cur0[i].proxy.proxy_entity,
                                );
                            }
                        }
                    } else {
                        assert(inputs.ready@.subrange(0, y as int + 1)[y as int] == pe);
                        assert(reg.records@[ix].proxy.proxy_entity == pe);
                    }
                }
            }
        } else {
            proof {
                assert(!pr_has_proxy(cur0, pe));
                assert forall|i2: int|
                    0 <= i2 < y + 1 && pr_has_proxy(
                        resolved.records@,
                        #[trigger] inputs.ready@[i2],
                    ) implies spec_ready_served(
                    resolved.records@,
                    stage_nodes,
                    out.ready_events@,
                    out.playback@,
                    reg.records@,
                    inputs.ready@[i2],
                ) by {
                    if i2 == y {
                        let ix2 = pr_proxy_index(resolved.records@, pe);
                        lemma_pr_proxy_at(resolved.records@, ix2);
                        assert(reg.records@[ix2].proxy.proxy_entity == pe);
                        assert(pr_has_proxy(cur0, pe));
                    }
                }
                assert forall|i: int|
                    0 <= i < reg.records@.len() && !inputs.ready@.subrange(
                        0,
                        y as int + 1,
                    ).contains((#[trigger] reg.records@[i]).proxy.proxy_entity) implies reg
                    .records@[i].state == resolved.records@[i].state && reg.records@[
                    i
                ].content_ready == resolved.records@[i].content_ready by {
                    if inputs.ready@.subrange(0, y as int).contains(
                        reg.records@[i].proxy.proxy_entity,
                    ) {
                        lemma_prefix_contains(
                            inputs.ready@,
                            y as int,
                            reg.records@[i].proxy.proxy_entity,
                        );
                    }
                }
            }
        }
        y += 1;
    }
    proof {
        assert(inputs.ready@.subrange(0, n_ready as int) =~= inputs.ready@);
    }
    let ghost events_done = out.ready_events@;
    let ghost ready_records = reg.records@;

    // Animation diffs run for every changed descriptor.
    let mut d: usize = 0;
    while d < n_changed
        invariant
            n_changed == inputs.changed_nodes.len(),
            0 <= d <= n_changed,
            reg.wf(),
            reg.conflicts_tracked(),
            reg.manager == resolved.manager,
            reg.nodes@ == stage_nodes,
            out.content_hints@ == hints_done,
            out.transforms@ == transforms_done,
            out.ready_events@ == events_done,
            out.reassignments@ == reassignments_done,
            resolved.wf(),
            reg.records@.len() == resolved.records@.len(),
            forall|i: int|
                0 <= i < reg.records@.len() ==> (#[trigger] reg.records@[i]).owner
                    == resolved.records@[i].owner && reg.records@[i].proxy == resolved.records@[
                    i
                ].proxy && reg.records@[i].layer == resolved.records@[i].layer && reg.records@[
                    i
                ].part_layers == resolved.records@[i].part_layers,
            forall|i2: int|
                0 <= i2 < inputs.ready@.len() && pr_has_proxy(
                    resolved.records@,
                    #[trigger] inputs.ready@[i2],
                ) ==> spec_ready_served(
                    resolved.records@,
                    stage_nodes,
                    out.ready_events@,
                    out.playback@,
                    reg.records@,
                    inputs.ready@[i2],
                ),
            forall|j: int|
                0 <= j < out.ready_events@.len() ==> inputs.ready@.contains(
                    (#[trigger] out.ready_events@[j]).proxy_entity,
                ),
        decreases n_changed - d,
    {
        let owner = inputs.changed_nodes[d].owner;
        let ghost cur0 = reg.records@;
        let ghost playback0 = out.playback@;
        if let AnimationAction::Apply(request) = reg.sync_animation(owner) {
            out.playback.push(PlaybackCommand { owner, animation: request });
        }
        proof {
            assert forall|i2: int|
                0 <= i2 < inputs.ready@.len() && pr_has_proxy(
                    resolved.records@,
                    #[trigger] inputs.ready@[i2],
                ) implies spec_ready_served(
                resolved.records@,
                stage_nodes,
                out.ready_events@,
                out.playback@,
                reg.records@,
                inputs.ready@[i2],
            ) by {
                let pe2 = inputs.ready@[i2];
                let ix2 = pr_proxy_index(resolved.records@, pe2);
                lemma_pr_proxy_at(resolved.records@, ix2);
                assert forall|j: int|
                    0 <= j < playback0.len() implies out.playback@[j] == playback0[j] by {}
                if nr_has(stage_nodes, owner) && pr_has(cur0, owner) {
                    let iu = pr_index(cur0, owner);
                    lemma_pr_at(cur0, iu);
                    if iu != ix2 {
                        assert(reg.records@[ix2] == cur0[ix2]);
                    } else {
                        assert(cur0[ix2].owner == owner);
                    }
                } else {
                    assert(reg.records@ == cur0);
                }
            }
        }
        d += 1;
    }
    let ghost playback_done = out.playback@;

    // Orphaned proxies are swept and their channels released.
    let ghost pre_cleanup = *reg;
    let swept = reg.cleanup();
    let ghost swept_view = swept@;
    out.removed = swept;
    proof {
        assert(out.removed@ == swept_view);
        assert(reg.nodes@ == stage_nodes);
        assert(out.transforms@ == transforms_done);
        assert(out.ready_events@ == events_done);
        assert(out.playback@ == playback_done);
        assert forall|i: int|
            0 <= i < inputs.ready@.len() && pr_has_proxy(
                old(reg).records@,
                #[trigger] inputs.ready@[i],
            ) implies {
            let owner = old(reg).records@[pr_proxy_index(
                old(reg).records@,
                inputs.ready@[i],
            )].owner;
            &&& (exists|j: int|
                0 <= j < out.ready_events@.len() && (#[trigger] out.ready_events@[j]).entity
                    == owner && out.ready_events@[j].proxy_entity == inputs.ready@[i])
            &&& (nr_has(reg.nodes@, owner) ==> exists|j: int|
                0 <= j < out.playback@.len() && (#[trigger] out.playback@[j]).owner == owner
                    && spec_anim_opt_eq(
                    out.playback@[j].animation,
                    nr_node(reg.nodes@, owner).animation,
                ))
            &&& (pr_has(reg.records@, owner) ==> {
                let rec = reg.records@[pr_index(reg.records@, owner)];
                &&& rec.content_ready
                &&& (nr_has(reg.nodes@, owner) ==> spec_anim_opt_eq(
                    rec.state.last_applied,
                    nr_node(reg.nodes@, owner).animation,
                ) && rec.state.last_non_animation == Some(
                    SpineUiNonAnimationState::spec_of(nr_node(reg.nodes@, owner)),
                ))
            })
        } by {
            let pe = inputs.ready@[i];
            let i0 = pr_proxy_index(old(reg).records@, pe);
            lemma_pr_proxy_at(old(reg).records@, i0);
            assert(resolved.records@[i0].proxy.proxy_entity == pe);
            lemma_pr_proxy_at(resolved.records@, i0);
            assert(pr_has_proxy(resolved.records@, pe));
            let owner = old(reg).records@[i0].owner;
            assert(resolved.records@[i0].owner == owner);
            assert(spec_ready_served(
                resolved.records@,
                stage_nodes,
                events_done,
                playback_done,
                pre_cleanup.records@,
                pe,
            ));
            if pr_has(reg.records@, owner) {
                assert(nr_has(stage_nodes, owner)) by {
                    let jq = pr_index(reg.records@, owner);
                    lemma_pr_at(reg.records@, jq);
                }
                assert(pre_cleanup.records@[i0].owner == owner);
                lemma_pr_at(pre_cleanup.records@, i0);
                assert(pre_cleanup.records@[pr_index(pre_cleanup.records@, owner)]
                    == pre_cleanup.records@[i0]);
                assert(reg.records@.contains(pre_cleanup.records@[i0]));
                lemma_pr_value_at(reg.records@, pre_cleanup.records@[i0]);
            }
        }
        assert forall|i: int|
            0 <= i < old(reg).records@.len() && !nr_has(
                reg.nodes@,
                (#[trigger] old(reg).records@[i]).owner,
            ) implies exists|q: int|
            0 <= q < out.removed@.len() && (#[trigger] out.removed@[q]).owner == old(
                reg,
            ).records@[i].owner && out.removed@[q].proxy_entity == old(
                reg,
            ).records@[i].proxy.proxy_entity && out.removed@[q].camera_entity == old(
                reg,
            ).records@[i].proxy.camera_entity by {
            assert(pre_cleanup.records@.len() == resolved.records@.len());
            assert(i < pre_cleanup.records@.len());
            assert(pre_cleanup.records@[i].owner == resolved.records@[i].owner);
            assert(resolved.records@[i].owner == old(reg).records@[i].owner);
            assert(pre_cleanup.records@[i].proxy == resolved.records@[i].proxy);
            assert(resolved.records@[i].proxy == old(reg).records@[i].proxy);
            assert(pre_cleanup.nodes@ == reg.nodes@);
            assert(!nr_has(pre_cleanup.nodes@, pre_cleanup.records@[i].owner));
            assert(exists|q: int|
                0 <= q < swept_view.len() && (#[trigger] swept_view[q]).owner
                    == pre_cleanup.records@[i].owner && swept_view[q].proxy_entity
                    == pre_cleanup.records@[i].proxy.proxy_entity && swept_view[
                    q
                ].camera_entity == pre_cleanup.records@[i].proxy.camera_entity);
            let q0 = choose|q: int|
                0 <= q < swept_view.len() && (#[trigger] swept_view[q]).owner
                    == pre_cleanup.records@[i].owner && swept_view[q].proxy_entity
                    == pre_cleanup.records@[i].proxy.proxy_entity && swept_view[
                    q
                ].camera_entity == pre_cleanup.records@[i].proxy.camera_entity;
            assert(out.removed@[q0].owner == old(reg).records@[i].owner);
            assert(out.removed@[q0].proxy_entity == old(reg).records@[i].proxy.proxy_entity);
            assert(out.removed@[q0].camera_entity == old(reg).records@[i].proxy.camera_entity);
        }
        assert forall|q: int|
            0 <= q < out.removed@.len() implies !nr_has(
            reg.nodes@,
            (#[trigger] out.removed@[q]).owner,
        ) by {}
        assert forall|k: int|
            0 <= k < out.reassignments@.len() implies {
            let rep = #[trigger] out.reassignments@[k];
            &&& rep.previous_layer != rep.new_layer
            &&& nr_has(reg.nodes@, rep.owner)
            &&& ol_has(reg.manager.owner_layers@, rep.owner)
            &&& ol_layer(reg.manager.owner_layers@, rep.owner) == rep.new_layer
            &&& (pr_has(reg.records@, rep.owner) ==> reg.records@[
                pr_index(reg.records@, rep.owner)
            ].part_layers@.len() == rep.updated_renderables)
        } by {
            assert(out.reassignments@ == reassignments_done);
            let rep = out.reassignments@[k];
            assert(reassignments_done[k] == rep);
            assert(nr_has(pre_resolve.nodes@, rep.owner));
            assert(pre_resolve.nodes@ == stage_nodes);
            assert(ol_has(resolved.manager.owner_layers@, rep.owner));
            assert(ol_layer(resolved.manager.owner_layers@, rep.owner) == rep.new_layer);
            assert(pre_cleanup.manager == resolved.manager);
            assert(ol_has(reg.manager.owner_layers@, rep.owner) == ol_has(
                pre_cleanup.manager.owner_layers@,
                rep.owner,
            ));
            if pr_has(reg.records@, rep.owner) {
                let jq = pr_index(reg.records@, rep.owner);
                lemma_pr_at(reg.records@, jq);
                assert(pre_cleanup.records@.contains(reg.records@[jq]));
                lemma_pr_value_at(pre_cleanup.records@, reg.records@[jq]);
                let ju = pr_index(pre_cleanup.records@, rep.owner);
                assert(pre_cleanup.records@[ju] == reg.records@[jq]);
                assert(pre_cleanup.records@[ju].part_layers == resolved.records@[
                    ju
                ].part_layers);
                assert(resolved.records@[ju].owner == rep.owner);
                lemma_pr_at(resolved.records@, ju);
                assert(pr_has(resolved.records@, rep.owner));
                assert(resolved.records@[pr_index(resolved.records@, rep.owner)]
                    == resolved.records@[ju]);
            }
        }
        assert forall|i: int|
            0 <= i < inputs.layouts@.len() && nr_has(
                reg.nodes@,
                (#[trigger] inputs.layouts@[i]).owner,
            ) implies exists|j: int|
            0 <= j < out.transforms@.len() && (#[trigger] out.transforms@[j]).owner
                == inputs.layouts@[i].owner && sync_plan_matches(
                out.transforms@[j].plan,
                nr_node(reg.nodes@, inputs.layouts@[i].owner),
                inputs.layouts@[i].available,
                inputs.layouts@[i].setup_min,
                inputs.layouts@[i].setup_size,
                inputs.layouts@[i].visible,
            ) by {
            assert(nr_has(stage_nodes, inputs.layouts@[i].owner));
            let j = choose|j: int|
                0 <= j < transforms_done.len() && (#[trigger] transforms_done[j]).owner
                    == inputs.layouts@[i].owner && sync_plan_matches(
                    transforms_done[j].plan,
                    nr_node(stage_nodes, inputs.layouts@[i].owner),
                    inputs.layouts@[i].available,
                    inputs.layouts@[i].setup_min,
                    inputs.layouts@[i].setup_size,
                    inputs.layouts@[i].visible,
                );
            assert(out.transforms@[j].owner == inputs.layouts@[i].owner);
        }
        assert(pre_cleanup.manager.no_conflicts());
        assert forall|i2: int|
            0 <= i2 < reg.manager.owner_layers@.len() implies !lu_has(
            reg.manager.external_layer_use@,
            (#[trigger] reg.manager.owner_layers@[i2]).layer,
        ) by {
            crate::layers::lemma_ol_at(reg.manager.owner_layers@, i2);
            let o = reg.manager.owner_layers@[i2].owner;
            if !(nr_has(pre_cleanup.nodes@, o) || !pr_has(pre_cleanup.records@, o)) {
                let j = pr_index(pre_cleanup.records@, o);
                assert(pre_cleanup.records@[j].owner == o);
                assert(!ol_has(reg.manager.owner_layers@, o));
            }
            assert(ol_has(pre_cleanup.manager.owner_layers@, o));
            assert(ol_layer(pre_cleanup.manager.owner_layers@, o) == ol_layer(
                reg.manager.owner_layers@,
                o,
            ));
            let j0 = ol_index(pre_cleanup.manager.owner_layers@, o);
            crate::layers::lemma_ol_at(pre_cleanup.manager.owner_layers@, j0);
            assert(!lu_has(
                pre_cleanup.manager.external_layer_use@,
                pre_cleanup.manager.owner_layers@[j0].layer,
            ));
        }
        assert(reg.manager.pending_reassign@.len() == 0);
    }
    out
}

} // verus!
