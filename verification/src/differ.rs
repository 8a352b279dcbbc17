//! Deciding when an animation request must actually be (re)applied.
//!
//! Restarting playback is disruptive, so a descriptor edit that leaves the
//! animation request untouched and only changes visual parameters (fit,
//! sizes, offset, scale, flip, tint) must not restart the track. The differ
//! keeps, per owner, the last applied animation request and the last applied
//! visual snapshot, and decides on each descriptor change whether to apply.

use crate::frac::Frac;
use crate::node::FracVec2;
use crate::node::SpineUiAnimation;
use crate::node::SpineUiFit;
use crate::node::SpineUiNode;
use crate::node::Tint;
use vstd::prelude::*;

verus! {

/// The non-animation part of a descriptor: everything the differ treats as
/// visual-only.
#[derive(Clone, Copy, Debug)]
pub struct SpineUiNonAnimationState {
    pub fit: SpineUiFit,
    pub auto_size: Option<FracVec2>,
    pub reference_size: Option<FracVec2>,
    pub offset: FracVec2,
    pub scale: Frac,
    pub flip_y: bool,
    pub tint: Tint,
}

impl SpineUiNonAnimationState {
    /// The visual snapshot of a descriptor.
    pub open spec fn spec_of(node: SpineUiNode) -> SpineUiNonAnimationState {
        SpineUiNonAnimationState {
            fit: node.fit,
            auto_size: node.auto_size,
            reference_size: node.reference_size,
            offset: node.offset,
            scale: node.scale,
            flip_y: node.flip_y,
            tint: node.tint,
        }
    }

    /// Take the visual snapshot of a descriptor.
    pub fn from_node(node: &SpineUiNode) -> (r: SpineUiNonAnimationState)
        ensures
            r == Self::spec_of(*node),
    {
        SpineUiNonAnimationState {
            fit: node.fit,
            auto_size: node.auto_size,
            reference_size: node.reference_size,
            offset: node.offset,
            scale: node.scale,
            flip_y: node.flip_y,
            tint: node.tint,
        }
    }

    /// Field-wise equality of two snapshots.
    pub fn same_as(&self, other: &SpineUiNonAnimationState) -> (r: bool)
        ensures
            r == (*self == *other),
    {
        let fit_eq = self.fit == other.fit;
        let auto_eq = match (&self.auto_size, &other.auto_size) {
            (Some(a), Some(b)) => a == b,
            (None, None) => true,
            _ => false,
        };
        let reference_eq = match (&self.reference_size, &other.reference_size) {
            (Some(a), Some(b)) => a == b,
            (None, None) => true,
            _ => false,
        };
        fit_eq && auto_eq && reference_eq && self.offset == other.offset && self.scale
            == other.scale && self.flip_y == other.flip_y && self.tint == other.tint
    }
}

/// Two animation requests ask for the same thing: equal names, equal repeat.
pub open spec fn spec_anim_eq(a: SpineUiAnimation, b: SpineUiAnimation) -> bool {
    a.name@ == b.name@ && a.repeat == b.repeat
}

/// Two optional animation requests ask for the same thing.
pub open spec fn spec_anim_opt_eq(a: Option<SpineUiAnimation>, b: Option<SpineUiAnimation>) -> bool {
    match (a, b) {
        (Some(x), Some(y)) => spec_anim_eq(x, y),
        (None, None) => true,
        _ => false,
    }
}

/// Whether two optional animation requests ask for the same thing.
pub fn anim_opt_eq(a: &Option<SpineUiAnimation>, b: &Option<SpineUiAnimation>) -> (r: bool)
    ensures
        r == spec_anim_opt_eq(*a, *b),
{
    match (a, b) {
        (Some(x), Some(y)) => x.name == y.name && x.repeat == y.repeat,
        (None, None) => true,
        _ => false,
    }
}

/// Clone an optional animation request, preserving it exactly.
pub fn clone_animation_opt(a: &Option<SpineUiAnimation>) -> (r: Option<SpineUiAnimation>)
    ensures
        r == *a,
{
    match a {
        Some(x) => Some(x.clone()),
        None => None,
    }
}

/// Per-owner differ state: what was last applied to the playback track.
#[derive(Clone, Debug)]
pub struct SpineUiAnimationState {
    /// The animation request last pushed to the track, `None` before any.
    pub last_applied: Option<SpineUiAnimation>,
    /// The visual snapshot at the last apply or visual-only update.
    pub last_non_animation: Option<SpineUiNonAnimationState>,
}

impl SpineUiAnimationState {
    /// The state before anything was applied.
    pub fn empty() -> (r: SpineUiAnimationState)
        ensures
            r.last_applied is None,
            r.last_non_animation is None,
    {
        SpineUiAnimationState { last_applied: None, last_non_animation: None }
    }
}

/// What a differ step asks the playback engine to do.
#[derive(Clone, Debug)]
pub enum AnimationAction {
    /// Leave the playback track untouched.
    Keep,
    /// Apply the request on the track: set the named animation, or clear the
    /// track when the request is `None`.
    Apply(Option<SpineUiAnimation>),
}

/// A descriptor change is visual-only when the animation request matches the
/// last applied one and the visual snapshot differs from the stored one;
/// every other change (re)applies the request.
pub open spec fn spec_differ_applies(state: SpineUiAnimationState, node: SpineUiNode) -> bool {
    !(spec_anim_opt_eq(state.last_applied, node.animation) && state.last_non_animation != Some(
        SpineUiNonAnimationState::spec_of(node),
    ))
}

/// The differ state after a step on a changed descriptor.
pub open spec fn spec_differ_next(state: SpineUiAnimationState, node: SpineUiNode) -> SpineUiAnimationState {
    if spec_differ_applies(state, node) {
        SpineUiAnimationState {
            last_applied: node.animation,
            last_non_animation: Some(SpineUiNonAnimationState::spec_of(node)),
        }
    } else {
        SpineUiAnimationState {
            last_applied: state.last_applied,
            last_non_animation: Some(SpineUiNonAnimationState::spec_of(node)),
        }
    }
}

/// One differ step, run when an owner's descriptor changed this cycle:
/// decide whether the animation request must be (re)applied, and update the
/// stored snapshots.
pub fn sync_animation_change(state: &mut SpineUiAnimationState, node: &SpineUiNode) -> (action:
    AnimationAction)
    ensures
        *final(state) == spec_differ_next(*old(state), *node),
        spec_differ_applies(*old(state), *node) ==> action == AnimationAction::Apply(
            node.animation,
        ),
        !spec_differ_applies(*old(state), *node) ==> action == AnimationAction::Keep,
{
    let snapshot = SpineUiNonAnimationState::from_node(node);
    let animation_unchanged = anim_opt_eq(&state.last_applied, &node.animation);
    let non_animation_changed = match &state.last_non_animation {
        Some(s) => !s.same_as(&snapshot),
        None => true,
    };

    if animation_unchanged && non_animation_changed {
        state.last_non_animation = Some(snapshot);
        return AnimationAction::Keep;
    }

    let applied = match &node.animation {
        Some(a) => Some(a.clone()),
        None => None,
    };
    state.last_applied = match &node.animation {
        Some(a) => Some(a.clone()),
        None => None,
    };
    state.last_non_animation = Some(snapshot);
    AnimationAction::Apply(applied)
}

/// A visual-only edit never restarts playback: when two consecutive cycles
/// carry animation requests asking for the same thing and the second cycle's
/// visual snapshot differs from the first's, the second step keeps the track
/// untouched, whatever state the first step started from.
pub proof fn lemma_visual_only_change_keeps_playback(
    s0: SpineUiAnimationState,
    n1: SpineUiNode,
    n2: SpineUiNode,
)
    requires
        spec_anim_opt_eq(n1.animation, n2.animation),
        SpineUiNonAnimationState::spec_of(n1) != SpineUiNonAnimationState::spec_of(n2),
    ensures
        !spec_differ_applies(spec_differ_next(s0, n1), n2),
{
    let s1 = spec_differ_next(s0, n1);
    if spec_differ_applies(s0, n1) {
        assert(spec_anim_opt_eq(s1.last_applied, n2.animation));
    } else {
        assert(spec_anim_opt_eq(s0.last_applied, n1.animation));
        lemma_anim_opt_eq_trans(s0.last_applied, n1.animation, n2.animation);
    }
}

/// A changed animation request is applied on the very step that sees it:
/// after a step on a descriptor carrying one request, a step on a descriptor
/// carrying a different request always applies.
pub proof fn lemma_animation_change_applies(
    s0: SpineUiAnimationState,
    n1: SpineUiNode,
    n2: SpineUiNode,
)
    requires
        !spec_anim_opt_eq(n1.animation, n2.animation),
    ensures
        spec_differ_applies(spec_differ_next(s0, n1), n2),
{
    let s1 = spec_differ_next(s0, n1);
    if !spec_differ_applies(s0, n1) {
        lemma_anim_opt_eq_trans(s0.last_applied, n1.animation, n2.animation);
    }
}

/// Asking-for-the-same-thing is transitive.
proof fn lemma_anim_opt_eq_trans(
    a: Option<SpineUiAnimation>,
    b: Option<SpineUiAnimation>,
    c: Option<SpineUiAnimation>,
)
    requires
        spec_anim_opt_eq(a, b),
    ensures
        spec_anim_opt_eq(a, c) == spec_anim_opt_eq(b, c),
{
}

} // verus!
