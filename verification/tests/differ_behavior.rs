use spine_ui::differ::sync_animation_change;
use spine_ui::differ::AnimationAction;
use spine_ui::differ::SpineUiAnimationState;
use spine_ui::node::SpineUiAnimation;
use spine_ui::node::SpineUiNode;
use spine_ui::node::Tint;

fn walking_node() -> SpineUiNode {
    SpineUiNode {
        animation: Some(SpineUiAnimation::looping(String::from("walk"))),
        ..SpineUiNode::default()
    }
}

fn is_apply_of(action: &AnimationAction, name: &str, repeat: bool) -> bool {
    match action {
        AnimationAction::Apply(Some(anim)) => anim.name == name && anim.repeat == repeat,
        _ => false,
    }
}

#[test]
fn first_change_applies_the_request() {
    let mut state = SpineUiAnimationState::empty();
    let action = sync_animation_change(&mut state, &walking_node());
    assert!(is_apply_of(&action, "walk", true));
}

#[test]
fn tint_only_change_never_restarts_playback() {
    let mut state = SpineUiAnimationState::empty();
    let node = walking_node();
    sync_animation_change(&mut state, &node);

    let mut tinted = walking_node();
    tinted.tint = Tint { red: 255, green: 0, blue: 0, alpha: 255 };
    let action = sync_animation_change(&mut state, &tinted);
    assert!(matches!(action, AnimationAction::Keep));

    // Yet another visual-only edit: still no restart.
    let mut tinted_again = walking_node();
    tinted_again.tint = Tint { red: 0, green: 255, blue: 0, alpha: 255 };
    let action = sync_animation_change(&mut state, &tinted_again);
    assert!(matches!(action, AnimationAction::Keep));
}

#[test]
fn renamed_animation_applies_exactly_once() {
    let mut state = SpineUiAnimationState::empty();
    sync_animation_change(&mut state, &walking_node());

    let mut running = walking_node();
    running.animation = Some(SpineUiAnimation::looping(String::from("run")));
    let action = sync_animation_change(&mut state, &running);
    assert!(is_apply_of(&action, "run", true));

    // The transition was recorded: a later tint edit does not re-apply.
    let mut tinted = running.clone();
    tinted.tint = Tint { red: 1, green: 2, blue: 3, alpha: 4 };
    let action = sync_animation_change(&mut state, &tinted);
    assert!(matches!(action, AnimationAction::Keep));
}

#[test]
fn loop_flag_change_applies() {
    let mut state = SpineUiAnimationState::empty();
    sync_animation_change(&mut state, &walking_node());

    let mut once = walking_node();
    once.animation = Some(SpineUiAnimation { name: String::from("walk"), repeat: false });
    let action = sync_animation_change(&mut state, &once);
    assert!(is_apply_of(&action, "walk", false));
}

#[test]
fn cleared_request_clears_the_track() {
    let mut state = SpineUiAnimationState::empty();
    sync_animation_change(&mut state, &walking_node());

    let mut cleared = walking_node();
    cleared.animation = None;
    let action = sync_animation_change(&mut state, &cleared);
    assert!(matches!(action, AnimationAction::Apply(None)));
}

#[test]
fn unchanged_descriptor_step_reapplies() {
    // A differ step is only run when the engine reports the descriptor
    // changed; a step that sees neither an animation nor a visual
    // difference re-applies the request rather than guessing.
    let mut state = SpineUiAnimationState::empty();
    sync_animation_change(&mut state, &walking_node());
    let action = sync_animation_change(&mut state, &walking_node());
    assert!(is_apply_of(&action, "walk", true));
}

#[test]
fn fresh_state_with_empty_request_keeps_quiet() {
    // Before anything was applied, a descriptor without an animation
    // request only records the visual snapshot.
    let mut state = SpineUiAnimationState::empty();
    let mut node = walking_node();
    node.animation = None;
    let action = sync_animation_change(&mut state, &node);
    assert!(matches!(action, AnimationAction::Keep));
    assert!(state.last_non_animation.is_some());
}
