use spine_ui::registry::SpineUiRegistry;
use spine_ui::node::SpineUiAnimation;
use spine_ui::node::SpineUiNode;

const OWNER_A: u64 = 1;
const OWNER_B: u64 = 2;
const PROXY_A: u64 = 100;
const CAMERA_A: u64 = 101;
const PROXY_B: u64 = 200;
const CAMERA_B: u64 = 201;

#[test]
fn setup_allocates_and_links_once() {
    let mut reg = SpineUiRegistry::new();
    reg.insert_node(OWNER_A, SpineUiNode::default());
    let plan = reg.setup_node(OWNER_A, PROXY_A, CAMERA_A).expect("first setup succeeds");
    assert_eq!(plan.layer, 1);
    assert!(plan.content_size.is_some());
    // A second setup for the same owner does nothing.
    assert!(reg.setup_node(OWNER_A, PROXY_B, CAMERA_B).is_none());
    // An owner without a descriptor gets no proxy.
    assert!(reg.setup_node(OWNER_B, PROXY_B, CAMERA_B).is_none());
}

#[test]
fn ready_signal_forwards_event_and_applies_initially() {
    let mut reg = SpineUiRegistry::new();
    let node = SpineUiNode {
        animation: Some(SpineUiAnimation::looping(String::from("walk"))),
        ..SpineUiNode::default()
    };
    reg.insert_node(OWNER_A, node);
    reg.setup_node(OWNER_A, PROXY_A, CAMERA_A).unwrap();

    let outcome = reg.process_ready(PROXY_A).expect("the proxy is known");
    assert_eq!(outcome.event.entity, OWNER_A);
    assert_eq!(outcome.event.proxy_entity, PROXY_A);
    let apply = outcome.apply.expect("the owner still carries a descriptor");
    let anim = apply.animation.expect("an animation was requested");
    assert_eq!(anim.name, "walk");
    assert!(anim.repeat);

    // A ready signal from an unknown entity is ignored.
    assert!(reg.process_ready(9999).is_none());
}

#[test]
fn cleanup_sweeps_proxies_of_ownerless_descriptors() {
    let mut reg = SpineUiRegistry::new();
    reg.insert_node(OWNER_A, SpineUiNode::default());
    reg.insert_node(OWNER_B, SpineUiNode::default());
    assert_eq!(reg.setup_node(OWNER_A, PROXY_A, CAMERA_A).unwrap().layer, 1);
    assert_eq!(reg.setup_node(OWNER_B, PROXY_B, CAMERA_B).unwrap().layer, 2);
    reg.attach_parts(OWNER_A, 3);

    reg.remove_node(OWNER_A);
    let removed = reg.cleanup();
    assert_eq!(removed.len(), 1);
    assert_eq!(removed[0].owner, OWNER_A);
    assert_eq!(removed[0].proxy_entity, PROXY_A);
    assert_eq!(removed[0].camera_entity, CAMERA_A);

    // No surviving record for the swept owner; the other owner is intact.
    assert_eq!(reg.records.len(), 1);
    assert_eq!(reg.records[0].owner, OWNER_B);

    // The swept owner's channel is free for reuse by a newcomer.
    const OWNER_C: u64 = 3;
    reg.insert_node(OWNER_C, SpineUiNode::default());
    assert_eq!(reg.setup_node(OWNER_C, 300, 301).unwrap().layer, 1);
}

#[test]
fn cleanup_without_orphans_is_quiet() {
    let mut reg = SpineUiRegistry::new();
    reg.insert_node(OWNER_A, SpineUiNode::default());
    reg.setup_node(OWNER_A, PROXY_A, CAMERA_A).unwrap();
    let removed = reg.cleanup();
    assert!(removed.is_empty());
    assert_eq!(reg.records.len(), 1);
}

#[test]
fn missing_proxy_is_a_soft_failure() {
    // An owner fault never halts processing: stages on an unknown owner do
    // nothing and report nothing.
    let mut reg = SpineUiRegistry::new();
    reg.insert_node(OWNER_A, SpineUiNode::default());
    assert!(matches!(
        reg.sync_animation(OWNER_A),
        spine_ui::differ::AnimationAction::Keep
    ));
    assert!(!reg.attach_parts(OWNER_A, 2));
    assert!(reg.process_ready(PROXY_A).is_none());
}
