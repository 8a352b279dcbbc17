use spine_ui::cycle::run_update_cycle;
use spine_ui::cycle::AddedNode;
use spine_ui::cycle::ChangedNode;
use spine_ui::cycle::CycleInputs;
use spine_ui::cycle::ExternalUsage;
use spine_ui::cycle::LayoutInput;
use spine_ui::frac::Frac;
use spine_ui::node::FracVec2;
use spine_ui::node::SpineUiAnimation;
use spine_ui::node::SpineUiNode;
use spine_ui::registry::SpineUiRegistry;

const OWNER_A: u64 = 7;
const PROXY_A: u64 = 70;
const CAMERA_A: u64 = 71;
const EXTERNAL: u64 = 9000;

fn empty_inputs() -> CycleInputs {
    CycleInputs {
        external_removed: Vec::new(),
        external_changed: Vec::new(),
        changed_nodes: Vec::new(),
        removed_nodes: Vec::new(),
        added_nodes: Vec::new(),
        layouts: Vec::new(),
        ready: Vec::new(),
    }
}

fn walking_descriptor() -> SpineUiNode {
    SpineUiNode {
        animation: Some(SpineUiAnimation::looping(String::from("walk"))),
        ..SpineUiNode::default()
    }
}

#[test]
fn one_cycle_sets_up_syncs_and_forwards() {
    let mut reg = SpineUiRegistry::new();

    // Cycle 1: the descriptor appears; the proxy is set up.
    let mut inputs = empty_inputs();
    inputs.changed_nodes.push(ChangedNode { owner: OWNER_A, node: walking_descriptor() });
    inputs.added_nodes.push(AddedNode {
        owner: OWNER_A,
        proxy_entity: PROXY_A,
        camera_entity: CAMERA_A,
    });
    let out = run_update_cycle(&mut reg, inputs);
    assert_eq!(out.content_hints.len(), 1);
    assert!(out.reassignments.is_empty());
    assert_eq!(reg.records.len(), 1);
    assert_eq!(reg.records[0].layer, 1);

    // Cycle 2: layout lands and the content reports ready.
    let mut inputs = empty_inputs();
    inputs.layouts.push(LayoutInput {
        owner: OWNER_A,
        available: FracVec2::from_ints(200, 100),
        setup_min: FracVec2::from_ints(0, 0),
        setup_size: FracVec2::from_ints(100, 100),
        visible: true,
    });
    inputs.ready.push(PROXY_A);
    let out = run_update_cycle(&mut reg, inputs);
    assert_eq!(out.transforms.len(), 1);
    // Contain fit of (200,100) over (100,100): uniform scale 1.
    assert!(out.transforms[0].plan.scale.x.eqv(Frac::from_int(1)));
    assert!(out.transforms[0].plan.scale.y.eqv(Frac::from_int(1)));
    assert!(out.transforms[0].plan.camera_active);
    assert_eq!(out.ready_events.len(), 1);
    assert_eq!(out.ready_events[0].entity, OWNER_A);
    assert_eq!(out.playback.len(), 1);
    assert_eq!(out.playback[0].animation.as_ref().unwrap().name, "walk");

    // Cycle 3: an external claim collides; the owner is moved off channel 1.
    let mut inputs = empty_inputs();
    inputs.external_changed.push(ExternalUsage { entity: EXTERNAL, layers: vec![1] });
    let out = run_update_cycle(&mut reg, inputs);
    assert_eq!(out.reassignments.len(), 1);
    assert_eq!(out.reassignments[0].previous_layer, 1);
    assert_eq!(out.reassignments[0].new_layer, 2);
    assert_eq!(reg.records[0].layer, 2);

    // Cycle 4: the descriptor goes away; the proxy is swept.
    let mut inputs = empty_inputs();
    inputs.removed_nodes.push(OWNER_A);
    let out = run_update_cycle(&mut reg, inputs);
    assert_eq!(out.removed.len(), 1);
    assert_eq!(out.removed[0].proxy_entity, PROXY_A);
    assert_eq!(out.removed[0].camera_entity, CAMERA_A);
    assert!(reg.records.is_empty());
}
