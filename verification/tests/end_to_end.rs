use spine_ui::differ::AnimationAction;
use spine_ui::node::FracVec2;
use spine_ui::node::SpineUiAnimation;
use spine_ui::node::SpineUiFit;
use spine_ui::node::SpineUiNode;
use spine_ui::node::Tint;
use spine_ui::registry::SpineUiRegistry;

const OWNER_A: u64 = 42;
const PROXY_A: u64 = 420;
const CAMERA_A: u64 = 421;
const EXTERNAL: u64 = 7000;

fn descriptor() -> SpineUiNode {
    SpineUiNode {
        fit: SpineUiFit::Contain,
        auto_size: Some(FracVec2::from_ints(300, 420)),
        animation: Some(SpineUiAnimation::looping(String::from("walk"))),
        ..SpineUiNode::default()
    }
}

#[test]
fn full_owner_story() {
    let mut reg = SpineUiRegistry::new();

    // Owner A appears with a Contain-fit descriptor requesting "walk".
    reg.insert_node(OWNER_A, descriptor());
    let plan = reg.setup_node(OWNER_A, PROXY_A, CAMERA_A).expect("setup succeeds");
    assert_eq!(plan.layer, 1, "no external usage: the first channel wins");
    let hint = plan.content_size.expect("auto size requested");
    assert!(hint.x.eqv(spine_ui::frac::Frac::from_int(300)));
    assert!(hint.y.eqv(spine_ui::frac::Frac::from_int(420)));
    reg.attach_parts(OWNER_A, 5);

    // The content loads: "walk" is applied and the snapshots recorded.
    let outcome = reg.process_ready(PROXY_A).expect("proxy known");
    assert_eq!(outcome.event.entity, OWNER_A);
    let apply = outcome.apply.expect("descriptor still present");
    assert_eq!(apply.animation.as_ref().unwrap().name, "walk");
    assert_eq!(apply.tint, Tint::white());

    // A cycle that changes only the tint leaves playback untouched.
    let mut tinted = descriptor();
    tinted.tint = Tint { red: 128, green: 128, blue: 255, alpha: 255 };
    reg.insert_node(OWNER_A, tinted);
    let action = reg.sync_animation(OWNER_A);
    assert!(matches!(action, AnimationAction::Keep));

    // An external entity claims channel 1: owner A moves to channel 2, and
    // every renderable part follows.
    reg.upsert_external_usage(EXTERNAL, vec![1]);
    let reports = reg.resolve_render_layer_conflicts();
    assert_eq!(reports.len(), 1);
    assert_eq!(reports[0].owner, OWNER_A);
    assert_eq!(reports[0].previous_layer, 1);
    assert_eq!(reports[0].new_layer, 2);
    assert_eq!(reports[0].updated_renderables, 5);
    assert_eq!(reg.records[0].layer, 2);
    assert!(reg.records[0].part_layers.iter().all(|l| *l == 2));

    // Resolution is idempotent: a second pass with no new external changes
    // performs no further mutation.
    let again = reg.resolve_render_layer_conflicts();
    assert!(again.is_empty());
    assert_eq!(reg.records[0].layer, 2);

    // A later animation change applies exactly once.
    let mut renamed = descriptor();
    renamed.animation = Some(SpineUiAnimation::looping(String::from("run")));
    reg.insert_node(OWNER_A, renamed);
    let action = reg.sync_animation(OWNER_A);
    assert!(matches!(action, AnimationAction::Apply(Some(ref a)) if a.name == "run"));
}

#[test]
fn apply_waits_for_content_ready() {
    let mut reg = SpineUiRegistry::new();
    reg.insert_node(OWNER_A, descriptor());
    reg.setup_node(OWNER_A, PROXY_A, CAMERA_A).unwrap();

    // Before the ready signal the playback engine cannot be touched: an
    // apply-needing change is deferred.
    let action = reg.sync_animation(OWNER_A);
    assert!(matches!(action, AnimationAction::Keep));

    // The ready signal performs the initial application itself.
    let outcome = reg.process_ready(PROXY_A).unwrap();
    assert!(outcome.apply.is_some());

    // From then on, animation changes reach the track.
    let mut renamed = descriptor();
    renamed.animation = Some(SpineUiAnimation::looping(String::from("idle")));
    reg.insert_node(OWNER_A, renamed);
    let action = reg.sync_animation(OWNER_A);
    assert!(matches!(action, AnimationAction::Apply(Some(ref a)) if a.name == "idle"));
}
