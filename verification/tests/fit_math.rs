use spine_ui::fit::compute_proxy_sync;
use spine_ui::fit::content_size_hint;
use spine_ui::frac::Frac;
use spine_ui::node::FracVec2;
use spine_ui::node::SpineUiFit;
use spine_ui::node::SpineUiNode;
use spine_ui::node::Tint;

fn node_with_fit(fit: SpineUiFit) -> SpineUiNode {
    SpineUiNode {
        fit,
        auto_size: None,
        reference_size: Some(FracVec2::from_ints(100, 100)),
        offset: FracVec2::zero(),
        scale: Frac::from_int(1),
        flip_y: false,
        tint: Tint::white(),
        animation: None,
    }
}

fn available() -> FracVec2 {
    FracVec2::from_ints(200, 100)
}

fn setup_min() -> FracVec2 {
    FracVec2::from_ints(0, 0)
}

fn setup_size() -> FracVec2 {
    FracVec2::from_ints(50, 50)
}

#[test]
fn contain_scale_is_uniform_min() {
    let plan = compute_proxy_sync(
        &node_with_fit(SpineUiFit::Contain),
        available(),
        setup_min(),
        setup_size(),
        true,
    );
    assert!(plan.scale.x.eqv(Frac::from_int(1)));
    assert!(plan.scale.y.eqv(Frac::from_int(1)));
}

#[test]
fn cover_scale_is_uniform_max() {
    let plan = compute_proxy_sync(
        &node_with_fit(SpineUiFit::Cover),
        available(),
        setup_min(),
        setup_size(),
        true,
    );
    assert!(plan.scale.x.eqv(Frac::from_int(2)));
    assert!(plan.scale.y.eqv(Frac::from_int(2)));
}

#[test]
fn fill_scale_is_anisotropic() {
    let plan = compute_proxy_sync(
        &node_with_fit(SpineUiFit::Fill),
        available(),
        setup_min(),
        setup_size(),
        true,
    );
    assert!(plan.scale.x.eqv(Frac::from_int(2)));
    assert!(plan.scale.y.eqv(Frac::from_int(1)));
}

#[test]
fn no_fit_scale_is_descriptor_scale() {
    let plan = compute_proxy_sync(
        &node_with_fit(SpineUiFit::NoFit),
        available(),
        setup_min(),
        setup_size(),
        true,
    );
    assert!(plan.scale.x.eqv(Frac::from_int(1)));
    assert!(plan.scale.y.eqv(Frac::from_int(1)));
}

#[test]
fn flip_y_negates_y_in_every_mode() {
    for fit in [SpineUiFit::Contain, SpineUiFit::Cover, SpineUiFit::Fill, SpineUiFit::NoFit] {
        let mut node = node_with_fit(fit);
        let plain = compute_proxy_sync(&node, available(), setup_min(), setup_size(), true);
        node.flip_y = true;
        let flipped = compute_proxy_sync(&node, available(), setup_min(), setup_size(), true);
        assert!(flipped.scale.x.eqv(plain.scale.x));
        assert!(flipped.scale.y.eqv(plain.scale.y.negate()));
    }
}

#[test]
fn descriptor_scale_multiplies_fit_scale() {
    let mut node = node_with_fit(SpineUiFit::Contain);
    node.scale = Frac::new(3, 2);
    let plan = compute_proxy_sync(&node, available(), setup_min(), setup_size(), true);
    assert!(plan.scale.x.eqv(Frac::new(3, 2)));
    assert!(plan.scale.y.eqv(Frac::new(3, 2)));
}

#[test]
fn translation_centers_content_and_adds_offset() {
    // Bounding box (0,0)..(100,100): center (50,50); contain scale 1; offset (7,-3).
    let mut node = node_with_fit(SpineUiFit::Contain);
    node.offset = FracVec2::from_ints(7, -3);
    let plan = compute_proxy_sync(
        &node,
        available(),
        FracVec2::from_ints(0, 0),
        FracVec2::from_ints(100, 100),
        true,
    );
    assert!(plan.translation.x.eqv(Frac::from_int(-43)));
    assert!(plan.translation.y.eqv(Frac::from_int(-53)));
}

#[test]
fn degenerate_reference_size_is_clamped() {
    // A zero natural size acts as (1,1) instead of dividing by zero.
    let mut node = node_with_fit(SpineUiFit::Contain);
    node.reference_size = None;
    let plan = compute_proxy_sync(
        &node,
        FracVec2::from_ints(10, 10),
        FracVec2::from_ints(0, 0),
        FracVec2::from_ints(0, 0),
        true,
    );
    assert!(plan.scale.x.eqv(Frac::from_int(10)));
    assert!(plan.scale.y.eqv(Frac::from_int(10)));
}

#[test]
fn visibility_and_tint_follow_the_owner() {
    let mut node = node_with_fit(SpineUiFit::Contain);
    node.tint = Tint { red: 10, green: 20, blue: 30, alpha: 40 };
    let visible = compute_proxy_sync(&node, available(), setup_min(), setup_size(), true);
    assert!(visible.camera_active);
    assert!(visible.proxy_visible);
    assert_eq!(visible.tint, Tint { red: 10, green: 20, blue: 30, alpha: 40 });
    let hidden = compute_proxy_sync(&node, available(), setup_min(), setup_size(), false);
    assert!(!hidden.camera_active);
    assert!(!hidden.proxy_visible);
}

#[test]
fn content_size_hint_mirrors_auto_size() {
    let mut node = SpineUiNode::default();
    let hint = content_size_hint(&node).expect("default descriptor requests a size");
    assert!(hint.x.eqv(Frac::from_int(300)));
    assert!(hint.y.eqv(Frac::from_int(420)));
    node.auto_size = None;
    assert!(content_size_hint(&node).is_none());
}
