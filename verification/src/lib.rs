//! Embeds a skeletal-animation renderable inside a layout-managed UI node.
//!
//! The crate holds the decision logic of that subsystem as verified code:
//! an allocator of isolated render channels (`layers`), the per-cycle fit
//! transform (`fit`), the animation-apply differ (`differ`), and the
//! lifecycle registry tying them together (`registry`). The host engine
//! (entity storage, rendering, the animation runtime itself) stays outside;
//! it hands this crate plain values and applies the plans it gets back.

pub mod cycle;
pub mod differ;
pub mod fit;
pub mod frac;
pub mod layers;
pub mod node;
pub mod registry;

pub use differ::AnimationAction;
pub use differ::SpineUiAnimationState;
pub use differ::SpineUiNonAnimationState;
pub use fit::ProxySyncPlan;
pub use frac::Frac;
pub use layers::SpineUiRenderLayerManager;
pub use node::FracVec2;
pub use node::SpineUiAnimation;
pub use node::SpineUiFit;
pub use node::SpineUiNode;
pub use node::Tint;
pub use registry::SpineUiProxy;
pub use registry::SpineUiReadyEvent;
pub use registry::SpineUiRegistry;
