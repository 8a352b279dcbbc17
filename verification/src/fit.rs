//! Per-cycle synchronization of a proxy: fit transform, visibility, tint.
//!
//! Every layout cycle the available area computed by the layout engine and
//! the content's natural bounding box are turned into the scale and
//! translation of the proxy's transform, under the descriptor's fit policy.
//! The math follows the descriptor exactly:
//!
//! - `fit_scale = available / max(reference, (1,1))` component-wise,
//! - `Contain` takes the smaller component, `Cover` the larger, `Fill` both,
//!   `NoFit` neither, each multiplied by the descriptor's scalar scale,
//! - `flip_y` negates the y component,
//! - `translation = -natural_center * applied_scale + offset`.

use crate::frac::lemma_plus_mag;
use crate::frac::lemma_times_bound;
use crate::frac::lemma_times_mag;
use crate::frac::ratio_lt;
use crate::frac::spec_max;
use crate::frac::spec_min;
use crate::frac::spec_neg;
use crate::frac::spec_over;
use crate::frac::spec_plus;
use crate::frac::spec_times;
use crate::frac::Frac;
use crate::frac::Ratio;
use crate::frac::FRAC_MAG;
use crate::node::FracVec2;
use crate::node::RatioVec2;
use crate::node::SpineUiFit;
use crate::node::SpineUiNode;
use crate::node::Tint;
use vstd::prelude::*;

verus! {

/// The ratio `1 / 1`.
pub open spec fn ratio_one() -> Ratio {
    Ratio { num: 1, den: 1 }
}

/// Component-wise clamp of a vector to a minimum of `(1, 1)`.
pub open spec fn spec_clamp_min_one(v: RatioVec2) -> RatioVec2 {
    RatioVec2 { x: spec_max(v.x, ratio_one()), y: spec_max(v.y, ratio_one()) }
}

/// The reference size the fit math divides by: the explicit override if
/// present, else the content's natural size, clamped to at least `(1, 1)`.
pub open spec fn spec_reference_size(override_size: Option<FracVec2>, natural: RatioVec2) -> RatioVec2 {
    spec_clamp_min_one(
        match override_size {
            Some(v) => v.r(),
            None => natural,
        },
    )
}

/// Component-wise quotient of the available area by the reference size.
pub open spec fn spec_fit_scale(avail: RatioVec2, reference: RatioVec2) -> RatioVec2 {
    RatioVec2 { x: spec_over(avail.x, reference.x), y: spec_over(avail.y, reference.y) }
}

/// The scale applied to the proxy under the given fit policy.
pub open spec fn spec_applied_scale(
    fit: SpineUiFit,
    avail: RatioVec2,
    reference: RatioVec2,
    scale: Ratio,
    flip_y: bool,
) -> RatioVec2 {
    let fs = spec_fit_scale(avail, reference);
    let base = match fit {
        SpineUiFit::Contain => {
            let s = spec_times(spec_min(fs.x, fs.y), scale);
            RatioVec2 { x: s, y: s }
        },
        SpineUiFit::Cover => {
            let s = spec_times(spec_max(fs.x, fs.y), scale);
            RatioVec2 { x: s, y: s }
        },
        SpineUiFit::Fill => RatioVec2 { x: spec_times(fs.x, scale), y: spec_times(fs.y, scale) },
        SpineUiFit::NoFit => RatioVec2 { x: scale, y: scale },
    };
    if flip_y {
        RatioVec2 { x: base.x, y: spec_neg(base.y) }
    } else {
        base
    }
}

/// The midpoint of the content's authored bounding box, its size clamped
/// to at least `(1, 1)`.
pub open spec fn spec_natural_center(setup_min: RatioVec2, setup_size: RatioVec2) -> RatioVec2 {
    let size = spec_clamp_min_one(setup_size);
    let half = Ratio { num: 1, den: 2 };
    RatioVec2 {
        x: spec_plus(setup_min.x, spec_times(size.x, half)),
        y: spec_plus(setup_min.y, spec_times(size.y, half)),
    }
}

/// The proxy translation: the negated center scaled, plus the offset.
pub open spec fn spec_translation(center: RatioVec2, applied: RatioVec2, offset: RatioVec2) -> RatioVec2 {
    RatioVec2 {
        x: spec_plus(spec_times(spec_neg(center.x), applied.x), offset.x),
        y: spec_plus(spec_times(spec_neg(center.y), applied.y), offset.y),
    }
}

/// Everything one cycle pushes onto a proxy and its camera.
#[derive(Clone, Copy, Debug)]
pub struct ProxySyncPlan {
    /// Scale of the proxy transform.
    pub scale: FracVec2,
    /// Translation of the proxy transform.
    pub translation: FracVec2,
    /// Whether the off-screen camera renders this cycle.
    pub camera_active: bool,
    /// Whether the proxy itself is visible this cycle.
    pub proxy_visible: bool,
    /// Color pushed into the content, unconditionally.
    pub tint: Tint,
}

/// What one cycle's synchronization promises of its plan: the scale and
/// translation carry exactly the documented fit math, visibility mirrors
/// the owner, and the tint is the descriptor's.
pub open spec fn sync_plan_matches(
    plan: ProxySyncPlan,
    node: SpineUiNode,
    available: FracVec2,
    setup_min: FracVec2,
    setup_size: FracVec2,
    owner_visible: bool,
) -> bool {
    let avail = spec_clamp_min_one(available.r());
    let reference = spec_reference_size(node.reference_size, spec_clamp_min_one(setup_size.r()));
    let applied = spec_applied_scale(node.fit, avail, reference, node.scale.r(), node.flip_y);
    let center = spec_natural_center(setup_min.r(), setup_size.r());
    &&& plan.scale.r() == applied
    &&& plan.translation.r() == spec_translation(center, applied, node.offset.r())
    &&& plan.camera_active == owner_visible
    &&& plan.proxy_visible == owner_visible
    &&& plan.tint == node.tint
    &&& plan.scale.wf()
    &&& plan.translation.wf()
}

/// Clamp one fraction to at least one, keeping its representation when it
/// already is at least one.
fn clamp_min_one(v: Frac) -> (r: Frac)
    requires
        v.wf(),
        v.mag_le(FRAC_MAG as int),
    ensures
        r.r() == spec_max(v.r(), ratio_one()),
        r.wf(),
        r.mag_le(FRAC_MAG as int),
        r.num > 0,
{
    let one = Frac::from_int(1);
    proof {
        lemma_times_bound(v.r(), one.r(), FRAC_MAG as int, 1);
        lemma_times_bound(one.r(), v.r(), 1, FRAC_MAG as int);
    }
    let r = v.max_of(one);
    proof {
        if ratio_lt(v.r(), ratio_one()) {
            assert(r.r() == ratio_one());
        } else {
            assert(v.num * 1 >= 1 * v.den);
        }
    }
    r
}

/// The fixed content-size hint handed to the layout engine: the descriptor's
/// requested size when present, else no hint (any previous hint is dropped).
pub fn content_size_hint(node: &SpineUiNode) -> (r: Option<FracVec2>)
    ensures
        r == node.auto_size,
{
    node.auto_size
}

/// Compute what one cycle pushes onto a proxy: the fit transform from the
/// available area and the content's bounding box, the visibility flags
/// mirroring the owner's inherited visibility, and the tint.
pub fn compute_proxy_sync(
    node: &SpineUiNode,
    available: FracVec2,
    setup_min: FracVec2,
    setup_size: FracVec2,
    owner_visible: bool,
) -> (r: ProxySyncPlan)
    requires
        node.wf(),
        node.in_mag(),
        available.wf(),
        available.mag_le(FRAC_MAG as int),
        setup_min.wf(),
        setup_min.mag_le(FRAC_MAG as int),
        setup_size.wf(),
        setup_size.mag_le(FRAC_MAG as int),
    ensures
        sync_plan_matches(r, *node, available, setup_min, setup_size, owner_visible),
{
    let m: Ghost<int> = Ghost(FRAC_MAG as int);

    // Clamp the layout-computed area and the natural size to avoid division
    // by a degenerate size.
    let avail_x = clamp_min_one(available.x);
    let avail_y = clamp_min_one(available.y);
    let size_x = clamp_min_one(setup_size.x);
    let size_y = clamp_min_one(setup_size.y);

    // The reference size: explicit override or natural size, clamped.
    let (ref_x, ref_y) = match &node.reference_size {
        Some(v) => (clamp_min_one(v.x), clamp_min_one(v.y)),
        None => (clamp_min_one(size_x), clamp_min_one(size_y)),
    };

    // Component-wise fit scale.
    proof {
        lemma_times_bound(avail_x.r(), ref_x.r(), m@, m@);
        lemma_times_bound(avail_y.r(), ref_y.r(), m@, m@);
    }
    let fs_x = avail_x.over(ref_x);
    let fs_y = avail_y.over(ref_y);
    proof {
        crate::frac::lemma_over_mag(avail_x.r(), ref_x.r(), m@, m@);
        crate::frac::lemma_over_mag(avail_y.r(), ref_y.r(), m@, m@);
    }

    // The fit policy picks the base scale, multiplied by the scalar scale.
    let base: FracVec2 = match node.fit {
        SpineUiFit::Contain => {
            proof {
                lemma_times_bound(fs_x.r(), fs_y.r(), m@ * m@, m@ * m@);
                lemma_times_bound(fs_y.r(), fs_x.r(), m@ * m@, m@ * m@);
            }
            let s0 = fs_x.min_of(fs_y);
            proof {
                lemma_times_bound(s0.r(), node.scale.r(), m@ * m@, m@);
            }
            let s = s0.times(node.scale);
            FracVec2 { x: s, y: s }
        },
        SpineUiFit::Cover => {
            proof {
                lemma_times_bound(fs_x.r(), fs_y.r(), m@ * m@, m@ * m@);
                lemma_times_bound(fs_y.r(), fs_x.r(), m@ * m@, m@ * m@);
            }
            let s0 = fs_x.max_of(fs_y);
            proof {
                lemma_times_bound(s0.r(), node.scale.r(), m@ * m@, m@);
            }
            let s = s0.times(node.scale);
            FracVec2 { x: s, y: s }
        },
        SpineUiFit::Fill => {
            proof {
                lemma_times_bound(fs_x.r(), node.scale.r(), m@ * m@, m@);
                lemma_times_bound(fs_y.r(), node.scale.r(), m@ * m@, m@);
            }
            FracVec2 { x: fs_x.times(node.scale), y: fs_y.times(node.scale) }
        },
        SpineUiFit::NoFit => FracVec2 { x: node.scale, y: node.scale },
    };
    proof {
        lemma_times_mag(fs_x.r(), node.scale.r(), m@ * m@, m@);
        lemma_times_mag(fs_y.r(), node.scale.r(), m@ * m@, m@);
        lemma_times_mag(spec_min(fs_x.r(), fs_y.r()), node.scale.r(), m@ * m@, m@);
        lemma_times_mag(spec_max(fs_x.r(), fs_y.r()), node.scale.r(), m@ * m@, m@);
    }
    let applied = if node.flip_y {
        FracVec2 { x: base.x, y: base.y.negate() }
    } else {
        base
    };
    let applied_mag: Ghost<int> = Ghost(m@ * m@ * m@);
    proof {
        assert(applied.mag_le(applied_mag@));
    }

    // The content's authored center: min + clamped size / 2.
    let half = Frac::new(1, 2);
    proof {
        lemma_times_bound(size_x.r(), half.r(), m@, 2);
        lemma_times_bound(size_y.r(), half.r(), m@, 2);
        lemma_times_mag(size_x.r(), half.r(), m@, 2);
        lemma_times_mag(size_y.r(), half.r(), m@, 2);
    }
    let half_x = size_x.times(half);
    let half_y = size_y.times(half);
    proof {
        lemma_times_bound(setup_min.x.r(), half_x.r(), m@, 2 * m@);
        lemma_times_bound(setup_min.y.r(), half_y.r(), m@, 2 * m@);
        lemma_times_bound(half_x.r(), setup_min.x.r(), 2 * m@, m@);
        lemma_times_bound(half_y.r(), setup_min.y.r(), 2 * m@, m@);
        lemma_plus_mag(setup_min.x.r(), half_x.r(), m@, 2 * m@);
        lemma_plus_mag(setup_min.y.r(), half_y.r(), m@, 2 * m@);
    }
    let center_x = setup_min.x.plus(half_x);
    let center_y = setup_min.y.plus(half_y);
    let center_mag: Ghost<int> = Ghost(2 * (m@ * (2 * m@)));

    // translation = -center * applied_scale + offset.
    proof {
        lemma_times_bound(spec_neg(center_x.r()), applied.x.r(), center_mag@, applied_mag@);
        lemma_times_bound(spec_neg(center_y.r()), applied.y.r(), center_mag@, applied_mag@);
        lemma_times_mag(spec_neg(center_x.r()), applied.x.r(), center_mag@, applied_mag@);
        lemma_times_mag(spec_neg(center_y.r()), applied.y.r(), center_mag@, applied_mag@);
    }
    let neg_x = center_x.negate();
    let neg_y = center_y.negate();
    let scaled_x = neg_x.times(applied.x);
    let scaled_y = neg_y.times(applied.y);
    proof {
        lemma_times_bound(scaled_x.r(), node.offset.x.r(), center_mag@ * applied_mag@, m@);
        lemma_times_bound(scaled_y.r(), node.offset.y.r(), center_mag@ * applied_mag@, m@);
        lemma_times_bound(node.offset.x.r(), scaled_x.r(), m@, center_mag@ * applied_mag@);
        lemma_times_bound(node.offset.y.r(), scaled_y.r(), m@, center_mag@ * applied_mag@);
        lemma_plus_mag(scaled_x.r(), node.offset.x.r(), center_mag@ * applied_mag@, m@);
        lemma_plus_mag(scaled_y.r(), node.offset.y.r(), center_mag@ * applied_mag@, m@);
    }
    let trans_x = scaled_x.plus(node.offset.x);
    let trans_y = scaled_y.plus(node.offset.y);

    ProxySyncPlan {
        scale: applied,
        translation: FracVec2 { x: trans_x, y: trans_y },
        camera_active: owner_visible,
        proxy_visible: owner_visible,
        tint: node.tint,
    }
}

/// Flipping y negates exactly the y component of the applied scale, whatever
/// the fit policy; the x component is untouched.
pub proof fn lemma_flip_y_negates(
    fit: SpineUiFit,
    avail: RatioVec2,
    reference: RatioVec2,
    scale: Ratio,
)
    ensures
        spec_applied_scale(fit, avail, reference, scale, true).x == spec_applied_scale(
            fit,
            avail,
            reference,
            scale,
            false,
        ).x,
        spec_applied_scale(fit, avail, reference, scale, true).y == spec_neg(
            spec_applied_scale(fit, avail, reference, scale, false).y,
        ),
{
}

} // verus!
