//! Descriptor types for an embedded-renderable UI node.
//!
//! An owner node carries a descriptor saying how the embedded content should
//! be fitted, tinted and animated. Sizes, offsets and scales are exact
//! fractions; the host engine converts its own floating-point values at the
//! boundary.

use crate::frac::Frac;
use crate::frac::Ratio;
use crate::frac::FRAC_MAG;
use vstd::prelude::*;

verus! {

/// The mathematical value of a two-dimensional fraction vector.
pub ghost struct RatioVec2 {
    pub x: Ratio,
    pub y: Ratio,
}

/// A two-dimensional vector of exact fractions.
#[derive(Clone, Copy, Debug, PartialEq, Eq, Structural)]
pub struct FracVec2 {
    pub x: Frac,
    pub y: Frac,
}

impl FracVec2 {
    /// The mathematical value of this vector.
    pub open spec fn r(self) -> RatioVec2 {
        RatioVec2 { x: self.x.r(), y: self.y.r() }
    }

    /// Both components well-formed.
    pub open spec fn wf(self) -> bool {
        self.x.wf() && self.y.wf()
    }

    /// Both components bounded by `m` in magnitude.
    pub open spec fn mag_le(self, m: int) -> bool {
        self.x.mag_le(m) && self.y.mag_le(m)
    }

    /// The vector `(x, y)` of whole numbers.
    pub fn from_ints(x: i64, y: i64) -> (r: FracVec2)
        ensures
            r.x.num == x,
            r.x.den == 1,
            r.y.num == y,
            r.y.den == 1,
            r.wf(),
    {
        FracVec2 { x: Frac::from_int(x), y: Frac::from_int(y) }
    }

    /// The zero vector.
    pub fn zero() -> (r: FracVec2)
        ensures
            r.x.num == 0,
            r.x.den == 1,
            r.y.num == 0,
            r.y.den == 1,
            r.wf(),
    {
        FracVec2 { x: Frac::from_int(0), y: Frac::from_int(0) }
    }
}

/// An RGBA tint, eight bits per component.
#[derive(Clone, Copy, Debug, PartialEq, Eq, Structural)]
pub struct Tint {
    pub red: u8,
    pub green: u8,
    pub blue: u8,
    pub alpha: u8,
}

impl Tint {
    /// Opaque white: the neutral tint.
    pub fn white() -> (r: Tint)
        ensures
            r == (Tint { red: 255, green: 255, blue: 255, alpha: 255 }),
    {
        Tint { red: 255, green: 255, blue: 255, alpha: 255 }
    }
}

/// Policy mapping the content's natural size into the available area.
#[derive(Clone, Copy, Debug, Default, PartialEq, Eq, Structural)]
pub enum SpineUiFit {
    /// Largest uniform scale that keeps the whole content inside the area.
    #[default]
    Contain,
    /// Smallest uniform scale that covers the whole area.
    Cover,
    /// Anisotropic scale matching the area exactly.
    Fill,
    /// No fitting; only the descriptor's own scale applies.
    NoFit,
}

/// A requested animation: a track name and whether it repeats.
#[derive(Debug)]
pub struct SpineUiAnimation {
    pub name: String,
    pub repeat: bool,
}

impl Clone for SpineUiAnimation {
    /// Cloning keeps the exact request.
    fn clone(&self) -> (r: Self)
        ensures
            r == *self,
    {
        SpineUiAnimation { name: self.name.clone(), repeat: self.repeat }
    }
}

impl SpineUiAnimation {
    /// A repeating animation request for the given track name.
    pub fn looping(name: String) -> (r: Self)
        ensures
            r.name == name,
            r.repeat,
    {
        SpineUiAnimation { name, repeat: true }
    }
}

/// The descriptor an owner node carries for its embedded renderable.
#[derive(Debug)]
pub struct SpineUiNode {
    /// Fit policy for the content inside the layout-computed area.
    pub fit: SpineUiFit,
    /// Fixed content size handed to the layout engine, if requested.
    pub auto_size: Option<FracVec2>,
    /// Override for the content's natural size used by the fit math.
    pub reference_size: Option<FracVec2>,
    /// Translation added after fitting.
    pub offset: FracVec2,
    /// Scalar scale multiplied into the fitted scale.
    pub scale: Frac,
    /// Mirror the content vertically.
    pub flip_y: bool,
    /// Color multiplied into the content.
    pub tint: Tint,
    /// The animation to play, or `None` to clear the playback track.
    pub animation: Option<SpineUiAnimation>,
}

impl SpineUiNode {
    /// All fraction fields well-formed.
    pub open spec fn wf(self) -> bool {
        &&& self.offset.wf()
        &&& self.scale.wf()
        &&& match self.auto_size {
            Some(v) => v.wf(),
            None => true,
        }
        &&& match self.reference_size {
            Some(v) => v.wf(),
            None => true,
        }
    }

    /// The fraction fields read by the fit math are within the pipeline bound.
    pub open spec fn in_mag(self) -> bool {
        &&& self.offset.mag_le(FRAC_MAG as int)
        &&& self.scale.mag_le(FRAC_MAG as int)
        &&& match self.reference_size {
            Some(v) => v.mag_le(FRAC_MAG as int),
            None => true,
        }
    }
}

impl Clone for SpineUiNode {
    /// Cloning keeps the exact descriptor.
    fn clone(&self) -> (r: Self)
        ensures
            r == *self,
    {
        SpineUiNode {
            fit: self.fit,
            auto_size: self.auto_size,
            reference_size: self.reference_size,
            offset: self.offset,
            scale: self.scale,
            flip_y: self.flip_y,
            tint: self.tint,
            animation: match &self.animation {
                Some(a) => Some(a.clone()),
                None => None,
            },
        }
    }
}

impl Default for SpineUiNode {
    /// The default descriptor: contain fit, a 300 by 420 content size,
    /// no overrides, unit scale, white tint, no animation.
    fn default() -> (r: Self)
        ensures
            r.fit == SpineUiFit::Contain,
            r.auto_size == Some(FracVec2 {
                x: Frac { num: 300, den: 1 },
                y: Frac { num: 420, den: 1 },
            }),
            r.reference_size is None,
            r.offset == (FracVec2 { x: Frac { num: 0, den: 1 }, y: Frac { num: 0, den: 1 } }),
            r.scale == (Frac { num: 1, den: 1 }),
            !r.flip_y,
            r.tint == (Tint { red: 255, green: 255, blue: 255, alpha: 255 }),
            r.animation is None,
            r.wf(),
            r.in_mag(),
    {
        SpineUiNode {
            fit: SpineUiFit::Contain,
            auto_size: Some(FracVec2::from_ints(300, 420)),
            reference_size: None,
            offset: FracVec2::zero(),
            scale: Frac::from_int(1),
            flip_y: false,
            tint: Tint::white(),
            animation: None,
        }
    }
}

} // verus!
