//! Kinds of light source, and which of them the renderer can hit with a ray.
use vstd::prelude::*;

verus! {

/// The kind of a light source.
#[derive(Debug, Clone, Copy, PartialEq, Eq)]
pub enum LightType {
    /// A point light: a small sphere that rays can hit.
    Point,
    /// A light coming from one direction, with no position.
    Directional,
    /// A light with a position that shines in one direction.
    Spotlight,
}

impl LightType {
    /// Whether a ray can hit a light of this kind: only point lights are
    /// intersected (as spheres); every other kind reports no hit.
    pub fn is_hittable(&self) -> (hittable: bool)
        ensures
            hittable == (*self is Point),
    {
        match self {
            LightType::Point => true,
            _ => false,
        }
    }
}

} // verus!
