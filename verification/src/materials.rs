//! The placeholder material given to hit records before an object fills them in.
use vstd::prelude::*;

verus! {

/// The material of a fresh hit record: it never scatters a ray.
pub struct Default {}

impl Default {
    /// Whether a ray hitting this material scatters: never, so the ray's path
    /// ends there.
    pub fn scatter(&self) -> (scattered: bool)
        ensures
            !scattered,
    {
        false
    }
}

} // verus!
