//! Which of the two intersections of a ray with a sphere counts.
//!
//! A ray that meets a sphere crosses its surface at two parameters, the near
//! one where it enters and the far one where it leaves. The caller solves
//! the quadratic; which root is the hit is decided here, on order keys (see
//! [`crate::scalar`]).

use vstd::prelude::*;

verus! {

/// One of the two roots of the intersection quadratic.
#[derive(Clone, Copy, Debug, PartialEq, Eq, Structural)]
pub enum Root {
    /// The smaller parameter: where the ray enters the sphere.
    Near,
    /// The larger parameter: where the ray leaves the sphere.
    Far,
}

/// Whether `t` lies in the closed range from `t_min` to `t_max`.
pub open spec fn in_range(t: u64, t_min: u64, t_max: u64) -> bool {
    t_min <= t <= t_max
}

/// The root that counts as the hit: the near root if it lies in the range,
/// else the far root if that one does, else none.
pub open spec fn spec_select_root(near: u64, far: u64, t_min: u64, t_max: u64) -> Option<Root> {
    if in_range(near, t_min, t_max) {
        Some(Root::Near)
    } else if in_range(far, t_min, t_max) {
        Some(Root::Far)
    } else {
        None
    }
}

/// Picks the root at which a ray hits a sphere, given the order keys of the
/// two roots and of the bounds of the accepted range.
pub fn select_root(near: u64, far: u64, t_min: u64, t_max: u64) -> (root: Option<Root>)
    ensures
        root == spec_select_root(near, far, t_min, t_max),
        root == Some(Root::Near) <==> in_range(near, t_min, t_max),
        root == Some(Root::Far) <==> !in_range(near, t_min, t_max) && in_range(far, t_min, t_max),
        root is None <==> !in_range(near, t_min, t_max) && !in_range(far, t_min, t_max),
{
    if near < t_min || t_max < near {
        if far < t_min || t_max < far {
            None
        } else {
            Some(Root::Far)
        }
    } else {
        Some(Root::Near)
    }
}

/// Where the near root is not above the far one, the root that is picked is
/// the smallest root in the range.
pub proof fn lemma_selected_root_is_first_in_range(near: u64, far: u64, t_min: u64, t_max: u64)
    requires
        near <= far,
    ensures
        spec_select_root(near, far, t_min, t_max) == Some(Root::Far) ==> near < t_min,
        spec_select_root(near, far, t_min, t_max) is None ==> far < t_min || t_max < near || (near
            < t_min && t_max < far),
{
}

} // verus!
