//! Which intersection a ray/sphere hit test reports.
//!
//! The intersection equation of a ray and a sphere has no real root, or two
//! of them (which coincide for a tangent ray). The caller does the
//! arithmetic and says what it found; the rule that picks the root is here.

use vstd::prelude::*;

verus! {

/// One of the two roots of the intersection equation.
#[derive(Clone, Copy, Debug, PartialEq, Eq, Structural)]
pub enum Root {
    /// The root with the smaller ray parameter.
    Near,
    /// The root with the greater ray parameter.
    Far,
}

/// The root that a hit test reports: none where the equation has no real
/// root; else the nearer root if it lies in the parameter interval; else the
/// farther root if that one does; else none.
pub open spec fn chosen_root(has_roots: bool, near_in_range: bool, far_in_range: bool) -> Option<
    Root,
> {
    if !has_roots {
        None
    } else if near_in_range {
        Some(Root::Near)
    } else if far_in_range {
        Some(Root::Far)
    } else {
        None
    }
}

/// Picks the root to report. `has_roots` says that the discriminant is not
/// negative, `near_in_range` and `far_in_range` that the root lies in the
/// closed parameter interval of the test.
pub fn select_root(has_roots: bool, near_in_range: bool, far_in_range: bool) -> (root: Option<Root>)
    ensures
        root == chosen_root(has_roots, near_in_range, far_in_range),
{
    if !has_roots {
        return None;
    }
    if near_in_range {
        Some(Root::Near)
    } else if far_in_range {
        Some(Root::Far)
    } else {
        None
    }
}

/// A hit is reported exactly where a root in the interval exists, and the far
/// root only where the near one is out of the interval.
pub proof fn lemma_nearest_root_wins(has_roots: bool, near_in_range: bool, far_in_range: bool)
    ensures
        chosen_root(has_roots, near_in_range, far_in_range).is_some() <==> has_roots && (
        near_in_range || far_in_range),
        chosen_root(has_roots, near_in_range, far_in_range) == Some(Root::Far) ==> !near_in_range,
        has_roots && near_in_range ==> chosen_root(has_roots, near_in_range, far_in_range) == Some(
            Root::Near,
        ),
{
}

} // verus!
