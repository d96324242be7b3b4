//! The axes of the rotation animations.

use vstd::prelude::*;

verus! {

/// The axis a rotation turns about.
#[derive(Clone, Copy, Debug, PartialEq, Eq, Structural)]
pub enum RotationType {
    X,
    Y,
    Z,
}

impl RotationType {
    /// The coordinate index (0 is x, 1 is y, 2 is z) of the axis.
    pub open spec fn spec_axis(self) -> nat {
        match self {
            RotationType::X => 0,
            RotationType::Y => 1,
            RotationType::Z => 2,
        }
    }

    /// The two coordinates `(a, b)`, `a < b`, that a rotation about this
    /// axis mixes: the rotation matrix holds the cosine at `[a][a]` and
    /// `[b][b]`, the sine at `[a][b]` and its negation at `[b][a]`, and
    /// leaves the axis's own row and column as in the identity.
    pub fn plane(self) -> (r: (usize, usize))
        ensures
            r.0 < r.1 < 3,
            r.0 != self.spec_axis() && r.1 != self.spec_axis(),
    {
        match self {
            RotationType::X => (1, 2),
            RotationType::Y => (0, 2),
            RotationType::Z => (0, 1),
        }
    }
}

} // verus!
