use vstd::prelude::*;

use super::element::Elem;
use super::grip::Grip;
use super::grip_set::GripSet;
use super::twist::Twist;

verus! {

/// Piece of the puzzle
#[derive(Debug, Copy, Clone, PartialEq, Eq, Hash, PartialOrd, Ord, Structural)]
pub struct Piece {
    /// Current active grip set (changes as the piece moves around)
    pub grips: GripSet,
    /// Attitude of the piece
    pub attitude: Elem,
}

impl Piece {
    /// The piece moved by an element.
    pub open spec fn moved_by(self, e: Elem) -> Piece {
        Piece { grips: self.grips.moved_by(e), attitude: e.product(self.attitude) }
    }

    /// The piece after a twist: moved by the twist's transform if the twist's
    /// grip is one of its active grips, unchanged otherwise.
    pub open spec fn twisted_by(self, t: Twist) -> Piece {
        if self.grips.has(t.grip.spec_id() as int) {
            self.moved_by(t.transform)
        } else {
            self
        }
    }

    /// Constructs a solved piece with the given active grips.
    pub fn new_solved(grips: &[Grip]) -> (p: Piece)
        ensures
            p.attitude.spec_id() == 0,
            forall|g: int| #[trigger] p.grips.has(g) <==> exists|i: int| 0 <= i < grips.len() && grips[i].spec_id() == g,
    {
        Piece { grips: GripSet::from_grips(grips), attitude: Elem::ident() }
    }

    /// Returns the piece with solved attitude.
    pub fn at_solved(self) -> (p: Piece)
        ensures
            p == self.moved_by(self.attitude.inverse()),
    {
        self.attitude.inv() * self
    }
}

impl std::ops::Mul<Piece> for Elem {
    type Output = Piece;

    fn mul(self, rhs: Piece) -> (r: Piece)
        ensures
            r == rhs.moved_by(self),
    {
        Piece { grips: self * rhs.grips, attitude: self * rhs.attitude }
    }
}

impl vstd::std_specs::ops::MulSpecImpl<Piece> for Elem {
    open spec fn obeys_mul_spec() -> bool {
        true
    }

    open spec fn mul_req(self, rhs: Piece) -> bool {
        true
    }

    open spec fn mul_spec(self, rhs: Piece) -> Piece {
        rhs.moved_by(self)
    }
}

impl std::ops::Mul<Piece> for Twist {
    type Output = Piece;

    fn mul(self, rhs: Piece) -> (r: Piece)
        ensures
            r == rhs.twisted_by(self),
    {
        // GRIP THEORY
        if rhs.grips.contains(self.grip) {
            self.transform * rhs
        } else {
            rhs
        }
    }
}

impl vstd::std_specs::ops::MulSpecImpl<Piece> for Twist {
    open spec fn obeys_mul_spec() -> bool {
        true
    }

    open spec fn mul_req(self, rhs: Piece) -> bool {
        true
    }

    open spec fn mul_spec(self, rhs: Piece) -> Piece {
        rhs.twisted_by(self)
    }
}

} // verus!
