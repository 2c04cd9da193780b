use vstd::prelude::*;

use super::axis::Axis;
use super::element::Elem;
use super::group::{lemma_gimg, mul_elem_grip};

verus! {

/// Id of the opposite grip.
pub open spec fn opposite_id(id: u8) -> u8 {
    if id % 2 == 0 {
        (id + 1) as u8
    } else {
        (id - 1) as u8
    }
}

/// Uppercase character naming a grip.
pub open spec fn grip_char(id: u8) -> char {
    if id == 0 {
        'R'
    } else if id == 1 {
        'L'
    } else if id == 2 {
        'U'
    } else if id == 3 {
        'D'
    } else if id == 4 {
        'F'
    } else if id == 5 {
        'B'
    } else if id == 6 {
        'O'
    } else {
        'I'
    }
}

/// Puzzle grip: R, L, U, D, F, B, O, I
#[derive(Debug, Default, Copy, Clone, PartialEq, Eq, Hash, PartialOrd, Ord, Structural)]
pub struct Grip(pub(crate) u8);

impl Grip {
    /// Values with the same ID are equal.
    pub broadcast proof fn lemma_id_eq(a: Grip, b: Grip)
        ensures
            #[trigger] a.spec_id() == #[trigger] b.spec_id() <==> a == b,
    {
    }

    #[verifier::type_invariant]
    spec fn wf(self) -> bool {
        self.0 < 8
    }

    /// The ID of the grip.
    pub closed spec fn spec_id(self) -> u8 {
        self.0
    }

    /// The grip with the given ID.
    pub closed spec fn with_id(id: u8) -> Grip {
        Grip(id)
    }

    /// The grip with a given ID has that ID.
    pub broadcast proof fn lemma_with_id(id: u8)
        ensures
            #[trigger] Grip::with_id(id).spec_id() == id,
    {
    }

    /// The grip that `e` sends `self` to.
    pub closed spec fn moved_by(self, e: Elem) -> Grip {
        Grip(e.grip_image(self.spec_id() as int) as u8)
    }

    /// List of all grips.
    pub fn all() -> (r: [Grip; 8])
        ensures
            forall|i: int| 0 <= i < 8 ==> (#[trigger] r[i]).spec_id() == i,
    {
        [Grip(0), Grip(1), Grip(2), Grip(3), Grip(4), Grip(5), Grip(6), Grip(7)]
    }

    /// Constructs a grip from an ID.
    pub fn new(id: u8) -> (g: Grip)
        requires
            id < 8,
        ensures
            g.spec_id() == id,
    {
        Grip(id)
    }

    /// Returns the ID of the grip. (0..8)
    #[verifier::when_used_as_spec(spec_id)]
    pub fn id(self) -> (r: u8)
        ensures
            r == self.spec_id(),
            r < 8,
    {
        proof {
            use_type_invariant(self);
        }
        self.0
    }

    /// Returns an uppercase character representing the grip.
    pub fn char(self) -> (c: char)
        ensures
            c == grip_char(self.spec_id()),
    {
        let id = self.id();
        if id == 0 {
            'R'
        } else if id == 1 {
            'L'
        } else if id == 2 {
            'U'
        } else if id == 3 {
            'D'
        } else if id == 4 {
            'F'
        } else if id == 5 {
            'B'
        } else if id == 6 {
            'O'
        } else {
            'I'
        }
    }

    /// Returns the axis of the grip.
    pub fn axis(self) -> (a: Axis)
        ensures
            a.spec_id() == self.spec_id() / 2,
    {
        Axis::new(self.id() / 2)
    }

    /// Returns whether the grip is positive.
    pub fn is_pos(self) -> (r: bool)
        ensures
            r == (self.spec_id() % 2 == 0),
    {
        self.sign_bit() == 0
    }

    /// Returns `0` if the grip is positive or `1` if the grip is negative.
    pub fn sign_bit(self) -> (r: u8)
        ensures
            r == self.spec_id() % 2,
    {
        self.id() % 2
    }

    /// Returns `1` if the grip is positive or `-1` if the grip is negative.
    pub fn signum(self) -> (r: i8)
        ensures
            r == (if self.spec_id() % 2 == 0 {
                1int
            } else {
                -1int
            }),
    {
        if self.is_pos() {
            1
        } else {
            -1
        }
    }

    /// Returns the opposite grip.
    pub fn opposite(self) -> (r: Grip)
        ensures
            r.spec_id() == opposite_id(self.spec_id()),
            r.spec_id() / 2 == self.spec_id() / 2,
    {
        let id = self.id();
        if id % 2 == 0 {
            Grip(id + 1)
        } else {
            Grip(id - 1)
        }
    }
}

impl std::ops::Mul<Grip> for Elem {
    type Output = Grip;

    fn mul(self, rhs: Grip) -> (r: Grip)
        ensures
            r == rhs.moved_by(self),
            r.spec_id() == self.grip_image(rhs.spec_id() as int),
    {
        mul_elem_grip(self, rhs)
    }
}

impl vstd::std_specs::ops::MulSpecImpl<Grip> for Elem {
    open spec fn obeys_mul_spec() -> bool {
        true
    }

    open spec fn mul_req(self, rhs: Grip) -> bool {
        true
    }

    open spec fn mul_spec(self, rhs: Grip) -> Grip {
        rhs.moved_by(self)
    }
}

} // verus!
