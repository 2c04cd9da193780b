use vstd::prelude::*;

use super::element::Elem;
use super::grip::{opposite_id, Grip};
use super::group::mul_elem_axis;

verus! {

/// Lowercase character naming an axis.
pub open spec fn axis_char(id: u8) -> char {
    if id == 0 {
        'x'
    } else if id == 1 {
        'y'
    } else if id == 2 {
        'z'
    } else {
        'w'
    }
}

/// Geometric axis: X, Y, Z, W
#[derive(Debug, Default, Copy, Clone, PartialEq, Eq, Hash, PartialOrd, Ord, Structural)]
pub struct Axis(pub(crate) u8);

impl Axis {
    /// Values with the same ID are equal.
    pub broadcast proof fn lemma_id_eq(a: Axis, b: Axis)
        ensures
            #[trigger] a.spec_id() == #[trigger] b.spec_id() <==> a == b,
    {
    }

    #[verifier::type_invariant]
    spec fn wf(self) -> bool {
        self.0 < 4
    }

    /// The ID of the axis.
    pub closed spec fn spec_id(self) -> u8 {
        self.0
    }

    /// The axis that `e` sends `self` to.
    pub closed spec fn moved_by(self, e: Elem) -> Axis {
        Axis((e.grip_image(2 * self.spec_id()) / 2) as u8)
    }

    /// List of all axes.
    pub fn all() -> (r: [Axis; 4])
        ensures
            forall|i: int| 0 <= i < 4 ==> (#[trigger] r[i]).spec_id() == i,
    {
        [Axis(0), Axis(1), Axis(2), Axis(3)]
    }

    /// Constructs an axis from an ID.
    pub fn new(id: u8) -> (a: Axis)
        requires
            id < 4,
        ensures
            a.spec_id() == id,
    {
        Axis(id)
    }

    /// Returns the ID of the axis. (0..4)
    #[verifier::when_used_as_spec(spec_id)]
    pub fn id(self) -> (r: u8)
        ensures
            r == self.spec_id(),
            r < 4,
    {
        proof {
            use_type_invariant(self);
        }
        self.0
    }

    /// Returns a lowercase character representing the axis.
    pub fn char(self) -> (c: char)
        ensures
            c == axis_char(self.spec_id()),
    {
        let id = self.id();
        if id == 0 {
            'x'
        } else if id == 1 {
            'y'
        } else if id == 2 {
            'z'
        } else {
            'w'
        }
    }

    /// Returns the positive grip on the axis.
    pub fn pos_grip(self) -> (g: Grip)
        ensures
            g.spec_id() == 2 * self.spec_id(),
    {
        Grip::new(self.id() * 2)
    }

    /// Returns the negative grip on the axis.
    pub fn neg_grip(self) -> (g: Grip)
        ensures
            g.spec_id() == 2 * self.spec_id() + 1,
    {
        self.pos_grip().opposite()
    }

    /// Returns the pair of grips `[positive, negative]` on the axis.
    pub fn grips(self) -> (r: [Grip; 2])
        ensures
            r[0].spec_id() == 2 * self.spec_id(),
            r[1].spec_id() == 2 * self.spec_id() + 1,
    {
        [self.pos_grip(), self.neg_grip()]
    }

    /// Returns a list of all transforms fixing the axis (that is, fixing its
    /// positive grip), excluding the identity, in order of ID.
    pub fn stabilizer_without_identity(self) -> (r: Vec<Elem>)
        ensures
            forall|i: int, j: int| 0 <= i < j < r.len() ==> r[i].spec_id() < r[j].spec_id(),
            forall|e: Elem|
                e.spec_id() < 192 ==> (r@.contains(e) <==> (e.spec_id() != 0 && e.grip_image(
                    2 * self.spec_id(),
                ) == 2 * self.spec_id())),
    {
        let g = self.pos_grip();
        let mut r: Vec<Elem> = Vec::new();
        let mut id: u8 = 1;
        while id < 192
            invariant
                1 <= id <= 192,
                g.spec_id() == 2 * self.spec_id(),
                forall|i: int| 0 <= i < r.len() ==> (#[trigger] r[i]).spec_id() < id,
                forall|i: int, j: int| 0 <= i < j < r.len() ==> r[i].spec_id() < r[j].spec_id(),
                forall|e: Elem|
                    e.spec_id() < id ==> (r@.contains(e) <==> (e.spec_id() != 0 && e.grip_image(
                        2 * self.spec_id(),
                    ) == 2 * self.spec_id())),
            decreases 192 - id,
        {
            let e = Elem::new(id);
            let ghost old_r = r@;
            let eg = e * g;
            proof {
                Grip::lemma_id_eq(eg, g);
            }
            if eg == g {
                r.push(e);
                proof {
                    assert forall|x: Elem| r@.contains(x) <==> (old_r.contains(x) || x == e) by {
                        if x == e {
                            assert(r@[r@.len() - 1] == e);
                        }
                        if r@.contains(x) && x != e {
                            let k = choose|k: int| 0 <= k < r@.len() && r@[k] == x;
                            assert(old_r[k] == x);
                        }
                        if old_r.contains(x) {
                            let k = choose|k: int| 0 <= k < old_r.len() && old_r[k] == x;
                            assert(r@[k] == x);
                        }
                    }
                }
            } else {
                proof {
                    if r@.contains(e) {
                        let k = choose|k: int| 0 <= k < r@.len() && r@[k] == e;
                        assert(r[k].spec_id() < id);
                    }
                }
            }
            proof {
                assert forall|x: Elem| x.spec_id() <= id implies (r@.contains(x) <==> (x.spec_id()
                    != 0 && x.grip_image(2 * self.spec_id()) == 2 * self.spec_id())) by {
                    if x.spec_id() == id {
                        Elem::lemma_id_eq(x, e);
                    }
                }
            }
            id = id + 1;
        }
        r
    }
}

impl std::ops::Mul<Axis> for Elem {
    type Output = Axis;

    fn mul(self, rhs: Axis) -> (r: Axis)
        ensures
            r == rhs.moved_by(self),
            r.spec_id() == self.grip_image(2 * rhs.spec_id()) / 2,
    {
        mul_elem_axis(self, rhs)
    }
}

impl vstd::std_specs::ops::MulSpecImpl<Axis> for Elem {
    open spec fn obeys_mul_spec() -> bool {
        true
    }

    open spec fn mul_req(self, rhs: Axis) -> bool {
        true
    }

    open spec fn mul_spec(self, rhs: Axis) -> Axis {
        rhs.moved_by(self)
    }
}

} // verus!
