//! Integer vectors in 4D space, moved by the elements of the group.
use vstd::prelude::*;

use super::element::Elem;
use super::grip::Grip;

verus! {

/// Integer vector in 4D space.
#[derive(Debug, Default, Copy, Clone, PartialEq, Eq, Hash, Structural)]
pub struct Vec4 {
    /// Component along X.
    pub x: i8,
    /// Component along Y.
    pub y: i8,
    /// Component along Z.
    pub z: i8,
    /// Component along W.
    pub w: i8,
}

/// The component of `v` along axis `a`.
pub open spec fn component(v: Vec4, a: int) -> int {
    if a == 0 {
        v.x as int
    } else if a == 1 {
        v.y as int
    } else if a == 2 {
        v.z as int
    } else {
        v.w as int
    }
}

/// The vector with the given components.
pub open spec fn vec4_of(x: int, y: int, z: int, w: int) -> Vec4 {
    Vec4 { x: x as i8, y: y as i8, z: z as i8, w: w as i8 }
}

/// No component is -128, so that every component can be negated.
pub open spec fn negatable(v: Vec4) -> bool {
    v.x > -128 && v.y > -128 && v.z > -128 && v.w > -128
}

/// Component `b` of `v` moved by `e`: the component along the axis that `e`
/// sends onto axis `b`, negated if it lands on the negative side.
pub open spec fn moved_component(e: Elem, v: Vec4, b: int) -> int {
    let g = e.inverse().grip_image(2 * b);
    if g % 2 == 0 {
        component(v, g / 2)
    } else {
        -component(v, g / 2)
    }
}

/// `v` moved by `e`.
pub open spec fn moved_vec(e: Elem, v: Vec4) -> Vec4 {
    vec4_of(
        moved_component(e, v, 0),
        moved_component(e, v, 1),
        moved_component(e, v, 2),
        moved_component(e, v, 3),
    )
}

impl Vec4 {
    /// Constructs a vector.
    pub fn new(x: i8, y: i8, z: i8, w: i8) -> (r: Vec4)
        ensures
            r == (Vec4 { x, y, z, w }),
    {
        Vec4 { x, y, z, w }
    }

    /// The component along axis `a`.
    pub fn get(self, a: u8) -> (r: i8)
        requires
            a < 4,
        ensures
            r == component(self, a as int),
    {
        if a == 0 {
            self.x
        } else if a == 1 {
            self.y
        } else if a == 2 {
            self.z
        } else {
            self.w
        }
    }

    /// The vector with the component along axis `a` replaced by `c`.
    pub fn with(self, a: u8, c: i8) -> (r: Vec4)
        requires
            a < 4,
        ensures
            component(r, a as int) == c,
            forall|b: int| 0 <= b < 4 && b != a ==> component(r, b) == component(self, b),
    {
        if a == 0 {
            Vec4 { x: c, ..self }
        } else if a == 1 {
            Vec4 { y: c, ..self }
        } else if a == 2 {
            Vec4 { z: c, ..self }
        } else {
            Vec4 { w: c, ..self }
        }
    }
}

/// Two vectors with the same components are equal.
pub proof fn lemma_vec4_ext(u: Vec4, v: Vec4)
    requires
        forall|a: int| 0 <= a < 4 ==> component(u, a) == component(v, a),
    ensures
        u == v,
{
    assert(component(u, 0) == component(v, 0));
    assert(component(u, 1) == component(v, 1));
    assert(component(u, 2) == component(v, 2));
    assert(component(u, 3) == component(v, 3));
}

impl std::ops::Mul<Vec4> for Elem {
    type Output = Vec4;

    /// Transforms a vector by the element.
    fn mul(self, rhs: Vec4) -> (r: Vec4)
        ensures
            negatable(rhs) ==> r == moved_vec(self, rhs),
    {
        let inv = self.inv();
        let _ = self.id();
        let mut r = Vec4 { x: 0, y: 0, z: 0, w: 0 };
        let mut b: u8 = 0;
        while b < 4
            invariant
                b <= 4,
                inv == self.inverse(),
                self.spec_id() < 192,
                negatable(rhs) ==> forall|k: int|
                    0 <= k < b ==> #[trigger] component(r, k) == moved_component(self, rhs, k),
            decreases 4 - b,
        {
            let g: Grip = inv * Grip::new(2 * b);
            proof {
                Elem::lemma_valid(self, self);
                Elem::lemma_action(inv, inv, 2 * b as int);
            }
            let a = g.id() / 2;
            let c = rhs.get(a);
            let ghost prev = r;
            if g.id() % 2 == 0 {
                r = r.with(b, c);
            } else if c > -128 {
                r = r.with(b, -c);
            }
            proof {
                assert forall|k: int| 0 <= k < b + 1 && negatable(rhs) implies #[trigger] component(r, k)
                    == moved_component(self, rhs, k) by {
                    if k < b {
                        assert(component(r, k) == component(prev, k));
                    }
                }
            }
            b = b + 1;
        }
        proof {
            if negatable(rhs) {
                let m = moved_vec(self, rhs);
                assert forall|k: int| 0 <= k < 4 implies component(r, k) == component(m, k) by {
                    assert(component(r, k) == moved_component(self, rhs, k));
                }
                lemma_vec4_ext(r, m);
            }
        }
        r
    }
}

impl vstd::std_specs::ops::MulSpecImpl<Vec4> for Elem {
    open spec fn obeys_mul_spec() -> bool {
        false
    }

    open spec fn mul_req(self, rhs: Vec4) -> bool {
        true
    }

    open spec fn mul_spec(self, rhs: Vec4) -> Vec4 {
        rhs
    }
}

} // verus!
