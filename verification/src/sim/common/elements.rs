//! [`Elem`] constants
use vstd::prelude::*;

use super::axes;
use super::axis::Axis;
use super::element::Elem;
use super::grip::Grip;

verus! {

/// Identity group element.
#[allow(non_snake_case)]
pub fn IDENT() -> (e: Elem)
    ensures
        e.spec_id() == 0,
{
    Elem::new(0)
}

/// Rotation from +X to +Y.
#[allow(non_snake_case)]
pub fn XY() -> (e: Elem)
    ensures
        e.spec_id() == 1,
{
    Elem::new(1)
}

/// Rotation from +X to +Z.
#[allow(non_snake_case)]
pub fn XZ() -> (e: Elem)
    ensures
        e.spec_id() == 2,
{
    Elem::new(2)
}

/// Rotation from +X to +W.
#[allow(non_snake_case)]
pub fn XW() -> (e: Elem)
    ensures
        e.spec_id() == 3,
{
    Elem::new(3)
}

/// Rotation from +Y to +X.
#[allow(non_snake_case)]
pub fn YX() -> (e: Elem)
    ensures
        e.spec_id() == 13,
{
    Elem::new(13)
}

/// Rotation from +Z to +X.
#[allow(non_snake_case)]
pub fn ZX() -> (e: Elem)
    ensures
        e.spec_id() == 25,
{
    Elem::new(25)
}

/// Rotation from +W to +X.
#[allow(non_snake_case)]
pub fn WX() -> (e: Elem)
    ensures
        e.spec_id() == 36,
{
    Elem::new(36)
}

/// Rotation from +Y to +Z.
#[allow(non_snake_case)]
pub fn YZ() -> (e: Elem)
    ensures
        e.spec_id() == 97,
{
    Elem::new(97)
}

/// Rotation from +Y to +W.
#[allow(non_snake_case)]
pub fn YW() -> (e: Elem)
    ensures
        e.spec_id() == 110,
{
    Elem::new(110)
}

/// Rotation from +Z to +Y.
#[allow(non_snake_case)]
pub fn ZY() -> (e: Elem)
    ensures
        e.spec_id() == 84,
{
    Elem::new(84)
}

/// Rotation from +W to +Y.
#[allow(non_snake_case)]
pub fn WY() -> (e: Elem)
    ensures
        e.spec_id() == 86,
{
    Elem::new(86)
}

/// Rotation from +Z to +W.
#[allow(non_snake_case)]
pub fn ZW() -> (e: Elem)
    ensures
        e.spec_id() == 133,
{
    Elem::new(133)
}

/// Rotation from +W to +Z.
#[allow(non_snake_case)]
pub fn WZ() -> (e: Elem)
    ensures
        e.spec_id() == 128,
{
    Elem::new(128)
}

/// Whether `e` fixes the positive grips of axes `u` and `v`.
pub open spec fn fixes_plane(e: Elem, u: int, v: int) -> bool {
    e.grip_image(2 * u) == 2 * u && e.grip_image(2 * v) == 2 * v
}

/// Rotations in the plane of two axes, including the identity: the elements
/// fixing the positive grips of both axes, in order of ID.
pub fn plane_stabilizer(u: Axis, v: Axis) -> (r: Vec<Elem>)
    ensures
        forall|i: int, j: int| 0 <= i < j < r.len() ==> r[i].spec_id() < r[j].spec_id(),
        forall|e: Elem|
            e.spec_id() < 192 ==> (r@.contains(e) <==> fixes_plane(
                e,
                u.spec_id() as int,
                v.spec_id() as int,
            )),
{
    let g1 = u.pos_grip();
    let g2 = v.pos_grip();
    let mut r: Vec<Elem> = Vec::new();
    let mut id: u8 = 0;
    while id < 192
        invariant
            id <= 192,
            g1.spec_id() == 2 * u.spec_id(),
            g2.spec_id() == 2 * v.spec_id(),
            forall|i: int| 0 <= i < r.len() ==> (#[trigger] r[i]).spec_id() < id,
            forall|i: int, j: int| 0 <= i < j < r.len() ==> r[i].spec_id() < r[j].spec_id(),
            forall|e: Elem|
                e.spec_id() < id ==> (r@.contains(e) <==> fixes_plane(
                    e,
                    u.spec_id() as int,
                    v.spec_id() as int,
                )),
        decreases 192 - id,
    {
        let e = Elem::new(id);
        let ghost old_r = r@;
        let eg1 = e * g1;
        let eg2 = e * g2;
        proof {
            Grip::lemma_id_eq(eg1, g1);
            Grip::lemma_id_eq(eg2, g2);
            assert(fixes_plane(e, u.spec_id() as int, v.spec_id() as int) == (eg1 == g1 && eg2
                == g2));
        }
        if eg1 == g1 && eg2 == g2 {
            r.push(e);
            proof {
                assert forall|x: Elem| r@.contains(x) <==> (old_r.contains(x) || x == e) by {
                    if x == e {
                        assert(r@[r@.len() - 1] == e);
                    }
                    if r@.contains(x) && x != e {
                        let k = choose|k: int| 0 <= k < r@.len() && r@[k] == x;
                        assert(old_r[k] == x);
                    }
                    if old_r.contains(x) {
                        let k = choose|k: int| 0 <= k < old_r.len() && old_r[k] == x;
                        assert(r@[k] == x);
                    }
                }
            }
        } else {
            proof {
                if r@.contains(e) {
                    let k = choose|k: int| 0 <= k < r@.len() && r@[k] == e;
                    assert(r[k].spec_id() < id);
                }
            }
        }
        proof {
            assert forall|x: Elem| x.spec_id() <= id implies (r@.contains(x) <==> fixes_plane(
                x,
                u.spec_id() as int,
                v.spec_id() as int,
            )) by {
                if x.spec_id() == id {
                    Elem::lemma_id_eq(x, e);
                } else {
                    assert(x != e);
                    assert(old_r.contains(x) <==> fixes_plane(x, u.spec_id() as int, v.spec_id() as int));
                    assert(r@.contains(x) <==> old_r.contains(x));
                }
            }
        }
        id = id + 1;
    }
    r
}

/// Rotations in the XY plane, including identity.
#[allow(non_snake_case)]
pub fn XY_STABILIZER() -> (r: Vec<Elem>)
    ensures
        forall|i: int, j: int| 0 <= i < j < r.len() ==> r[i].spec_id() < r[j].spec_id(),
        forall|e: Elem| e.spec_id() < 192 ==> (r@.contains(e) <==> fixes_plane(e, 0, 1)),
{
    plane_stabilizer(axes::X(), axes::Y())
}

/// Rotations in the XZ plane, including identity.
#[allow(non_snake_case)]
pub fn XZ_STABILIZER() -> (r: Vec<Elem>)
    ensures
        forall|i: int, j: int| 0 <= i < j < r.len() ==> r[i].spec_id() < r[j].spec_id(),
        forall|e: Elem| e.spec_id() < 192 ==> (r@.contains(e) <==> fixes_plane(e, 0, 2)),
{
    plane_stabilizer(axes::X(), axes::Z())
}

/// Rotations in the XW plane, including identity.
#[allow(non_snake_case)]
pub fn XW_STABILIZER() -> (r: Vec<Elem>)
    ensures
        forall|i: int, j: int| 0 <= i < j < r.len() ==> r[i].spec_id() < r[j].spec_id(),
        forall|e: Elem| e.spec_id() < 192 ==> (r@.contains(e) <==> fixes_plane(e, 0, 3)),
{
    plane_stabilizer(axes::X(), axes::W())
}

/// Rotations in the YZ plane, including identity.
#[allow(non_snake_case)]
pub fn YZ_STABILIZER() -> (r: Vec<Elem>)
    ensures
        forall|i: int, j: int| 0 <= i < j < r.len() ==> r[i].spec_id() < r[j].spec_id(),
        forall|e: Elem| e.spec_id() < 192 ==> (r@.contains(e) <==> fixes_plane(e, 1, 2)),
{
    plane_stabilizer(axes::Y(), axes::Z())
}

/// Rotations in the YW plane, including identity.
#[allow(non_snake_case)]
pub fn YW_STABILIZER() -> (r: Vec<Elem>)
    ensures
        forall|i: int, j: int| 0 <= i < j < r.len() ==> r[i].spec_id() < r[j].spec_id(),
        forall|e: Elem| e.spec_id() < 192 ==> (r@.contains(e) <==> fixes_plane(e, 1, 3)),
{
    plane_stabilizer(axes::Y(), axes::W())
}

/// Rotations in the ZW plane, including identity.
#[allow(non_snake_case)]
pub fn ZW_STABILIZER() -> (r: Vec<Elem>)
    ensures
        forall|i: int, j: int| 0 <= i < j < r.len() ==> r[i].spec_id() < r[j].spec_id(),
        forall|e: Elem| e.spec_id() < 192 ==> (r@.contains(e) <==> fixes_plane(e, 2, 3)),
{
    plane_stabilizer(axes::Z(), axes::W())
}

} // verus!
