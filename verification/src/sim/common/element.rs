use vstd::prelude::*;

use super::group::{
    cidx, compose, gimg, inv_code, invert_elem, lemma_cidx, lemma_code_ext, lemma_compose_rot,
    lemma_compose, lemma_gimg, lemma_ident_code, lemma_inv_code, mul_elem_elem, pimg, rot,
    valid, IDENT_CODE,
};
use super::table::{
    lemma_table_code_rev, lemma_table_code_rot, lemma_table_ident, lemma_table_rev, table_code,
    table_rev,
};

verus! {

/// Element of the grip group: a rotation of the hypercube.
#[derive(Debug, Default, Copy, Clone, PartialEq, Eq, Hash, PartialOrd, Ord, Structural)]
pub struct Elem(pub(crate) u8);

impl Elem {
    /// Values with the same ID are equal.
    pub broadcast proof fn lemma_id_eq(a: Elem, b: Elem)
        ensures
            #[trigger] a.spec_id() == #[trigger] b.spec_id() <==> a == b,
    {
    }

    #[verifier::type_invariant]
    spec fn wf(self) -> bool {
        self.0 < 192
    }

    /// The internal ID.
    pub closed spec fn spec_id(self) -> u8 {
        self.0
    }

    /// The element with the given ID.
    pub closed spec fn with_id(id: u8) -> Elem {
        Elem(id)
    }

    /// Reading back the ID of an element.
    pub broadcast proof fn lemma_with_id(id: u8)
        ensures
            #[trigger] Elem::with_id(id).spec_id() == id,
    {
    }

    /// The code of the element: the images of the positive grips.
    pub open spec fn code(self) -> u16 {
        table_code(self.spec_id())
    }

    /// The grip that grip `g` is sent to by the element.
    pub closed spec fn grip_image(self, g: int) -> int {
        gimg(self.code(), g as u16) as int
    }

    /// The element with the given code.
    closed spec fn from_code(code: u16) -> Elem {
        Elem(table_rev(cidx(code)))
    }

    /// The product `self * rhs` (first `rhs`, then `self`).
    pub closed spec fn product(self, rhs: Elem) -> Elem {
        Elem::from_code(compose(self.code(), rhs.code()))
    }

    /// The inverse element.
    pub closed spec fn inverse(self) -> Elem {
        Elem::from_code(inv_code(self.code()))
    }

    proof fn lemma_from_code(code: u16)
        requires
            rot(code),
        ensures
            Elem::from_code(code).spec_id() < 192,
            Elem::from_code(code).code() == code,
    {
        lemma_cidx(code, code);
        lemma_table_rev(cidx(code));
        lemma_table_code_rot(table_rev(cidx(code)));
        lemma_cidx(table_code(table_rev(cidx(code))), code);
    }

    proof fn lemma_is_from_code(self)
        requires
            self.spec_id() < 192,
        ensures
            self == Elem::from_code(self.code()),
    {
        lemma_table_code_rev(self.spec_id());
    }

    /// Products and inverses of elements are elements, acting by
    /// composition and inversion of their codes.
    pub proof fn lemma_product(a: Elem, b: Elem)
        requires
            a.spec_id() < 192,
            b.spec_id() < 192,
        ensures
            a.product(b).spec_id() < 192,
            a.product(b).code() == compose(a.code(), b.code()),
            a.inverse().spec_id() < 192,
            a.inverse().code() == inv_code(a.code()),
    {
        lemma_table_code_rot(a.spec_id());
        lemma_table_code_rot(b.spec_id());
        lemma_compose_rot(a.code(), b.code());
        lemma_inv_code(a.code());
        Elem::lemma_from_code(compose(a.code(), b.code()));
        Elem::lemma_from_code(inv_code(a.code()));
    }

    /// Products and inverses of elements are elements.
    pub proof fn lemma_valid(a: Elem, b: Elem)
        requires
            a.spec_id() < 192,
            b.spec_id() < 192,
        ensures
            a.product(b).spec_id() < 192,
            a.inverse().spec_id() < 192,
    {
        Elem::lemma_product(a, b);
    }

    /// An element permutes the grips, sending opposite grips to opposite
    /// grips; products act by composition and inverses undo.
    pub proof fn lemma_action(a: Elem, b: Elem, g: int)
        requires
            a.spec_id() < 192,
            b.spec_id() < 192,
            0 <= g < 8,
        ensures
            0 <= a.grip_image(g) < 8,
            a.grip_image(g) / 2 == a.grip_image(g - g % 2) / 2,
            g % 2 == 0 ==> a.grip_image(g + 1) == (if a.grip_image(g) % 2 == 0 {
                a.grip_image(g) + 1
            } else {
                a.grip_image(g) - 1
            }),
            a.product(b).grip_image(g) == a.grip_image(b.grip_image(g)),
            a.inverse().grip_image(a.grip_image(g)) == g,
            a.grip_image(a.inverse().grip_image(g)) == g,
    {
        Elem::lemma_product(a, b);
        lemma_table_code_rot(a.spec_id());
        lemma_table_code_rot(b.spec_id());
        lemma_inv_code(a.code());
        lemma_gimg(a.code(), g as u16);
        lemma_gimg(a.code(), (g - g % 2) as u16);
        lemma_gimg(b.code(), g as u16);
        lemma_compose(a.code(), b.code(), g as u16);
        let ia = inv_code(a.code());
        lemma_gimg(ia, g as u16);
        lemma_compose(ia, a.code(), g as u16);
        lemma_compose(a.code(), ia, g as u16);
        lemma_ident_code(g as u16);
    }

    /// An element is a bijection on the grips, undone by its inverse.
    pub proof fn lemma_bijection(e: Elem)
        requires
            e.spec_id() < 192,
        ensures
            e.inverse().spec_id() < 192,
            forall|g: int|
                0 <= g < 8 ==> 0 <= #[trigger] e.grip_image(g) < 8 && e.inverse().grip_image(
                    e.grip_image(g),
                ) == g,
            forall|h: int|
                0 <= h < 8 ==> 0 <= #[trigger] e.inverse().grip_image(h) < 8 && e.grip_image(
                    e.inverse().grip_image(h),
                ) == h,
    {
        Elem::lemma_product(e, e);
        assert forall|g: int| 0 <= g < 8 implies 0 <= #[trigger] e.grip_image(g) < 8
            && e.inverse().grip_image(e.grip_image(g)) == g by {
            Elem::lemma_action(e, e, g);
        }
        assert forall|h: int| 0 <= h < 8 implies 0 <= #[trigger] e.inverse().grip_image(h) < 8
            && e.grip_image(e.inverse().grip_image(h)) == h by {
            Elem::lemma_action(e, e, h);
            Elem::lemma_action(e.inverse(), e, h);
        }
    }

    /// The identity fixes every grip.
    pub proof fn lemma_ident_action(e: Elem, g: int)
        requires
            e.spec_id() == 0,
            0 <= g < 8,
        ensures
            e.grip_image(g) == g,
    {
        lemma_table_ident();
        lemma_ident_code(g as u16);
    }

    /// How the image of a grip is read off the code.
    pub proof fn lemma_grip_image_def(e: Elem, g: int)
        ensures
            e.grip_image(g) == gimg(e.code(), g as u16) as int,
    {
    }

    /// Identity element.
    pub fn ident() -> (e: Elem)
        ensures
            e.spec_id() == 0,
            e == Elem::with_id(0),
            e.code() == IDENT_CODE,
    {
        proof {
            lemma_table_ident();
        }
        Elem(0)
    }

    /// Constructs an element from an ID.
    pub fn new(id: u8) -> (e: Elem)
        requires
            id < 192,
        ensures
            e.spec_id() == id,
            e == Elem::with_id(id),
    {
        Elem(id)
    }

    /// Returns the internal ID.
    #[verifier::when_used_as_spec(spec_id)]
    pub fn id(self) -> (r: u8)
        ensures
            r == self.spec_id(),
            r < 192,
    {
        proof {
            use_type_invariant(self);
        }
        self.0
    }

    /// Returns the inverse element.
    pub fn inv(self) -> (r: Elem)
        ensures
            r == self.inverse(),
    {
        let r = invert_elem(self);
        proof {
            use_type_invariant(r);
            r.lemma_is_from_code();
        }
        r
    }

    /// Transforms an object by the element.
    pub fn transform<T: TransformByElem>(self, obj: T) -> (r: T)
        ensures
            r == obj.transformed_by(self),
    {
        obj.transform_by(self)
    }

    /// Returns all elements of the group, in order of ID.
    pub fn iter_all() -> (r: Vec<Elem>)
        ensures
            r.len() == 192,
            forall|i: int| 0 <= i < 192 ==> (#[trigger] r[i]).spec_id() == i,
    {
        let mut r: Vec<Elem> = Vec::new();
        let mut i: u8 = 0;
        while i < 192
            invariant
                i <= 192,
                r.len() == i,
                forall|j: int| 0 <= j < i ==> (#[trigger] r[j]).spec_id() == j,
            decreases 192 - i,
        {
            r.push(Elem(i));
            i = i + 1;
        }
        r
    }

    /// The code of an element names a rotation.
    pub proof fn lemma_code_rot(self)
        requires
            self.spec_id() < 192,
        ensures
            rot(self.code()),
    {
        lemma_table_code_rot(self.spec_id());
    }

    /// The inverse undoes an element on either side, and inverting twice
    /// gives the element back.
    pub proof fn lemma_inverse_laws(e: Elem)
        requires
            e.spec_id() < 192,
        ensures
            e.product(e.inverse()) == Elem::with_id(0),
            e.inverse().product(e) == Elem::with_id(0),
            e.inverse().inverse() == e,
            forall|g: int| 0 <= g < 8 ==> #[trigger] e.inverse().grip_image(e.grip_image(g)) == g,
    {
        let i = e.inverse();
        let id = Elem::with_id(0);
        Elem::lemma_with_id(0);
        Elem::lemma_valid(e, e);
        Elem::lemma_valid(e, i);
        Elem::lemma_valid(i, e);
        Elem::lemma_valid(i, i);
        assert forall|g: int| 0 <= g < 8 implies e.product(i).grip_image(g) == id.grip_image(g)
            && i.product(e).grip_image(g) == id.grip_image(g) && i.inverse().grip_image(g) == e.grip_image(g) by {
            Elem::lemma_action(e, i, g);
            Elem::lemma_action(i, e, g);
            Elem::lemma_action(e, e, g);
            Elem::lemma_action(i, i, g);
            Elem::lemma_action(i, i, e.grip_image(g));
            Elem::lemma_ident_action(id, g);
        }
        Elem::lemma_ext(e.product(i), id);
        Elem::lemma_ext(i.product(e), id);
        Elem::lemma_ext(i.inverse(), e);
        assert forall|g: int| 0 <= g < 8 implies #[trigger] e.inverse().grip_image(e.grip_image(g)) == g by {
            Elem::lemma_action(e, e, g);
        }
    }

    /// Two elements that move every grip alike are equal.
    pub proof fn lemma_ext(a: Elem, b: Elem)
        requires
            a.spec_id() < 192,
            b.spec_id() < 192,
            forall|g: int| 0 <= g < 8 ==> a.grip_image(g) == b.grip_image(g),
        ensures
            a == b,
    {
        lemma_table_code_rot(a.spec_id());
        lemma_table_code_rot(b.spec_id());
        assert(a.grip_image(0) == b.grip_image(0));
        assert(a.grip_image(2) == b.grip_image(2));
        assert(a.grip_image(4) == b.grip_image(4));
        assert(a.grip_image(6) == b.grip_image(6));
        lemma_code_ext(a.code(), b.code());
        lemma_table_code_rev(a.spec_id());
        lemma_table_code_rev(b.spec_id());
    }
}

impl std::ops::Mul for Elem {
    type Output = Elem;

    fn mul(self, rhs: Self) -> (r: Elem)
        ensures
            r == self.product(rhs),
    {
        let r = mul_elem_elem(self, rhs);
        proof {
            use_type_invariant(r);
            r.lemma_is_from_code();
        }
        r
    }
}

impl vstd::std_specs::ops::MulSpecImpl for Elem {
    open spec fn obeys_mul_spec() -> bool {
        true
    }

    open spec fn mul_req(self, rhs: Elem) -> bool {
        true
    }

    open spec fn mul_spec(self, rhs: Elem) -> Elem {
        self.product(rhs)
    }
}

/// Type that can be transformed by an element.
pub trait TransformByElem: Sized {
    /// The result of transforming `self` by `elem`.
    spec fn transformed_by(self, elem: Elem) -> Self;

    /// Transforms `self` by `elem`.
    fn transform_by(self, elem: Elem) -> (r: Self)
        ensures
            r == self.transformed_by(elem),
    ;
}

/// Conjugation: `elem * self * elem.inv()`.
pub open spec fn conjugate_code(elem: u16, x: u16) -> u16 {
    compose(compose(elem, x), inv_code(elem))
}

impl TransformByElem for Elem {
    open spec fn transformed_by(self, elem: Elem) -> Elem {
        elem.product(self).product(elem.inverse())
    }

    fn transform_by(self, elem: Elem) -> (r: Elem) {
        elem * self * elem.inv()
    }
}

} // verus!
