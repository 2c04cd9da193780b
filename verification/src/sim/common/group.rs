//! Chiral subgroup of the Coxeter group BC4 (the group of rotations of a
//! hypercube), acting on the eight grips of the puzzle.
//!
//! An element is described by a *code*: the images of the four positive grips
//! `R`, `U`, `F`, `O` (grip ids 0, 2, 4, 6), packed in base 8 as
//! `img(R) + 8 * img(U) + 64 * img(F) + 512 * img(O)`. The image of a negative
//! grip is the opposite of the image of its positive partner.
//!
//! The ids 0 to 191 number the rotations, 0 being the identity. The tables
//! give the code of each id and, for each canonical index (see [`cidx`]), the
//! id with that index; they are proved to be inverse bijections between the
//! ids and the rotation codes. The ids follow the breadth-first order in
//! which [`generate_rotation_codes`] lists the rotations; the tests compare
//! the two.
use vstd::prelude::*;

use super::axis::Axis;
use super::element::Elem;
use super::grip::Grip;
use super::table::{code_of_id, id_of_cidx, lemma_table_code_rev, lemma_table_code_rot, lemma_table_ident, lemma_table_rev, table_code, table_rev};

verus! {

/// Number of elements in the group.
pub const ELEM_COUNT: usize = 192;

/// Code of the identity element.
pub const IDENT_CODE: u16 = 3344;

/// Image of the positive grip `2 * k` under the element with code `code`.
pub open spec fn pimg(code: u16, k: u16) -> u16 {
    if k == 0 {
        code % 8
    } else if k == 1 {
        (code / 8) % 8
    } else if k == 2 {
        (code / 64) % 8
    } else {
        (code / 512) % 8
    }
}

/// Image of grip `g` under the element with code `code`.
pub open spec fn gimg(code: u16, g: u16) -> u16 {
    let p = pimg(code, g / 2);
    if g % 2 == 0 {
        p
    } else if p % 2 == 0 {
        (p + 1) as u16
    } else {
        (p - 1) as u16
    }
}

/// Packs the images of the four positive grips into a code.
pub open spec fn mk(a: u16, b: u16, c: u16, d: u16) -> u16 {
    (a + 8 * b + 64 * c + 512 * d) as u16
}

/// Code of the composition `a * b` (first `b`, then `a`).
pub open spec fn compose(a: u16, b: u16) -> u16 {
    mk(gimg(a, pimg(b, 0)), gimg(a, pimg(b, 1)), gimg(a, pimg(b, 2)), gimg(a, pimg(b, 3)))
}

/// Whether the code describes a signed permutation of the four axes.
pub open spec fn valid(code: u16) -> bool {
    let a0 = pimg(code, 0) / 2;
    let a1 = pimg(code, 1) / 2;
    let a2 = pimg(code, 2) / 2;
    let a3 = pimg(code, 3) / 2;
    code < 4096 && a0 != a1 && a0 != a2 && a0 != a3 && a1 != a2 && a1 != a3 && a2 != a3
}

/// `1` if `a < b`, else `0`.
pub open spec fn lt1(a: u16, b: u16) -> u16 {
    if a < b {
        1
    } else {
        0
    }
}

/// Lehmer code (0..24) of the permutation of axes.
pub open spec fn lehmer(code: u16) -> u16 {
    let a0 = pimg(code, 0) / 2;
    let a1 = pimg(code, 1) / 2;
    let a2 = pimg(code, 2) / 2;
    let a3 = pimg(code, 3) / 2;
    ((lt1(a1, a0) + lt1(a2, a0) + lt1(a3, a0)) * 6 + (lt1(a2, a1) + lt1(a3, a1)) * 2 + lt1(
        a3,
        a2,
    )) as u16
}

/// Number of inversions of the permutation of axes.
pub open spec fn inversions(code: u16) -> u16 {
    let a0 = pimg(code, 0) / 2;
    let a1 = pimg(code, 1) / 2;
    let a2 = pimg(code, 2) / 2;
    let a3 = pimg(code, 3) / 2;
    (lt1(a1, a0) + lt1(a2, a0) + lt1(a3, a0) + lt1(a2, a1) + lt1(a3, a1) + lt1(a3, a2)) as u16
}

/// Number of axes whose positive grip is sent to a negative grip.
pub open spec fn flips(code: u16) -> u16 {
    (pimg(code, 0) % 2 + pimg(code, 1) % 2 + pimg(code, 2) % 2 + pimg(code, 3) % 2) as u16
}

/// Whether the code describes a rotation: a signed permutation with
/// determinant `+1`.
pub open spec fn rot(code: u16) -> bool {
    valid(code) && ((inversions(code) + flips(code)) as u16) % 2u16 == 0u16
}

/// Canonical index (0..192) of a rotation: the Lehmer code of its permutation
/// and the signs of the images of `R`, `U` and `F` (the sign of the image of
/// `O` follows from the determinant).
pub open spec fn cidx(code: u16) -> u16 {
    (lehmer(code) * 8 + pimg(code, 0) % 2 + (pimg(code, 1) % 2) * 2 + (pimg(code, 2) % 2)
        * 4) as u16
}

/// Image of the positive grip `2 * m` under the inverse of `code`.
pub open spec fn inv_img(code: u16, m: u16) -> u16 {
    if pimg(code, 0) / 2 == m {
        pimg(code, 0) % 2
    } else if pimg(code, 1) / 2 == m {
        (2 + pimg(code, 1) % 2) as u16
    } else if pimg(code, 2) / 2 == m {
        (4 + pimg(code, 2) % 2) as u16
    } else {
        (6 + pimg(code, 3) % 2) as u16
    }
}

/// Code of the inverse element.
pub open spec fn inv_code(code: u16) -> u16 {
    mk(inv_img(code, 0), inv_img(code, 1), inv_img(code, 2), inv_img(code, 3))
}

// ---------------------------------------------------------------------------
// Facts about the tables and codes
// ---------------------------------------------------------------------------

/// Grip images of a signed permutation are grips, and opposite grips go to
/// opposite grips.
pub proof fn lemma_gimg(code: u16, g: u16)
    by (bit_vector)
    requires
        valid(code),
        g < 8,
    ensures
        gimg(code, g) < 8,
        g % 2 == 0 ==> gimg(code, (g + 1) as u16) == (if gimg(code, g) % 2 == 0 {
            (gimg(code, g) + 1) as u16
        } else {
            (gimg(code, g) - 1) as u16
        }),
        pimg(code, g / 2) == gimg(code, (g - g % 2) as u16),
        gimg(code, g) / 2 == pimg(code, g / 2) / 2,
{
}

/// Grip images of a composition are images of images.
pub proof fn lemma_compose(a: u16, b: u16, g: u16)
    by (bit_vector)
    requires
        valid(a),
        valid(b),
        g < 8,
    ensures
        valid(compose(a, b)),
        gimg(compose(a, b), g) == gimg(a, gimg(b, g)),
{
}

/// The composition of two rotations is a rotation.
pub proof fn lemma_compose_rot(a: u16, b: u16)
    by (bit_vector)
    requires
        rot(a),
        rot(b),
    ensures
        rot(compose(a, b)),
{
}

/// A signed permutation is determined by the images of the positive grips.
pub proof fn lemma_code_ext(a: u16, b: u16)
    by (bit_vector)
    requires
        valid(a),
        valid(b),
        pimg(a, 0) == pimg(b, 0),
        pimg(a, 1) == pimg(b, 1),
        pimg(a, 2) == pimg(b, 2),
        pimg(a, 3) == pimg(b, 3),
    ensures
        a == b,
{
}

/// A rotation is determined by its canonical index.
pub proof fn lemma_cidx(a: u16, b: u16)
    by (bit_vector)
    requires
        rot(a),
        rot(b),
    ensures
        cidx(a) < 192,
        cidx(a) == cidx(b) ==> a == b,
{
}

/// The inverse code is the inverse rotation.
pub proof fn lemma_inv_code(a: u16)
    by (bit_vector)
    requires
        rot(a),
    ensures
        rot(inv_code(a)),
        compose(inv_code(a), a) == IDENT_CODE,
        compose(a, inv_code(a)) == IDENT_CODE,
{
}

/// The identity code fixes every grip.
pub proof fn lemma_ident_code(g: u16)
    by (bit_vector)
    requires
        g < 8,
    ensures
        rot(IDENT_CODE),
        gimg(IDENT_CODE, g) == g,
{
}

// ---------------------------------------------------------------------------
// Computing with codes
// ---------------------------------------------------------------------------

fn pimg_exec(code: u16, k: u16) -> (r: u16)
    ensures
        r == pimg(code, k),
{
    if k == 0 {
        code % 8
    } else if k == 1 {
        (code / 8) % 8
    } else if k == 2 {
        (code / 64) % 8
    } else {
        (code / 512) % 8
    }
}

fn gimg_exec(code: u16, g: u16) -> (r: u16)
    ensures
        r == gimg(code, g),
{
    let p = pimg_exec(code, g / 2);
    if g % 2 == 0 {
        p
    } else if p % 2 == 0 {
        p + 1
    } else {
        p - 1
    }
}

fn mk_exec(a: u16, b: u16, c: u16, d: u16) -> (r: u16)
    requires
        a < 8,
        b < 8,
        c < 8,
        d < 8,
    ensures
        r == mk(a, b, c, d),
{
    a + 8 * b + 64 * c + 512 * d
}

fn compose_exec(a: u16, b: u16) -> (r: u16)
    requires
        valid(a),
        valid(b),
    ensures
        r == compose(a, b),
{
    proof {
        lemma_gimg(b, 0);
        lemma_gimg(b, 2);
        lemma_gimg(b, 4);
        lemma_gimg(b, 6);
        lemma_gimg(a, pimg(b, 0));
        lemma_gimg(a, pimg(b, 1));
        lemma_gimg(a, pimg(b, 2));
        lemma_gimg(a, pimg(b, 3));
    }
    let r0 = gimg_exec(a, pimg_exec(b, 0));
    let r1 = gimg_exec(a, pimg_exec(b, 1));
    let r2 = gimg_exec(a, pimg_exec(b, 2));
    let r3 = gimg_exec(a, pimg_exec(b, 3));
    mk_exec(r0, r1, r2, r3)
}

fn lt1_exec(a: u16, b: u16) -> (r: u16)
    ensures
        r == lt1(a, b),
{
    if a < b {
        1
    } else {
        0
    }
}

fn cidx_exec(code: u16) -> (r: u16)
    ensures
        r == cidx(code),
{
    let a0 = pimg_exec(code, 0) / 2;
    let a1 = pimg_exec(code, 1) / 2;
    let a2 = pimg_exec(code, 2) / 2;
    let a3 = pimg_exec(code, 3) / 2;
    let lehmer = (lt1_exec(a1, a0) + lt1_exec(a2, a0) + lt1_exec(a3, a0)) * 6 + (lt1_exec(a2, a1)
        + lt1_exec(a3, a1)) * 2 + lt1_exec(a3, a2);
    lehmer * 8 + pimg_exec(code, 0) % 2 + (pimg_exec(code, 1) % 2) * 2 + (pimg_exec(code, 2) % 2)
        * 4
}

fn inv_img_exec(code: u16, m: u16) -> (r: u16)
    ensures
        r == inv_img(code, m),
        r < 8,
{
    if pimg_exec(code, 0) / 2 == m {
        pimg_exec(code, 0) % 2
    } else if pimg_exec(code, 1) / 2 == m {
        2 + pimg_exec(code, 1) % 2
    } else if pimg_exec(code, 2) / 2 == m {
        4 + pimg_exec(code, 2) % 2
    } else {
        6 + pimg_exec(code, 3) % 2
    }
}

/// Id of the rotation with the given code.
fn id_of_code(code: u16) -> (id: u8)
    requires
        rot(code),
    ensures
        id < 192,
        table_code(id) == code,
{
    proof {
        lemma_cidx(code, code);
    }
    let c = cidx_exec(code);
    let id = id_of_cidx(c);
    proof {
        lemma_table_rev(c);
        lemma_table_code_rot(id);
        lemma_cidx(table_code(id), code);
    }
    id
}

/// Code of an element.
pub(crate) fn elem_code(e: Elem) -> (code: u16)
    ensures
        code == e.code(),
        rot(code),
{
    let id = e.id();
    proof {
        lemma_table_code_rot(id);
    }
    code_of_id(id)
}

// ---------------------------------------------------------------------------
// Group operations
// ---------------------------------------------------------------------------

/// Returns the inverse of an element of the grip group.
pub fn invert_elem(elem: Elem) -> (r: Elem)
    ensures
        r.code() == inv_code(elem.code()),
        compose(r.code(), elem.code()) == IDENT_CODE,
        compose(elem.code(), r.code()) == IDENT_CODE,
{
    let code = elem_code(elem);
    proof {
        lemma_inv_code(code);
    }
    let inv = mk_exec(
        inv_img_exec(code, 0),
        inv_img_exec(code, 1),
        inv_img_exec(code, 2),
        inv_img_exec(code, 3),
    );
    Elem::new(id_of_code(inv))
}

/// Composes two elements of the grip group.
pub fn mul_elem_elem(lhs: Elem, rhs: Elem) -> (r: Elem)
    ensures
        r.code() == compose(lhs.code(), rhs.code()),
{
    let a = elem_code(lhs);
    let b = elem_code(rhs);
    proof {
        lemma_compose_rot(a, b);
    }
    let c = compose_exec(a, b);
    Elem::new(id_of_code(c))
}

/// Transforms a grip by an element of the grip group.
pub fn mul_elem_grip(lhs: Elem, rhs: Grip) -> (r: Grip)
    ensures
        r.spec_id() == lhs.grip_image(rhs.spec_id() as int),
{
    let code = elem_code(lhs);
    let g = rhs.id();
    proof {
        lemma_gimg(code, g as u16);
        Elem::lemma_grip_image_def(lhs, g as int);
    }
    Grip::new(gimg_exec(code, g as u16) as u8)
}

/// Transforms an axis by an element of the grip group.
pub fn mul_elem_axis(lhs: Elem, rhs: Axis) -> (r: Axis)
    ensures
        r.spec_id() == lhs.grip_image(2 * rhs.spec_id()) / 2,
{
    let code = elem_code(lhs);
    let g = 2 * rhs.id() as u16;
    proof {
        lemma_gimg(code, g);
        Elem::lemma_grip_image_def(lhs, g as int);
    }
    Axis::new((gimg_exec(code, g) / 2) as u8)
}


// ---------------------------------------------------------------------------
// Generating the rotations
// ---------------------------------------------------------------------------

/// Code of the `k`-th generating quarter turn: in the `XY`, `XZ` and `XW`
/// planes for `k` = 0, 1, 2 (`X` goes to `Y`, `Z` or `W`, which goes to `-X`).
pub open spec fn generator_code(k: int) -> u16 {
    if k == 0 {
        3338
    } else if k == 1 {
        3156
    } else {
        790
    }
}

/// Whether `s` lists distinct rotations.
pub open spec fn distinct_rotations(s: Seq<u16>) -> bool {
    &&& s.no_duplicates()
    &&& forall|i: int| 0 <= i < s.len() ==> #[trigger] rot(s[i])
}

/// Whether the list holds the product of its `i`-th code with the `k`-th
/// generator.
pub open spec fn holds_successor(s: Seq<u16>, i: int, k: int) -> bool {
    s.contains(compose(s[i], generator_code(k)))
}

/// Whether the list holds the product of each of its codes with each
/// generator.
pub open spec fn closed_under_generators(s: Seq<u16>) -> bool {
    forall|i: int, k: int| 0 <= i < s.len() && 0 <= k < 3 ==> #[trigger] holds_successor(s, i, k)
}

/// There are at most 192 distinct rotations.
proof fn lemma_rotations_bound(s: Seq<u16>)
    requires
        distinct_rotations(s),
    ensures
        s.len() <= 192,
{
    let t = s.map_values(|c: u16| cidx(c) as int);
    assert forall|i: int, j: int| 0 <= i < t.len() && 0 <= j < t.len() && i != j implies t[i] != t[j] by {
        assert(rot(s[i]) && rot(s[j]));
        lemma_cidx(s[i], s[j]);
    }
    assert(t.no_duplicates());
    t.unique_seq_to_set();
    assert forall|x: int| t.to_set().contains(x) implies vstd::set_lib::set_int_range(0, 192).contains(x) by {
        let i = choose|i: int| 0 <= i < t.len() && t[i] == x;
        assert(rot(s[i]));
        lemma_cidx(s[i], s[i]);
    }
    vstd::set_lib::lemma_int_range(0, 192);
    vstd::set_lib::lemma_len_subset(t.to_set(), vstd::set_lib::set_int_range(0, 192));
}

fn generator_exec(k: usize) -> (g: u16)
    requires
        k < 3,
    ensures
        g == generator_code(k as int),
        rot(g),
{
    if k == 0 {
        3338
    } else if k == 1 {
        3156
    } else {
        790
    }
}

fn contains_code(v: &Vec<u16>, c: u16) -> (r: bool)
    ensures
        r == v@.contains(c),
{
    let mut i: usize = 0;
    while i < v.len()
        invariant
            i <= v.len(),
            forall|j: int| 0 <= j < i ==> v@[j] != c,
        decreases v.len() - i,
    {
        if v[i] == c {
            return true;
        }
        i = i + 1;
    }
    false
}

/// Lists the rotations in the order in which a breadth-first walk from the
/// identity reaches them: each code in turn is multiplied on the right by
/// the quarter turns in the `XY`, `XZ` and `XW` planes, in that order, and
/// each product not yet listed is appended. The element ids number the
/// rotations in this order.
pub fn generate_rotation_codes() -> (r: Vec<u16>)
    ensures
        r@.len() >= 1,
        r@[0] == IDENT_CODE,
        distinct_rotations(r@),
        closed_under_generators(r@),
{
    let mut codes: Vec<u16> = Vec::new();
    codes.push(IDENT_CODE);
    proof {
        lemma_ident_code(0);
        assert(distinct_rotations(codes@));
    }
    let mut last: usize = 0;
    while last < codes.len()
        invariant
            1 <= codes@.len() <= 192,
            last <= codes@.len(),
            codes@[0] == IDENT_CODE,
            distinct_rotations(codes@),
            forall|i: int, k: int| 0 <= i < last && 0 <= k < 3 ==> #[trigger] holds_successor(codes@, i, k),
        decreases 384 - last - codes@.len(),
    {
        let init = codes[last];
        let ghost len0 = codes@.len();
        let mut k: usize = 0;
        while k < 3
            invariant
                1 <= codes@.len() <= 192,
                last < codes@.len(),
                len0 <= codes@.len(),
                k <= 3,
                init == codes@[last as int],
                codes@[0] == IDENT_CODE,
                distinct_rotations(codes@),
                forall|i: int, j: int| 0 <= i < last && 0 <= j < 3 ==> #[trigger] holds_successor(codes@, i, j),
                forall|j: int| 0 <= j < k ==> #[trigger] holds_successor(codes@, last as int, j),
            decreases 3 - k,
        {
            let g = generator_exec(k);
            proof {
                assert(rot(codes@[last as int]));
            }
            let new = compose_exec(init, g);
            if !contains_code(&codes, new) {
                let ghost old_codes = codes@;
                proof {
                    lemma_compose_rot(init, g);
                    let s = old_codes.push(new);
                    assert forall|i: int| 0 <= i < s.len() implies #[trigger] rot(s[i]) by {
                        if i < old_codes.len() {
                            assert(rot(old_codes[i]));
                        }
                    }
                    assert forall|i: int, j: int| 0 <= i < s.len() && 0 <= j < s.len() && i != j implies s[i] != s[j] by {
                        if i < old_codes.len() && j < old_codes.len() {
                        } else if i < old_codes.len() {
                            assert(old_codes.contains(s[i]));
                        } else {
                            assert(old_codes.contains(s[j]));
                        }
                    }
                    lemma_rotations_bound(s);
                }
                codes.push(new);
                proof {
                    assert forall|i: int, j: int| 0 <= i < old_codes.len() && 0 <= j < 3 && holds_successor(old_codes, i, j)
                        implies #[trigger] holds_successor(codes@, i, j) by {
                        let m = choose|m: int| 0 <= m < old_codes.len() && old_codes[m] == compose(old_codes[i], generator_code(j));
                        assert(codes@[m] == old_codes[m]);
                        assert(codes@[i] == old_codes[i]);
                    }
                    assert(codes@[codes@.len() - 1] == new);
                    assert(holds_successor(codes@, last as int, k as int));
                }
            } else {
                proof {
                    assert(holds_successor(codes@, last as int, k as int));
                }
            }
            k = k + 1;
        }
        last = last + 1;
    }
    codes
}

} // verus!
