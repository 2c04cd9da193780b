//! Which twist each sticker of a Magic Cube 4D log file stands for.
use vstd::prelude::*;

use crate::sim::common::element::{Elem, TransformByElem};
use crate::sim::common::grip::Grip;
use crate::sim::common::twist::Twist;
use crate::sim::common::twist_names::{find_named_twist, twist_named, twist_names_4d};
use crate::sim::common::vector::{component, lemma_vec4_ext, moved_vec, negatable, vec4_of, Vec4};

verus! {

broadcast use {Elem::lemma_with_id, Grip::lemma_with_id, Elem::lemma_id_eq, Grip::lemma_id_eq};

/// Number of stickers on a face of the log file's puzzle.
pub const STICKERS_PER_FACE: usize = 27;

/// Number of stickers of the log file's puzzle.
pub const STICKER_COUNT: usize = 216;

/// Number of (element, seed) pairs searched for a sticker's twist.
const SEED_PAIRS: usize = 576;

/// Faces in the order in which the log file numbers their stickers:
/// I, B, D, L, R, U, F, O.
pub open spec fn face_order() -> Seq<int> {
    seq![7int, 5int, 3int, 1int, 0int, 2int, 4int, 6int]
}

/// The axes of the three basis faces of grip `g`, as the log file orders
/// them: the other three axes, from W down to X.
pub open spec fn basis_axes(g: int) -> Seq<int> {
    let a = g / 2;
    if a == 3 {
        seq![2int, 1int, 0int]
    } else if a == 2 {
        seq![3int, 1int, 0int]
    } else if a == 1 {
        seq![3int, 2int, 0int]
    } else {
        seq![3int, 2int, 1int]
    }
}

/// Coordinates of the `i`th piece location of a 3x3x3 face, with the first
/// coordinate varying slowest.
pub open spec fn cube_location(i: int) -> Seq<int> {
    seq![i / 9 - 1, (i / 3) % 3 - 1, i % 3 - 1]
}

/// Sum of the absolute values of a location's coordinates.
pub open spec fn abs_sum3(c: Seq<int>) -> int {
    (if c[0] < 0 { -c[0] } else { c[0] }) + (if c[1] < 0 { -c[1] } else { c[1] }) + (if c[2] < 0 {
        -c[2]
    } else {
        c[2]
    })
}

/// The first `n` piece locations of a face whose coordinates have absolute
/// sum `t`, in order.
pub open spec fn locations_with_sum(t: int, n: nat) -> Seq<Seq<int>>
    decreases n,
{
    if n == 0 {
        seq![]
    } else {
        locations_with_sum(t, (n - 1) as nat) + (if abs_sum3(cube_location(n - 1)) == t {
            seq![cube_location(n - 1)]
        } else {
            seq![]
        })
    }
}

/// Piece locations of a face in the log file's order: corners, edges,
/// ridges, then the center.
pub open spec fn sticker_locations() -> Seq<Seq<int>> {
    locations_with_sum(3, 27) + locations_with_sum(2, 27) + locations_with_sum(1, 27) + seq![
        seq![0int, 0int, 0int],
    ]
}

/// Unit vector along axis `a`, scaled by `c`.
pub open spec fn scaled_unit(a: int, c: int) -> Vec4 {
    vec4_of(
        if a == 0 { c } else { 0 },
        if a == 1 { c } else { 0 },
        if a == 2 { c } else { 0 },
        if a == 3 { c } else { 0 },
    )
}

/// Sum of two vectors.
pub open spec fn vec_sum(u: Vec4, v: Vec4) -> Vec4 {
    vec4_of(u.x + v.x, u.y + v.y, u.z + v.z, u.w + v.w)
}

/// Vector that a sticker at location `c` on the face of grip `g` points
/// along, within the face.
pub open spec fn sticker_vector(g: int, c: Seq<int>) -> Vec4 {
    let b = basis_axes(g);
    vec_sum(vec_sum(vec_sum(vec4_of(0, 0, 0, 0), scaled_unit(b[0], c[0])), scaled_unit(b[1], c[1])), scaled_unit(b[2], c[2]))
}

/// Name of the seed twist `k`: `IR`, `IUR`, `IUFR`.
pub open spec fn seed_name(k: int) -> Seq<u8> {
    if k == 0 {
        seq![73u8, 82u8]
    } else if k == 1 {
        seq![73u8, 85u8, 82u8]
    } else {
        seq![73u8, 85u8, 70u8, 82u8]
    }
}

/// Sticker vector on grip I of the seed twist `k`.
pub open spec fn seed_vector(k: int) -> Vec4 {
    if k == 0 {
        vec4_of(-1, 0, 0, 0)
    } else if k == 1 {
        vec4_of(-1, -1, 0, 0)
    } else {
        vec4_of(-1, -1, -1, 0)
    }
}

/// Whether the pair `p` (element `p / 3`, seed `p % 3`) puts the seed's
/// sticker on grip `g` along `v`.
pub open spec fn pair_matches(p: int, g: int, v: Vec4) -> bool {
    let e = Elem::with_id((p / 3) as u8);
    &&& twist_named(seed_name(p % 3)) is Some
    &&& e.grip_image(7) == g
    &&& moved_vec(e, seed_vector(p % 3)) == v
}

/// The last pair below `n` that puts a seed's sticker on grip `g` along `v`.
pub open spec fn last_matching_pair(g: int, v: Vec4, n: nat) -> Option<int>
    decreases n,
{
    if n == 0 {
        None
    } else if pair_matches(n - 1, g, v) {
        Some(n - 1)
    } else {
        last_matching_pair(g, v, (n - 1) as nat)
    }
}

/// The twist of the sticker on grip `g` along `v`: the seed twist moved by
/// the last element that brings its sticker there.
pub open spec fn sticker_twist(g: int, v: Vec4) -> Option<Twist> {
    match last_matching_pair(g, v, 576) {
        Some(p) => Some(twist_named(seed_name(p % 3))->0.transformed_by(Elem::with_id((p / 3) as u8))),
        None => None,
    }
}

/// The twist of sticker `i` of the log file.
pub open spec fn mc4d_sticker_twist(i: int) -> Option<Twist> {
    let n = sticker_locations().len() as int;
    let g = face_order()[i / n];
    sticker_twist(g, sticker_vector(g, sticker_locations()[i % n]))
}

/// The twists of all stickers of the log file, by sticker number.
pub open spec fn mc4d_order() -> Seq<Option<Twist>> {
    Seq::new((8 * sticker_locations().len()) as nat, |i: int| mc4d_sticker_twist(i))
}

/// Sum of the absolute values of the coordinates.
pub fn abs_sum(xs: &[i8; 3]) -> (r: i8)
    requires
        forall|k: int| 0 <= k < 3 ==> -42 <= #[trigger] xs[k] <= 42,
    ensures
        r == abs_sum3(seq![xs[0] as int, xs[1] as int, xs[2] as int]),
{
    let a = if xs[0] < 0 { -xs[0] } else { xs[0] };
    let b = if xs[1] < 0 { -xs[1] } else { xs[1] };
    let c = if xs[2] < 0 { -xs[2] } else { xs[2] };
    a + b + c
}

/// The three faces whose axes span the face of grip `g`: the faces R, U, F
/// with the one on the axis of `g` replaced by O or I, on the side of `g`.
pub fn basis_faces(g: Grip) -> (r: [Grip; 3])
    ensures
        r[0].spec_id() == (if g.spec_id() / 2 == 0 { if g.spec_id() % 2 == 0 { 6int } else { 7int } } else { 0int }),
        r[1].spec_id() == (if g.spec_id() / 2 == 1 { if g.spec_id() % 2 == 0 { 6int } else { 7int } } else { 2int }),
        r[2].spec_id() == (if g.spec_id() / 2 == 2 { if g.spec_id() % 2 == 0 { 6int } else { 7int } } else { 4int }),
{
    let w = if g.is_pos() {
        Grip::new(6)
    } else {
        Grip::new(7)
    };
    let a = g.axis().id();
    [
        if a == 0 {
            w
        } else {
            Grip::new(0)
        },
        if a == 1 {
            w
        } else {
            Grip::new(2)
        },
        if a == 2 {
            w
        } else {
            Grip::new(4)
        },
    ]
}

/// The axes of the basis faces of `g`, sorted by axis and reversed.
fn sorted_basis_axes(g: Grip) -> (r: [u8; 3])
    ensures
        forall|k: int| 0 <= k < 3 ==> r[k] as int == #[trigger] basis_axes(g.spec_id() as int)[k],
{
    let _ = g.id();
    let faces = basis_faces(g);
    let mut a0 = faces[0].axis().id();
    let mut a1 = faces[1].axis().id();
    let mut a2 = faces[2].axis().id();
    let ghost ax = g.spec_id() / 2;
    assert(a0 == (if ax == 0 { 3u8 } else { 0u8 }));
    assert(a1 == (if ax == 1 { 3u8 } else { 1u8 }));
    assert(a2 == (if ax == 2 { 3u8 } else { 2u8 }));
    if a0 < a1 {
        let t = a0;
        a0 = a1;
        a1 = t;
    }
    if a1 < a2 {
        let t = a1;
        a1 = a2;
        a2 = t;
    }
    if a0 < a1 {
        let t = a0;
        a0 = a1;
        a1 = t;
    }
    let r = [a0, a1, a2];
    proof {
        let b = basis_axes(g.spec_id() as int);
        if ax == 0 {
            assert(b == seq![3int, 2int, 1int]);
        } else if ax == 1 {
            assert(b == seq![3int, 2int, 0int]);
        } else if ax == 2 {
            assert(b == seq![3int, 1int, 0int]);
        } else {
            assert(b == seq![2int, 1int, 0int]);
        }
        assert(r[0] as int == b[0]);
        assert(r[1] as int == b[1]);
        assert(r[2] as int == b[2]);
    }
    r
}

/// The locations listed before those with absolute sum `t`.
spec fn locations_before(t: int) -> Seq<Seq<int>> {
    if t == 3 {
        seq![]
    } else if t == 2 {
        locations_with_sum(3, 27)
    } else if t == 1 {
        locations_with_sum(3, 27) + locations_with_sum(2, 27)
    } else {
        locations_with_sum(3, 27) + locations_with_sum(2, 27) + locations_with_sum(1, 27)
    }
}

/// Piece locations of a face in the log file's order: corners, edges,
/// ridges, then the center.
fn mc4d_locations() -> (r: Vec<[i8; 3]>)
    ensures
        r.len() == sticker_locations().len(),
        forall|i: int|
            0 <= i < r.len() ==> seq![r[i][0] as int, r[i][1] as int, r[i][2] as int]
                == #[trigger] sticker_locations()[i],
{
    let mut r: Vec<[i8; 3]> = Vec::new();
    let mut t: i8 = 3;
    while t > 0
        invariant
            0 <= t <= 3,
            r.len() == locations_before(t as int).len(),
            forall|i: int|
                0 <= i < r.len() ==> seq![r[i][0] as int, r[i][1] as int, r[i][2] as int]
                    == #[trigger] locations_before(t as int)[i],
        decreases t,
    {
        let ghost before = r@;
        let ghost prefix: Seq<Seq<int>> = locations_before(t as int);
        let mut n: usize = 0;
        while n < 27
            invariant
                0 < t <= 3,
                n <= 27,
                before.len() == prefix.len(),
                r.len() == prefix.len() + locations_with_sum(t as int, n as nat).len(),
                forall|i: int|
                    0 <= i < r.len() ==> seq![r[i][0] as int, r[i][1] as int, r[i][2] as int] == #[trigger] (prefix
                        + locations_with_sum(t as int, n as nat))[i],
            decreases 27 - n,
        {
            let x = (n / 9) as i8 - 1;
            let y = ((n / 3) % 3) as i8 - 1;
            let z = (n % 3) as i8 - 1;
            let c = [x, y, z];
            let s = abs_sum(&c);
            proof {
                assert(seq![c[0] as int, c[1] as int, c[2] as int] == cube_location(n as int));
            }
            let ghost old_r = r@;
            if s == t {
                r.push(c);
            }
            proof {
                let next = locations_with_sum(t as int, (n + 1) as nat);
                let cur = locations_with_sum(t as int, n as nat);
                assert(next == cur + (if abs_sum3(cube_location(n as int)) == t {
                    seq![cube_location(n as int)]
                } else {
                    seq![]
                }));
                assert forall|i: int| 0 <= i < r.len() implies seq![r[i][0] as int, r[i][1] as int, r[i][2] as int]
                    == #[trigger] (prefix + next)[i] by {
                    if i < old_r.len() {
                        assert(r[i] == old_r[i]);
                        assert((prefix + next)[i] == (prefix + cur)[i]);
                    } else {
                        assert((prefix + next)[i] == cube_location(n as int));
                    }
                }
            }
            n = n + 1;
        }
        proof {
            assert(prefix + locations_with_sum(t as int, 27) == locations_before((t - 1) as int));
        }
        t = t - 1;
    }
    r.push([0, 0, 0]);
    proof {
        assert(locations_before(0) + seq![seq![0int, 0int, 0int]] == sticker_locations());
    }
    r
}

/// For every pair `p` (element `p / 3`, seed `p % 3`), the grip and the
/// sticker vector that the element moves the seed's sticker to.
fn seed_pair_keys() -> (r: Vec<(Grip, Vec4)>)
    ensures
        r.len() == SEED_PAIRS,
        forall|p: int|
            0 <= p < SEED_PAIRS ==> (#[trigger] r[p]).0.spec_id() == Elem::with_id((p / 3) as u8).grip_image(7)
                && r[p].1 == moved_vec(Elem::with_id((p / 3) as u8), seed_vector(p % 3)),
{
    let seeds = [Vec4::new(-1, 0, 0, 0), Vec4::new(-1, -1, 0, 0), Vec4::new(-1, -1, -1, 0)];
    let mut r: Vec<(Grip, Vec4)> = Vec::new();
    let mut e: u8 = 0;
    while e < 192
        invariant
            e <= 192,
            r.len() == 3 * e,
            forall|k: int| 0 <= k < 3 ==> #[trigger] seeds[k] == seed_vector(k) && negatable(seeds[k]),
            forall|p: int|
                0 <= p < r.len() ==> (#[trigger] r[p]).0.spec_id() == Elem::with_id((p / 3) as u8).grip_image(7)
                    && r[p].1 == moved_vec(Elem::with_id((p / 3) as u8), seed_vector(p % 3)),
        decreases 192 - e,
    {
        let elem = Elem::new(e);
        let g = elem * Grip::new(7);
        let mut k: usize = 0;
        while k < 3
            invariant
                e < 192,
                k <= 3,
                elem == Elem::with_id(e),
                g.spec_id() == elem.grip_image(7),
                r.len() == 3 * e + k,
                forall|j: int| 0 <= j < 3 ==> #[trigger] seeds[j] == seed_vector(j) && negatable(seeds[j]),
                forall|p: int|
                    0 <= p < r.len() ==> (#[trigger] r[p]).0.spec_id() == Elem::with_id((p / 3) as u8).grip_image(
                        7,
                    ) && r[p].1 == moved_vec(Elem::with_id((p / 3) as u8), seed_vector(p % 3)),
            decreases 3 - k,
        {
            let v = elem * seeds[k];
            proof {
                let p = (3 * e + k) as int;
                assert(p / 3 == e as int);
                assert(p % 3 == k as int);
                assert((p / 3) as u8 == e);
            }
            r.push((g, v));
            k = k + 1;
        }
        e = e + 1;
    }
    r
}

/// Which twist each sticker of a Magic Cube 4D log file stands for, by
/// sticker number; `None` for the centers of the faces.
pub fn mc4d_twist_order() -> (r: Vec<Option<Twist>>)
    ensures
        r.len() == 8 * sticker_locations().len(),
        forall|i: int| 0 <= i < r.len() ==> #[trigger] r[i] == mc4d_sticker_twist(i),
        r@ == mc4d_order(),
{
    let names = twist_names_4d();
    let seed_ir: [u8; 2] = [73, 82];
    let seed_iur: [u8; 3] = [73, 85, 82];
    let seed_iufr: [u8; 4] = [73, 85, 70, 82];
    let seeds = [
        find_named_twist(&names, &seed_ir),
        find_named_twist(&names, &seed_iur),
        find_named_twist(&names, &seed_iufr),
    ];
    proof {
        assert(seed_ir@ == seed_name(0));
        assert(seed_iur@ == seed_name(1));
        assert(seed_iufr@ == seed_name(2));
    }
    let keys = seed_pair_keys();
    let locations = mc4d_locations();
    let faces: [u8; 8] = [7, 5, 3, 1, 0, 2, 4, 6];
    let mut r: Vec<Option<Twist>> = Vec::new();
    let mut fi: usize = 0;
    let ghost n = sticker_locations().len() as int;
    while fi < 8
        invariant
            fi <= 8,
            n == locations.len(),
            n == sticker_locations().len(),
            r.len() == fi * n,
            keys.len() == SEED_PAIRS,
            forall|k: int| 0 <= k < 3 ==> #[trigger] seeds[k] == twist_named(seed_name(k)),
            forall|k: int| 0 <= k < 8 ==> faces[k] as int == #[trigger] face_order()[k],
            forall|i: int|
                0 <= i < n ==> seq![locations[i][0] as int, locations[i][1] as int, locations[i][2] as int]
                    == #[trigger] sticker_locations()[i],
            forall|p: int|
                0 <= p < SEED_PAIRS ==> (#[trigger] keys[p]).0.spec_id() == Elem::with_id((p / 3) as u8).grip_image(
                    7,
                ) && keys[p].1 == moved_vec(Elem::with_id((p / 3) as u8), seed_vector(p % 3)),
            forall|i: int| 0 <= i < r.len() ==> #[trigger] r[i] == mc4d_sticker_twist(i),
        decreases 8 - fi,
    {
        let grip = Grip::new(faces[fi]);
        let axes = sorted_basis_axes(grip);
        let mut li: usize = 0;
        while li < locations.len()
            invariant
                fi < 8,
                li <= n,
                n == locations.len(),
                n == sticker_locations().len(),
                r.len() == fi * n + li,
                grip.spec_id() == face_order()[fi as int],
                forall|k: int| 0 <= k < 3 ==> axes[k] as int == #[trigger] basis_axes(grip.spec_id() as int)[k],
                keys.len() == SEED_PAIRS,
                forall|k: int| 0 <= k < 3 ==> #[trigger] seeds[k] == twist_named(seed_name(k)),
                forall|i: int|
                    0 <= i < n ==> seq![locations[i][0] as int, locations[i][1] as int, locations[i][2] as int]
                        == #[trigger] sticker_locations()[i],
                forall|p: int|
                    0 <= p < SEED_PAIRS ==> (#[trigger] keys[p]).0.spec_id() == Elem::with_id(
                        (p / 3) as u8,
                    ).grip_image(7) && keys[p].1 == moved_vec(Elem::with_id((p / 3) as u8), seed_vector(p % 3)),
                forall|i: int| 0 <= i < r.len() ==> #[trigger] r[i] == mc4d_sticker_twist(i),
            decreases n - li,
        {
            let c = locations[li];
            let ghost loc = sticker_locations()[li as int];
            proof {
                assert(seq![c[0] as int, c[1] as int, c[2] as int] == loc);
                lemma_location_coords(li as int);
            }
            proof {
                let b = basis_axes(grip.spec_id() as int);
                assert(axes[0] as int == b[0]);
                assert(axes[1] as int == b[1]);
                assert(axes[2] as int == b[2]);
            }
            let v0 = Vec4::new(0, 0, 0, 0).with(axes[0], c[0]);
            let v1 = v0.with(axes[1], c[1]);
            let v = v1.with(axes[2], c[2]);
            proof {
                let b = basis_axes(grip.spec_id() as int);
                assert forall|a: int| 0 <= a < 4 implies #[trigger] component(v, a) == (if a == b[0] {
                    loc[0]
                } else if a == b[1] {
                    loc[1]
                } else if a == b[2] {
                    loc[2]
                } else {
                    0
                }) by {
                    assert(axes[0] as int == b[0]);
                    assert(axes[1] as int == b[1]);
                    assert(axes[2] as int == b[2]);
                }
                lemma_sticker_vector(grip.spec_id() as int, loc, v);
            }
            let found = find_sticker_twist(&keys, &seeds, grip, v);
            proof {
                let i = r.len() as int;
                assert(i / n == fi as int) by (nonlinear_arith)
                    requires
                        i == fi * n + li,
                        0 <= li < n,
                ;
                assert(i % n == li as int) by (nonlinear_arith)
                    requires
                        i == fi * n + li,
                        0 <= li < n,
                ;
                assert(found == mc4d_sticker_twist(i));
            }
            r.push(found);
            li = li + 1;
        }
        assert(r.len() == (fi + 1) * n) by (nonlinear_arith)
            requires
                r.len() == fi * n + n,
        ;
        fi = fi + 1;
    }
    proof {
        assert(r@ =~= mc4d_order());
    }
    r
}

/// The twist of the sticker on `grip` along `v`, searched among the seed
/// pairs from the last one down.
fn find_sticker_twist(keys: &Vec<(Grip, Vec4)>, seeds: &[Option<Twist>; 3], grip: Grip, v: Vec4) -> (r: Option<Twist>)
    requires
        keys.len() == SEED_PAIRS,
        forall|k: int| 0 <= k < 3 ==> #[trigger] seeds[k] == twist_named(seed_name(k)),
        forall|p: int|
            0 <= p < SEED_PAIRS ==> (#[trigger] keys[p]).0.spec_id() == Elem::with_id((p / 3) as u8).grip_image(7)
                && keys[p].1 == moved_vec(Elem::with_id((p / 3) as u8), seed_vector(p % 3)),
    ensures
        r == sticker_twist(grip.spec_id() as int, v),
{
    let mut p: usize = SEED_PAIRS;
    while p > 0
        invariant
            p <= SEED_PAIRS,
            keys.len() == SEED_PAIRS,
            forall|k: int| 0 <= k < 3 ==> #[trigger] seeds[k] == twist_named(seed_name(k)),
            forall|q: int|
                0 <= q < SEED_PAIRS ==> (#[trigger] keys[q]).0.spec_id() == Elem::with_id((q / 3) as u8).grip_image(
                    7,
                ) && keys[q].1 == moved_vec(Elem::with_id((q / 3) as u8), seed_vector(q % 3)),
            last_matching_pair(grip.spec_id() as int, v, SEED_PAIRS as nat) == last_matching_pair(
                grip.spec_id() as int,
                v,
                p as nat,
            ),
        decreases p,
    {
        let q = p - 1;
        let key = keys[q];
        let seed = seeds[q % 3];
        if seed.is_some() && key.0 == grip && key.1 == v {
            proof {
                assert(pair_matches(q as int, grip.spec_id() as int, v));
            }
            let e = Elem::new((q / 3) as u8);
            let t = seed.unwrap();
            return Some(e.transform(t));
        }
        proof {
            assert(!pair_matches(q as int, grip.spec_id() as int, v));
        }
        p = q;
    }
    None
}

/// Coordinates of the sticker locations are between -1 and 1.
proof fn lemma_location_coords(i: int)
    requires
        0 <= i < sticker_locations().len(),
    ensures
        forall|k: int| 0 <= k < 3 ==> -1 <= #[trigger] sticker_locations()[i][k] <= 1,
{
    lemma_locations_with_sum_coords(3, 27);
    lemma_locations_with_sum_coords(2, 27);
    lemma_locations_with_sum_coords(1, 27);
    let a = locations_with_sum(3, 27);
    let b = locations_with_sum(2, 27);
    let c = locations_with_sum(1, 27);
    let s = sticker_locations();
    if i < a.len() {
        assert(s[i] == a[i]);
    } else if i < a.len() + b.len() {
        assert(s[i] == b[i - a.len()]);
    } else if i < a.len() + b.len() + c.len() {
        assert(s[i] == c[i - a.len() - b.len()]);
    } else {
        assert(s[i] == seq![0int, 0int, 0int]);
    }
}

/// Locations listed by [`locations_with_sum`] have coordinates between -1
/// and 1.
proof fn lemma_locations_with_sum_coords(t: int, n: nat)
    requires
        n <= 27,
    ensures
        forall|i: int, k: int|
            0 <= i < locations_with_sum(t, n).len() && 0 <= k < 3 ==> -1 <= #[trigger] locations_with_sum(t, n)[i][k]
                <= 1,
        forall|i: int| 0 <= i < locations_with_sum(t, n).len() ==> #[trigger] locations_with_sum(t, n)[i].len() == 3,
    decreases n,
{
    if n > 0 {
        lemma_locations_with_sum_coords(t, (n - 1) as nat);
        let m = n - 1;
        let prev = locations_with_sum(t, m as nat);
        let cur = locations_with_sum(t, n);
        let c = cube_location(m);
        assert(0 <= m / 9 < 3);
        assert(0 <= (m / 3) % 3 < 3);
        assert(0 <= m % 3 < 3);
        assert(cur == prev + (if abs_sum3(c) == t {
            seq![c]
        } else {
            seq![]
        }));
        assert forall|i: int| 0 <= i < cur.len() implies (#[trigger] cur[i]).len() == 3 && forall|k: int|
            0 <= k < 3 ==> -1 <= #[trigger] cur[i][k] <= 1 by {
            if i < prev.len() {
                assert(cur[i] == prev[i]);
            } else {
                assert(cur[i] == c);
            }
        }
    }
}

/// The vector with the coordinates of a location along the basis axes is
/// the sticker vector.
proof fn lemma_sticker_vector(g: int, c: Seq<int>, v: Vec4)
    requires
        0 <= g < 8,
        c.len() == 3,
        forall|k: int| 0 <= k < 3 ==> -1 <= #[trigger] c[k] <= 1,
        forall|a: int|
            0 <= a < 4 ==> #[trigger] component(v, a) == (if a == basis_axes(g)[0] {
                c[0]
            } else if a == basis_axes(g)[1] {
                c[1]
            } else if a == basis_axes(g)[2] {
                c[2]
            } else {
                0
            }),
    ensures
        v == sticker_vector(g, c),
{
    let s = sticker_vector(g, c);
    assert forall|a: int| 0 <= a < 4 implies component(v, a) == component(s, a) by {
        assert(component(v, a) == (if a == basis_axes(g)[0] {
            c[0]
        } else if a == basis_axes(g)[1] {
            c[1]
        } else if a == basis_axes(g)[2] {
            c[2]
        } else {
            0
        }));
    }
    lemma_vec4_ext(v, s);
}

} // verus!
