use vstd::prelude::*;

use std::ops::Not;

use crate::bits::{
    bit32, lemma_bit32_all, lemma_bit32_eq,
    bit16, lemma_bit16_all, lemma_bit16_eq, lemma_bit16_low12, lemma_bit16_ops_4096, lemma_bit16_zero,
};
use crate::sim::common::{Axis, AxisSet, Elem, Grip, GripSet, Piece};
use crate::sim::common::axes;
use crate::sim::common::elements::{self, fixes_plane};
use vstd::std_specs::bits::{axiom_u16_trailing_zeros, u16_trailing_zeros};

verus! {

/// Whether a layer mask holds layer `k` (0 = positive, 1 = middle, 2 =
/// negative) on axis `a`.
pub open spec fn lay(l: u16, a: int, k: int) -> bool {
    bit16(l, (a + 4 * k) as u16)
}

/// Layer (0 = positive, 2 = negative) of grip `g` on its axis.
pub open spec fn grip_layer(g: int) -> int {
    2 * (g % 2)
}

/// Whether a layer mask has an outer (positive or negative) layer on axis `a`.
pub open spec fn has_outer(l: u16, a: int) -> bool {
    lay(l, a, 0) || lay(l, a, 2)
}

/// `1` if `b`, else `0`.
pub open spec fn one_if(b: bool) -> int {
    if b {
        1
    } else {
        0
    }
}

/// Number of axes with a middle layer.
pub open spec fn middle_count(l: u16) -> int {
    one_if(lay(l, 0, 1)) + one_if(lay(l, 1, 1)) + one_if(lay(l, 2, 1)) + one_if(lay(l, 3, 1))
}

/// Number of axes with an outer layer.
pub open spec fn outer_count(l: u16) -> int {
    one_if(has_outer(l, 0)) + one_if(has_outer(l, 1)) + one_if(has_outer(l, 2)) + one_if(
        has_outer(l, 3),
    )
}

/// Whether grip `g` is active on a layer mask: its axis holds exactly the
/// grip's own layer.
pub open spec fn grip_active(l: u16, g: int) -> bool {
    let a = g / 2;
    let k = grip_layer(g);
    lay(l, a, k) && !lay(l, a, 1) && !lay(l, a, 2 - k)
}

/// Number of layers on axis `a`.
pub open spec fn layer_count(l: u16, a: int) -> int {
    one_if(lay(l, a, 0)) + one_if(lay(l, a, 1)) + one_if(lay(l, a, 2))
}

/// Number of pieces of a block with layers `l`: the product of its layer
/// counts on the four axes.
pub open spec fn layers_pieces(l: u16) -> int {
    layer_count(l, 0) * layer_count(l, 1) * layer_count(l, 2) * layer_count(l, 3)
}

/// Number of layers of `l` on axis `b` that a split on axis `a` keeps in the
/// part of layer `k` (`with_k`) or in the part of the other layers.
pub open spec fn kept_count(l: u16, b: int, a: int, k: int, with_k: bool) -> int {
    one_if(lay(l, b, 0) && (b != a || (0 == k) == with_k)) + one_if(lay(l, b, 1) && (b != a || (1 == k) == with_k))
        + one_if(lay(l, b, 2) && (b != a || (2 == k) == with_k))
}

/// A part of a split has, on each axis, the layers that the split keeps in
/// it, or none when it is empty.
proof fn lemma_part_counts(l: u16, lp: u16, a: int, k: int, with_k: bool)
    requires
        lp == 0 || forall|b: int, j: int|
            0 <= b < 4 && 0 <= j < 3 ==> #[trigger] lay(lp, b, j) == (lay(l, b, j) && (b != a || (j == k) == with_k)),
    ensures
        layers_pieces(lp) == if lp == 0 {
            0
        } else {
            kept_count(l, 0, a, k, with_k) * kept_count(l, 1, a, k, with_k) * kept_count(l, 2, a, k, with_k)
                * kept_count(l, 3, a, k, with_k)
        },
{
    if lp == 0 {
        lemma_bit16_zero(0);
        assert(!lay(0, 0, 0) && !lay(0, 0, 1) && !lay(0, 0, 2));
        assert(layer_count(0, 0) == 0);
        let (y1, y2, y3) = (layer_count(0, 1), layer_count(0, 2), layer_count(0, 3));
        assert(0 * y1 * y2 * y3 == 0) by (nonlinear_arith);
    } else {
        assert(lay(lp, 0, 0) == (lay(l, 0, 0) && (0 != a || (0 == k) == with_k)));
        assert(lay(lp, 0, 1) == (lay(l, 0, 1) && (0 != a || (1 == k) == with_k)));
        assert(lay(lp, 0, 2) == (lay(l, 0, 2) && (0 != a || (2 == k) == with_k)));
        assert(lay(lp, 1, 0) == (lay(l, 1, 0) && (1 != a || (0 == k) == with_k)));
        assert(lay(lp, 1, 1) == (lay(l, 1, 1) && (1 != a || (1 == k) == with_k)));
        assert(lay(lp, 1, 2) == (lay(l, 1, 2) && (1 != a || (2 == k) == with_k)));
        assert(lay(lp, 2, 0) == (lay(l, 2, 0) && (2 != a || (0 == k) == with_k)));
        assert(lay(lp, 2, 1) == (lay(l, 2, 1) && (2 != a || (1 == k) == with_k)));
        assert(lay(lp, 2, 2) == (lay(l, 2, 2) && (2 != a || (2 == k) == with_k)));
        assert(lay(lp, 3, 0) == (lay(l, 3, 0) && (3 != a || (0 == k) == with_k)));
        assert(lay(lp, 3, 1) == (lay(l, 3, 1) && (3 != a || (1 == k) == with_k)));
        assert(lay(lp, 3, 2) == (lay(l, 3, 2) && (3 != a || (2 == k) == with_k)));
    }
}

/// The pieces of the two parts of a split, counted from the layers each part
/// keeps, add up to those of the whole.
proof fn lemma_kept_product(l: u16, a: int, k: int)
    requires
        0 <= a < 4,
        k == 0 || k == 2,
    ensures
        kept_count(l, 0, a, k, true) * kept_count(l, 1, a, k, true) * kept_count(l, 2, a, k, true) * kept_count(
            l,
            3,
            a,
            k,
            true,
        ) + kept_count(l, 0, a, k, false) * kept_count(l, 1, a, k, false) * kept_count(l, 2, a, k, false)
            * kept_count(l, 3, a, k, false) == layers_pieces(l),
{
    let x0 = layer_count(l, 0);
    let x1 = layer_count(l, 1);
    let x2 = layer_count(l, 2);
    let x3 = layer_count(l, 3);
    let p0 = kept_count(l, 0, a, k, true);
    let p1 = kept_count(l, 1, a, k, true);
    let p2 = kept_count(l, 2, a, k, true);
    let p3 = kept_count(l, 3, a, k, true);
    let q0 = kept_count(l, 0, a, k, false);
    let q1 = kept_count(l, 1, a, k, false);
    let q2 = kept_count(l, 2, a, k, false);
    let q3 = kept_count(l, 3, a, k, false);
    assert(a != 0 ==> p0 == x0 && q0 == x0);
    assert(a != 1 ==> p1 == x1 && q1 == x1);
    assert(a != 2 ==> p2 == x2 && q2 == x2);
    assert(a != 3 ==> p3 == x3 && q3 == x3);
    assert(a == 0 ==> p0 + q0 == x0);
    assert(a == 1 ==> p1 + q1 == x1);
    assert(a == 2 ==> p2 + q2 == x2);
    assert(a == 3 ==> p3 + q3 == x3);
    lemma_four_split(x0, x1, x2, x3, p0, p1, p2, p3, q0, q1, q2, q3, a);
}

/// Replacing one factor of a product of four by two parts that add up to it
/// splits the product alike.
proof fn lemma_four_split(
    x0: int,
    x1: int,
    x2: int,
    x3: int,
    p0: int,
    p1: int,
    p2: int,
    p3: int,
    q0: int,
    q1: int,
    q2: int,
    q3: int,
    a: int,
)
    requires
        0 <= a < 4,
        a != 0 ==> p0 == x0 && q0 == x0,
        a != 1 ==> p1 == x1 && q1 == x1,
        a != 2 ==> p2 == x2 && q2 == x2,
        a != 3 ==> p3 == x3 && q3 == x3,
        a == 0 ==> p0 + q0 == x0,
        a == 1 ==> p1 + q1 == x1,
        a == 2 ==> p2 + q2 == x2,
        a == 3 ==> p3 + q3 == x3,
    ensures
        p0 * p1 * p2 * p3 + q0 * q1 * q2 * q3 == x0 * x1 * x2 * x3,
{
    if a == 0 {
        assert(p0 * x1 * x2 * x3 + q0 * x1 * x2 * x3 == (p0 + q0) * x1 * x2 * x3) by (nonlinear_arith);
    } else if a == 1 {
        assert(x0 * p1 * x2 * x3 + x0 * q1 * x2 * x3 == x0 * (p1 + q1) * x2 * x3) by (nonlinear_arith);
    } else if a == 2 {
        assert(x0 * x1 * p2 * x3 + x0 * x1 * q2 * x3 == x0 * x1 * (p2 + q2) * x3) by (nonlinear_arith);
    } else {
        assert(x0 * x1 * x2 * p3 + x0 * x1 * x2 * q3 == x0 * x1 * x2 * (p3 + q3)) by (nonlinear_arith);
    }
}

/// A product of four factors is zero when one of them is.
proof fn lemma_zero_factor(y0: int, y1: int, y2: int, y3: int)
    requires
        y0 == 0 || y1 == 0 || y2 == 0 || y3 == 0,
    ensures
        y0 * y1 * y2 * y3 == 0,
{
    assert((y0 == 0 || y1 == 0 || y2 == 0 || y3 == 0) ==> y0 * y1 * y2 * y3 == 0) by (nonlinear_arith);
}

/// Splitting layers `l` on axis `a` into layer `k` and the other layers
/// splits the block's pieces: the two parts' counts add up to the whole.
pub proof fn lemma_split_pieces(l: u16, l0: u16, l1: u16, a: int, k: int)
    requires
        0 <= a < 4,
        k == 0 || k == 2,
        l0 == 0 || forall|b: int, j: int|
            0 <= b < 4 && 0 <= j < 3 ==> #[trigger] lay(l0, b, j) == (lay(l, b, j) && (b != a || j == k)),
        l0 == 0 <==> !lay(l, a, k),
        l1 == 0 || forall|b: int, j: int|
            0 <= b < 4 && 0 <= j < 3 ==> #[trigger] lay(l1, b, j) == (lay(l, b, j) && (b != a || j != k)),
        l1 == 0 <==> !(lay(l, a, 1) || lay(l, a, 2 - k)),
    ensures
        layers_pieces(l0) + layers_pieces(l1) == layers_pieces(l),
{
    if l0 != 0 {
        assert forall|b: int, j: int| 0 <= b < 4 && 0 <= j < 3 implies #[trigger] lay(l0, b, j) == (lay(l, b, j) && (
        b != a || (j == k) == true)) by {
            assert(lay(l0, b, j) == (lay(l, b, j) && (b != a || j == k)));
        }
    }
    if l1 != 0 {
        assert forall|b: int, j: int| 0 <= b < 4 && 0 <= j < 3 implies #[trigger] lay(l1, b, j) == (lay(l, b, j) && (
        b != a || (j == k) == false)) by {
            assert(lay(l1, b, j) == (lay(l, b, j) && (b != a || j != k)));
        }
    }
    lemma_part_counts(l, l0, a, k, true);
    lemma_part_counts(l, l1, a, k, false);
    lemma_kept_product(l, a, k);
    if l0 == 0 {
        assert(kept_count(l, a, a, k, true) == 0);
        lemma_zero_factor(kept_count(l, 0, a, k, true), kept_count(l, 1, a, k, true), kept_count(l, 2, a, k, true), kept_count(l, 3, a, k, true));
    }
    if l1 == 0 {
        assert(kept_count(l, a, a, k, false) == 0);
        lemma_zero_factor(kept_count(l, 0, a, k, false), kept_count(l, 1, a, k, false), kept_count(l, 2, a, k, false), kept_count(l, 3, a, k, false));
    }
}

/// Whether grip `grip` is inactive on block `b` where it is: the layer of
/// the grip that its attitude brings there is not in the block.
pub open spec fn grip_inactive(b: Block, grip: int) -> bool {
    let g = b.spec_attitude().inverse().grip_image(grip);
    !lay(b.spec_layers(), g / 2, grip_layer(g))
}

/// Inactivity moves with the block: turning the block by `e` makes the grip
/// that `e` sends `g` to inactive exactly when `g` was.
pub proof fn lemma_inactive_moves(b: Block, e: Elem, g: int)
    requires
        b.spec_attitude().spec_id() < 192,
        b.spec_layers() < 4096,
        e.spec_id() < 192,
        0 <= g < 8,
    ensures
        grip_inactive(Block::with(b.spec_layers(), e.product(b.spec_attitude())), e.grip_image(g)) == grip_inactive(b, g),
{
    let a = b.spec_attitude();
    let p = e.product(a);
    Elem::lemma_valid(e, a);
    Block::lemma_with(b.spec_layers(), p);
    Elem::lemma_valid(a, a);
    Elem::lemma_action(a.inverse(), a, g);
    let x = a.inverse().grip_image(g);
    Elem::lemma_action(a, a, g);
    Elem::lemma_action(e, a, x);
    Elem::lemma_action(p, p, x);
}

/// Whether two layer masks differ only on axis `m`, and there in the middle
/// layer (among others).
pub open spec fn differ_only_on(lb: u16, lh: u16, m: int) -> bool {
    &&& 0 <= m < 4
    &&& forall|a: int, k: int|
        0 <= a < 4 && 0 <= k < 3 && a != m ==> #[trigger] lay(lb, a, k) == lay(lh, a, k)
    &&& lay(lb, m, 1) != lay(lh, m, 1)
}

/// Whether the layers of two blocks allow merging them: they differ on
/// exactly one axis, and there in the middle layer (so that the merged block
/// is connected).
pub open spec fn layers_mergeable(lb: u16, lh: u16) -> bool {
    exists|m: int| differ_only_on(lb, lh, m)
}

/// Whether the attitudes of `body` and `head` allow merging them. Equal
/// attitudes always do. Otherwise it depends on the outer rank of the body:
/// a core (0) merges with any attitude; a center (1) merges when the head's
/// attitude fixes the center's axis; a ridge (2) merges when the relative
/// attitude fixes both of its axes; larger blocks need equal attitudes.
pub open spec fn attitudes_match(body: Block, head: Block) -> bool {
    let lb = body.spec_layers();
    let bo = body.spec_attitude();
    let ho = head.spec_attitude();
    let d = bo.inverse().product(ho);
    ||| bo == ho
    ||| outer_count(lb) == 0
    ||| outer_count(lb) == 1 && forall|a: int|
        0 <= a < 4 && has_outer(lb, a) ==> #[trigger] ho.grip_image(2 * a) == 2 * a
    ||| outer_count(lb) == 2 && forall|a: int|
        0 <= a < 4 && has_outer(lb, a) ==> #[trigger] d.grip_image(2 * a) == 2 * a
}

/// The result of merging `body` and `head`: their union with the head's
/// attitude when both layers and attitudes allow it, otherwise the empty
/// block.
pub open spec fn merged(body: Block, head: Block) -> Block {
    if layers_mergeable(body.spec_layers(), head.spec_layers()) && attitudes_match(body, head) {
        Block::with(body.spec_layers() | head.spec_layers(), head.spec_attitude())
    } else {
        Block::spec_empty()
    }
}

/// The checks on the difference of two layer masks decide whether they are
/// mergeable, and along which axis.
proof fn lemma_merge_layers(lb: u16, lh: u16)
    requires
        lb < 4096,
        lh < 4096,
    ensures
        ({
            let diff = lb ^ lh;
            let m = (u16_trailing_zeros(diff) % 4) as u16;
            &&& m < 4
            &&& (diff & !(0x111u16 << m) == 0 && diff & (0x010u16 << m) != 0) == layers_mergeable(lb, lh)
            &&& layers_mergeable(lb, lh) ==> differ_only_on(lb, lh, m as int)
        }),
{
    let diff = lb ^ lh;
    let t = u16_trailing_zeros(diff);
    let m = (t % 4) as u16;
    axiom_u16_trailing_zeros(diff);
    lemma_bit16_all();
    lemma_bit16_zero(lb);
    lemma_bit16_zero(lh);
    lemma_bit16_zero(diff);
    lemma_bit16_zero(diff & !(0x111u16 << m));
    lemma_bit16_zero(diff & (0x010u16 << m));
    assert(bit16(diff & (0x010u16 << m), (4 + m) as u16) == bit16(diff, (4 + m) as u16));
    if diff & !(0x111u16 << m) == 0 && diff & (0x010u16 << m) != 0 {
        assert forall|a: int, k: int| 0 <= a < 4 && 0 <= k < 3 && a != m implies #[trigger] lay(lb, a, k) == lay(lh, a, k) by {
            assert(!bit16(diff & !(0x111u16 << m), (a + 4 * k) as u16));
        }
        assert(differ_only_on(lb, lh, m as int));
    }
    if layers_mergeable(lb, lh) {
        let mm = choose|mm: int| differ_only_on(lb, lh, mm);
        assert(bit16(diff, (4 + mm) as u16));
        assert(diff != 0);
        assert(t < 16);
        assert(bit16(diff, t as u16));
        assert forall|i: u16| i < 16 && bit16(diff, i) implies i % 4 == mm && i < 12 by {
            if i < 12 {
                let a = i % 4;
                let k = i / 4;
                assert(lay(lb, a as int, k as int) != lay(lh, a as int, k as int));
            }
        }
        assert(m == mm);
        assert forall|i: u16| i < 16 implies !bit16(diff & !(0x111u16 << m), i) by {
        }
    }
}

/// Whether grip `g` is active on the head but neither active nor blocked on
/// the body: the grip along which an edge or corner head pairs with its body.
pub open spec fn pair_grip(lb: u16, lh: u16, g: int) -> bool {
    0 <= g < 8 && grip_active(lh, g) && !lay(lb, g / 2, grip_layer(g))
}

/// What [`Block::moves_needed_to_pair`] needs: when the body is an edge or a
/// corner and the layers can be merged, exactly one grip pairs the head with
/// the body.
pub open spec fn pairing_defined(body: Block, head: Block) -> bool {
    let lb = body.spec_layers();
    let lh = head.spec_layers();
    layers_mergeable(lb, lh) && outer_count(lb) >= 3 ==> exists|g: int|
        #[trigger] pair_grip(lb, lh, g) && forall|h: int| pair_grip(lb, lh, h) ==> h == g
}

/// Number of moves needed to pair `body` and `head`, or `None` if their
/// layers cannot be merged.
///
/// - A core pairs with a center at once.
/// - A center or ridge pairs with its head in one move, or two if the head's
///   attitude sends the merge axis to an axis of the body.
/// - An edge or corner pairs in one move if both attitudes send the pairing
///   grip to the same place; otherwise in two moves if some grip moves the
///   head without moving the body, and off the merge axis and the pairing
///   grip's place; otherwise in three.
pub open spec fn moves_to_pair(body: Block, head: Block) -> Option<int> {
    let lb = body.spec_layers();
    let lh = head.spec_layers();
    let bo = body.spec_attitude();
    let ho = head.spec_attitude();
    if !layers_mergeable(lb, lh) {
        None
    } else {
        let m = choose|m: int| differ_only_on(lb, lh, m);
        if outer_count(lb) == 0 {
            Some(0)
        } else if outer_count(lb) <= 2 {
            if has_outer(lb, ho.grip_image(2 * m) / 2) {
                Some(2)
            } else {
                Some(1)
            }
        } else {
            let g = choose|g: int| pair_grip(lb, lh, g);
            if bo.grip_image(g) == ho.grip_image(g) {
                Some(1)
            } else {
                let delta = ho.product(bo.inverse());
                if exists|h: int|
                    0 <= h < 8 && #[trigger] grip_active(lh, delta.inverse().grip_image(h)) && !lay(
                        lb,
                        h / 2,
                        grip_layer(h),
                    ) && h / 2 != m && h != delta.grip_image(g) {
                    Some(2)
                } else {
                    Some(3)
                }
            }
        }
    }
}

/// A center or ridge body pairs with a head in one move when the head's
/// attitude keeps the merge axis in place and the body has no outer layer on
/// it; and in two when the head's attitude sends the merge axis onto an axis
/// where the body has an outer layer.
pub proof fn lemma_center_ridge_pairing(body: Block, head: Block, m: int)
    requires
        1 <= outer_count(body.spec_layers()) <= 2,
        differ_only_on(body.spec_layers(), head.spec_layers(), m),
    ensures
        !has_outer(body.spec_layers(), m) && head.spec_attitude().grip_image(2 * m) / 2 == m ==> moves_to_pair(
            body,
            head,
        ) == Some(1int),
        has_outer(body.spec_layers(), head.spec_attitude().grip_image(2 * m) / 2) ==> moves_to_pair(body, head)
            == Some(2int),
{
    let lb = body.spec_layers();
    let lh = head.spec_layers();
    assert(layers_mergeable(lb, lh));
    let mm = choose|mm: int| differ_only_on(lb, lh, mm);
    assert(differ_only_on(lb, lh, mm));
    if mm != m {
        assert(lay(lb, mm, 1) == lay(lh, mm, 1));
    }
    assert(mm == m);
}

/// Blocks whose layers cannot merge never pair; a core pairs at once; an
/// edge or corner body pairs in one move with a head of the same attitude.
pub proof fn lemma_pairing_counts(body: Block, head: Block)
    ensures
        !layers_mergeable(body.spec_layers(), head.spec_layers()) ==> moves_to_pair(body, head) is None,
        layers_mergeable(body.spec_layers(), head.spec_layers()) && outer_count(body.spec_layers()) == 0
            ==> moves_to_pair(body, head) == Some(0int),
        layers_mergeable(body.spec_layers(), head.spec_layers()) && outer_count(body.spec_layers()) >= 3
            && body.spec_attitude() == head.spec_attitude() ==> moves_to_pair(body, head) == Some(1int),
{
}

/// Layer bits for all layers of an axis.
pub open spec fn axis_mask(a: int) -> u16 {
    0x111u16 << (a as u16)
}

/// Layer bit for the layer of a grip.
pub open spec fn grip_bit(g: int) -> u16 {
    1u16 << ((g / 2 + 4 * grip_layer(g)) as u16)
}

/// The layer mask `l` expanded by the grips among the first `n` in `s`, in
/// order: a grip whose opposite layer is present brings the whole axis
/// (middle layer included), any other grip brings its own layer.
pub open spec fn expanded(l: u16, s: GripSet, n: nat) -> u16
    decreases n,
{
    if n == 0 {
        l
    } else {
        let x = expanded(l, s, (n - 1) as nat);
        let g = n - 1;
        if s.has(g) {
            if lay(x, g / 2, 2 - grip_layer(g)) {
                x | axis_mask(g / 2)
            } else {
                x | grip_bit(g)
            }
        } else {
            x
        }
    }
}

/// A single layer bit on an axis is among that axis's bits.
proof fn lemma_layer_bit_in_axis(sh: u16, a: u16)
    by (bit_vector)
    requires
        a < 4,
        sh == a || sh == a + 8,
    ensures
        (1u16 << sh) & (0x111u16 << a) == (1u16 << sh),
        (1u16 << sh) < 4096,
        (0x111u16 << a) < 4096,
{
}

/// The layer of a grip lies on the grip's axis.
proof fn lemma_grip_bit_in_axis(g: int)
    requires
        0 <= g < 8,
    ensures
        grip_bit(g) & axis_mask(g / 2) == grip_bit(g),
        grip_bit(g) < 4096,
        axis_mask(g / 2) < 4096,
{
    let a16 = (g / 2) as u16;
    let sh = (g / 2 + 4 * grip_layer(g)) as u16;
    assert(sh == a16 || sh == a16 + 8);
    lemma_layer_bit_in_axis(sh, a16);
}

/// Bit facts for one step of expanding two layer masks, the first within
/// the second.
proof fn lemma_expand_step_bits(x: u16, y: u16, am: u16, gb: u16, o: u16)
    by (bit_vector)
    requires
        x & y == x,
        gb & am == gb,
        x < 4096,
        y < 4096,
        am < 4096,
        gb < 4096,
        o < 16,
    ensures
        (x | am) < 4096,
        (x | gb) < 4096,
        (y | am) < 4096,
        (y | gb) < 4096,
        bit16(x, o) ==> bit16(y, o),
        (x | am) & (y | am) == (x | am),
        (x | gb) & (y | am) == (x | gb),
        (x | gb) & (y | gb) == (x | gb),
        x & (y | am) == x,
        x & (y | gb) == x,
{
}

/// A mask within another has only layers of the other, and is not empty
/// unless the other is.
pub proof fn lemma_sub_mask(x: u16, y: u16)
    by (bit_vector)
    requires
        x & y == x,
    ensures
        x != 0 ==> y != 0,
        forall|i: u16| i < 16 && #[trigger] bit16(x, i) ==> bit16(y, i),
{
}

/// A mask is within itself.
proof fn lemma_and_self(x: u16)
    by (bit_vector)
    ensures
        x & x == x,
{
}

/// Expanding a layer mask by more grips gives at least the same layers, and
/// stays within the twelve layer bits.
pub proof fn lemma_expanded_mono(l: u16, s: GripSet, t: GripSet, n: nat)
    requires
        n <= 8,
        l < 4096,
        forall|g: int| 0 <= g < 8 && #[trigger] s.has(g) ==> t.has(g),
    ensures
        expanded(l, s, n) & expanded(l, t, n) == expanded(l, s, n),
        expanded(l, s, n) < 4096,
        expanded(l, t, n) < 4096,
    decreases n,
{
    if n == 0 {
        lemma_and_self(l);
    } else {
        lemma_expanded_mono(l, s, t, (n - 1) as nat);
        let x = expanded(l, s, (n - 1) as nat);
        let y = expanded(l, t, (n - 1) as nat);
        let g = n - 1;
        let o = (g / 2 + 4 * (2 - grip_layer(g))) as u16;
        lemma_grip_bit_in_axis(g);
        assert(o < 16);
        assert(lay(x, g / 2, 2 - grip_layer(g)) == bit16(x, o));
        assert(lay(y, g / 2, 2 - grip_layer(g)) == bit16(y, o));
        lemma_expand_step_bits(x, y, axis_mask(g / 2), grip_bit(g), o);
        if s.has(g) {
            assert(t.has(g));
        }
    }
}

/// Whether layer mask `l` is the block of the single piece with active grips
/// `s` when solved: on each axis, the layers of the grips in `s`, or the
/// middle layer if neither grip of the axis is in `s`.
pub open spec fn piece_layers(l: u16, s: GripSet) -> bool {
    forall|a: int|
        0 <= a < 4 ==> (#[trigger] lay(l, a, 0) == s.has(2 * a) && lay(l, a, 2) == s.has(2 * a + 1)
            && lay(l, a, 1) == !(s.has(2 * a) || s.has(2 * a + 1)))
}

/// Block of pieces on a 3x3x3x3 puzzle.
///
/// Bits are assigned as follows:
///
/// - 0..12 = layers when solved (bit `a + 4 * k` is layer `k` on axis `a`,
///   with layer 0 positive, 1 middle and 2 negative)
/// - 12..16 = unused
/// - 16..24 = attitude
/// - 24..32 = unused
///
/// Only the attitude changes when moving a block around the puzzle.
#[derive(Debug, Default, Copy, Clone, PartialEq, Eq, Hash, PartialOrd, Ord, Structural)]
pub struct Block(pub(crate) u32);

/// Packing and unpacking the fields of a block.
proof fn lemma_pack(l: u32, att: u32, x: u32)
    by (bit_vector)
    requires
        l < 4096,
        att < 256,
    ensures
        (l | (att << 16u32)) == l + 65536 * att,
        x & 0xFFFu32 == x % 4096,
        (x >> 16u32) & 0xFFu32 == (x / 65536) % 256,
{
}

/// Arithmetic of packing a layer mask and an attitude ID into a word.
proof fn lemma_with_arith(l: int, a: int)
    by (nonlinear_arith)
    requires
        0 <= l < 4096,
        0 <= a < 192,
    ensures
        (l + 65536 * a) % 4096 == l,
        (l + 65536 * a) % 65536 == l,
        (l + 65536 * a) / 65536 == a,
        0 <= l + 65536 * a < 0x1000000,
{
}

broadcast use Elem::lemma_with_id;

impl Block {
    #[verifier::type_invariant]
    spec fn wf(self) -> bool {
        self.0 % 65536 < 4096 && self.0 / 65536 < 192
    }

    /// The layer mask of the block when solved.
    pub closed spec fn spec_layers(self) -> u16 {
        (self.0 % 4096) as u16
    }

    /// The ID of the attitude of the block.
    pub closed spec fn spec_att(self) -> u8 {
        (self.0 / 65536) as u8
    }

    /// The attitude of the block.
    pub closed spec fn spec_attitude(self) -> Elem {
        Elem::with_id(self.spec_att())
    }

    /// The block with the given layers and attitude.
    pub closed spec fn with(l: u16, att: Elem) -> Block {
        Block((l + 65536 * att.spec_id()) as u32)
    }

    /// Whether the block holds layer `k` on axis `a`.
    pub open spec fn has_layer(self, a: int, k: int) -> bool {
        lay(self.spec_layers(), a, k)
    }

    /// The empty block.
    pub open spec fn spec_empty() -> Block {
        Block::with(0, Elem::with_id(0))
    }

    /// Reading back the fields of a block built from layers and an attitude.
    pub proof fn lemma_with(l: u16, att: Elem)
        requires
            l < 4096,
            att.spec_id() < 192,
        ensures
            Block::with(l, att).spec_layers() == l,
            Block::with(l, att).spec_attitude() == att,
            Block::with(l, att).spec_att() == att.spec_id(),
    {
        lemma_with_arith(l as int, att.spec_id() as int);
        Elem::lemma_id_eq(Block::with(l, att).spec_attitude(), att);
    }

    /// A block's layers are among the twelve layer bits.
    pub proof fn lemma_layers_range(self)
        ensures
            self.spec_layers() < 4096,
    {
    }

    /// A block is determined by its layers and attitude.
    proof fn lemma_fields(self)
        requires
            self.wf(),
        ensures
            self == Block::with(self.spec_layers(), self.spec_attitude()),
            self.spec_layers() < 4096,
            self.spec_attitude().spec_id() < 192,
    {
        lemma_with_arith((self.0 % 4096) as int, (self.0 / 65536) as int);
        Elem::lemma_id_eq(self.spec_attitude(), Elem::with_id(self.spec_att()));
    }

    fn pack(l: u16, att: Elem) -> (b: Block)
        requires
            l < 4096,
        ensures
            b == Block::with(l, att),
    {
        let a = att.id();
        proof {
            lemma_pack(l as u32, a as u32, 0);
            lemma_with_arith(l as int, a as int);
        }
        Block((l as u32) | ((a as u32) << 16u32))
    }

    /// Empty block
    pub fn empty() -> (b: Block)
        ensures
            b == Block::spec_empty(),
            b.spec_layers() == 0,
    {
        proof {
            Block::lemma_with(0, Elem::with_id(0));
        }
        Block(0)
    }

    /// Block containing only the core
    pub fn core_block() -> (b: Block)
        ensures
            b == Block::with(0x0F0, Elem::with_id(0)),
    {
        Block(0x0F0)
    }

    /// Returns whether the block is empty.
    pub fn is_empty(self) -> (r: bool)
        ensures
            r == (self == Block::spec_empty()),
    {
        self.0 == 0
    }

    /// Constructs a block with solved attitude from layer bits.
    pub fn from_layer_bits(layer_bits: u16) -> (b: Block)
        requires
            layer_bits < 4096,
        ensures
            b == Block::with(layer_bits, Elem::with_id(0)),
    {
        Block(layer_bits as u32)
    }

    /// Constructs a block from its raw bits, which must describe a block.
    pub fn from_bits_unchecked(bits: u32) -> (b: Block)
        requires
            bits % 65536 < 4096,
            bits / 65536 < 192,
        ensures
            b.spec_layers() == bits % 4096,
            b.spec_att() == bits / 65536,
    {
        Block(bits)
    }

    /// Returns the layer mask of the block when solved.
    pub fn layer_bits(self) -> (l: u16)
        ensures
            l == self.spec_layers(),
            l < 4096,
    {
        proof {
            use_type_invariant(self);
            lemma_pack(0, 0, self.0);
        }
        (self.0 & 0xFFF) as u16
    }

    /// Layer bits of an axis: bit 0 for the positive layer, bit 4 for the
    /// middle layer, bit 8 for the negative layer.
    pub fn layer_bits_for_axis(self, ax: Axis) -> (r: u32)
        ensures
            r == ((self.spec_layers() as u32) >> (ax.spec_id() as u32)) & 0x111u32,
    {
        ((self.layer_bits() as u32) >> (ax.id() as u32)) & 0x111
    }

    /// Layer bits seen from a grip: bit 0 for the grip's layer, bit 4 for the
    /// middle layer, bit 8 for the opposite layer.
    pub fn layer_bits_for_grip(self, g: Grip) -> (r: u32)
        ensures
            g.spec_id() % 2 == 0 ==> r == ((self.spec_layers() as u32) >> ((g.spec_id() / 2) as u32)) & 0x111u32,
            g.spec_id() % 2 == 1 ==> forall|i: u32|
                i < 32 ==> bit32(r, i) == (i < 9 && bit32(
                    ((self.spec_layers() as u32) >> ((g.spec_id() / 2) as u32)) & 0x111u32,
                    (8 - i) as u32,
                )),
    {
        let axis_bits = self.layer_bits_for_axis(g.axis());
        if g.is_pos() {
            axis_bits
        } else {
            rev9(axis_bits)
        }
    }

    /// Returns the attitude of the block.
    pub fn attitude(self) -> (e: Elem)
        ensures
            e == self.spec_attitude(),
    {
        proof {
            use_type_invariant(self);
            lemma_pack(0, 0, self.0);
        }
        Elem::new(((self.0 >> 16u32) & 0xFF) as u8)
    }

    /// Returns the same block with a different attitude.
    pub fn with_attitude(self, attitude: Elem) -> (b: Block)
        ensures
            b == Block::with(self.spec_layers(), attitude),
    {
        Block::pack(self.layer_bits(), attitude)
    }

    /// Returns the same block with identity attitude.
    pub fn at_solved(self) -> (b: Block)
        ensures
            b == Block::with(self.spec_layers(), Elem::with_id(0)),
    {
        self.with_attitude(Elem::ident())
    }

    /// Returns the inverse of the attitude of the block.
    fn inv_attitude(self) -> (e: Elem)
        ensures
            e == self.spec_attitude().inverse(),
    {
        self.attitude().inv()
    }

    /// Returns the inner rank of the block, which is the number of stickers on
    /// the innermost piece. This is in the range `0..=4`.
    pub fn inner_rank(self) -> (r: u8)
        ensures
            r == 4 - middle_count(self.spec_layers()),
            r <= 4,
    {
        let l = self.layer_bits();
        let mut m: u8 = 0;
        if lay_exec(l, 0, 1) {
            m = m + 1;
        }
        if lay_exec(l, 1, 1) {
            m = m + 1;
        }
        if lay_exec(l, 2, 1) {
            m = m + 1;
        }
        if lay_exec(l, 3, 1) {
            m = m + 1;
        }
        4 - m
    }

    /// Returns the outer rank of the block, which is the number of stickers on
    /// the outermost piece. This is in the range `0..=4`.
    pub fn outer_rank(self) -> (r: u8)
        ensures
            r == outer_count(self.spec_layers()),
            r <= 4,
    {
        let l = self.layer_bits();
        let mut n: u8 = 0;
        let mut a: u16 = 0;
        while a < 4
            invariant
                a <= 4,
                l == self.spec_layers(),
                n == (if a > 0 { one_if(has_outer(l, 0)) } else { 0 }) + (if a > 1 { one_if(has_outer(l, 1)) } else { 0 })
                    + (if a > 2 { one_if(has_outer(l, 2)) } else { 0 }) + (if a > 3 { one_if(has_outer(l, 3)) } else { 0 }),
            decreases 4 - a,
        {
            if lay_exec(l, a, 0) || lay_exec(l, a, 2) {
                n = n + 1;
            }
            a = a + 1;
        }
        n
    }

    /// Splits the block along the grip and returns two new blocks `[active,
    /// inactive]`.
    ///
    /// - `active` is the block that would be affected by the twist.
    /// - `inactive` is the block that would **not** be affected by the twist.
    ///
    /// Either block may be empty. The pieces of the two add up to those of
    /// the block. For a block with layers on every axis, at most one part is
    /// empty and the other is then the whole block; at the solved attitude,
    /// the grip is one of `active_grips` exactly when the whole block is the
    /// active part.
    #[verifier::spinoff_prover]
    #[verifier::rlimit(40)]
    pub fn split(self, grip: Grip) -> (r: [Block; 2])
        ensures
            ({
                let l = self.spec_layers();
                let g = self.spec_attitude().inverse().grip_image(grip.spec_id() as int);
                let a = g / 2;
                let k = grip_layer(g);
                &&& (r[0] == Block::spec_empty()) == !lay(l, a, k)
                &&& lay(l, a, k) ==> r[0].spec_attitude() == self.spec_attitude() && forall|b: int, j: int|
                    0 <= b < 4 && 0 <= j < 3 ==> #[trigger] lay(r[0].spec_layers(), b, j) == (lay(l, b, j) && (b != a || j == k))
                &&& (r[1] == Block::spec_empty()) == !(lay(l, a, 1) || lay(l, a, 2 - k))
                &&& (lay(l, a, 1) || lay(l, a, 2 - k)) ==> r[1].spec_attitude() == self.spec_attitude() && forall|b: int, j: int|
                    0 <= b < 4 && 0 <= j < 3 ==> #[trigger] lay(r[1].spec_layers(), b, j) == (lay(l, b, j) && (b != a || j != k))
            }),
            layers_pieces(r[0].spec_layers()) + layers_pieces(r[1].spec_layers()) == layers_pieces(self.spec_layers()),
            (forall|b: int| 0 <= b < 4 ==> #[trigger] layer_count(self.spec_layers(), b) > 0) ==> {
                &&& !(r[0] == Block::spec_empty() && r[1] == Block::spec_empty())
                &&& r[0] == Block::spec_empty() ==> r[1] == self
                &&& r[1] == Block::spec_empty() ==> r[0] == self
            },
            (self.spec_attitude().spec_id() == 0 && forall|b: int| 0 <= b < 4 ==> #[trigger] layer_count(self.spec_layers(), b) > 0)
                ==> ((r[0] == self && r[1] == Block::spec_empty()) == grip_active(self.spec_layers(), grip.spec_id() as int)),
    {
        let att = self.attitude();
        let _ = att.id();
        let _ = grip.id();
        let g = self.inv_attitude() * grip;
        let gid = g.id();
        let l = self.layer_bits();
        let a = g.axis().id() as u16;
        let s = g.sign_bit() as u16;
        let axis_mask: u16 = 0x111u16 << a;
        let grip_mask: u16 = 1u16 << (a + 8 * s);
        let active_bits = l & (grip_mask | !axis_mask);
        let inactive_bits = l & !grip_mask;
        let ghost k = grip_layer(gid as int);
        proof {
            lemma_bit16_all();
            lemma_bit16_zero(l);
            lemma_bit16_zero(l & grip_mask);
            lemma_bit16_zero(l & axis_mask & !grip_mask);
            lemma_bit16_zero(active_bits);
            lemma_bit16_zero(inactive_bits);
            assert(a + 8 * s == a + 4 * k);
        }
        proof {
            assert(bit16(l & grip_mask, (a + 8 * s) as u16) == lay(l, a as int, k));
        }
        let active = if l & grip_mask == 0 {
            Block::empty()
        } else {
            proof {
                Block::lemma_with(active_bits, att);
                Block::lemma_with(0, Elem::with_id(0));
                assert(bit16(active_bits, (a + 8 * s) as u16));
                assert(active_bits != 0);
            }
            Block::pack(active_bits, att)
        };
        proof {
            assert(bit16(l & axis_mask & !grip_mask, (a + 4) as u16) == lay(l, a as int, 1));
            assert(bit16(l & axis_mask & !grip_mask, (a + 4 * (2 - k)) as u16) == lay(l, a as int, 2 - k));
            if l & axis_mask & !grip_mask != 0 {
                let i = choose|i: u16| i < 16 && bit16(l & axis_mask & !grip_mask, i);
                assert(i % 4 == a && i < 12);
                assert(i == a || i == a + 4 || i == a + 8);
            }
        }
        let inactive = if l & axis_mask & !grip_mask == 0 {
            Block::empty()
        } else {
            proof {
                Block::lemma_with(inactive_bits, att);
                Block::lemma_with(0, Elem::with_id(0));
                assert(!(l & axis_mask & !grip_mask == 0));
                let i = choose|i: u16| i < 16 && bit16(l & axis_mask & !grip_mask, i);
                assert(bit16(inactive_bits, i));
            }
            Block::pack(inactive_bits, att)
        };
        proof {
            let a_ = gid as int / 2;
            assert(a == a_);
            assert((active == Block::spec_empty()) == !lay(l, a_, k));
            assert(lay(l, a_, k) ==> active.spec_attitude() == self.spec_attitude());
            assert(lay(l, a_, k) ==> forall|b: int, j: int| 0 <= b < 4 && 0 <= j < 3 ==> #[trigger] lay(active.spec_layers(), b, j) == (lay(l, b, j) && (b != a_ || j == k)));
            assert((inactive == Block::spec_empty()) == !(lay(l, a_, 1) || lay(l, a_, 2 - k)));
            assert((lay(l, a_, 1) || lay(l, a_, 2 - k)) ==> inactive.spec_attitude() == self.spec_attitude());
            assert((lay(l, a_, 1) || lay(l, a_, 2 - k)) ==> forall|b: int, j: int| 0 <= b < 4 && 0 <= j < 3 ==> #[trigger] lay(inactive.spec_layers(), b, j) == (lay(l, b, j) && (b != a_ || j != k)));
            Block::lemma_with(0, Elem::with_id(0));
            lemma_split_pieces(l, active.spec_layers(), inactive.spec_layers(), a_, k);
            use_type_invariant(self);
            self.lemma_fields();
            if forall|b: int| 0 <= b < 4 ==> #[trigger] layer_count(l, b) > 0 {
                assert(layer_count(l, a_) > 0);
                if active == Block::spec_empty() {
                    assert(!lay(l, a_, k));
                    assert(lay(l, a_, 1) || lay(l, a_, 2 - k));
                    Block::lemma_with(inactive_bits, att);
                    assert forall|b: int, j: int| 0 <= b < 4 && 0 <= j < 3 implies #[trigger] lay(inactive_bits, b, j) == lay(l, b, j) by {
                        assert(lay(inactive.spec_layers(), b, j) == (lay(l, b, j) && (b != a_ || j != k)));
                    }
                    lemma_layers_eq(inactive_bits, l);
                }
                if inactive == Block::spec_empty() {
                    assert(lay(l, a_, k));
                    Block::lemma_with(active_bits, att);
                    assert forall|b: int, j: int| 0 <= b < 4 && 0 <= j < 3 implies #[trigger] lay(active_bits, b, j) == lay(l, b, j) by {
                        assert(lay(active.spec_layers(), b, j) == (lay(l, b, j) && (b != a_ || j == k)));
                        if b == a_ && j != k {
                            assert(j == 1 || j == 2 - k);
                        }
                    }
                    lemma_layers_eq(active_bits, l);
                }
                if self.spec_attitude().spec_id() == 0 {
                    Elem::lemma_ident_action(self.spec_attitude(), grip.spec_id() as int);
                    Elem::lemma_inverse_laws(self.spec_attitude());
                    assert(gid as int == grip.spec_id() as int);
                    if self == Block::spec_empty() {
                        assert(l == 0);
                        lemma_bit16_zero(0);
                        assert(!lay(l, a_, 0) && !lay(l, a_, 1) && !lay(l, a_, 2));
                    }
                }
            }
        }
        [active, inactive]
    }

    /// Returns whether `grip` is inactive on the block at its current location.
    pub fn is_grip_inactive(self, grip: Grip) -> (r: bool)
        ensures
            ({
                let g = self.spec_attitude().inverse().grip_image(grip.spec_id() as int);
                r == !lay(self.spec_layers(), g / 2, grip_layer(g))
            }),
            r == grip_inactive(self, grip.spec_id() as int),
    {
        let g = self.inv_attitude() * grip;
        let gid = g.id();
        lay_exec(self.layer_bits(), (gid / 2) as u16, (2 * (gid % 2)) as u16) == false
    }

    /// Returns the axes where the block has at least one sticker when solved
    /// (an outer layer).
    pub fn active_or_blocked_axes(self) -> (r: AxisSet)
        ensures
            forall|a: int| #[trigger] r.has(a) == (0 <= a < 4 && has_outer(self.spec_layers(), a)),
            r.count() == outer_count(self.spec_layers()),
    {
        let l = self.layer_bits();
        let mut r = AxisSet::empty();
        let mut a: u8 = 0;
        while a < 4
            invariant
                a <= 4,
                l == self.spec_layers(),
                forall|b: int| #[trigger] r.has(b) == (0 <= b < a && has_outer(l, b)),
            decreases 4 - a,
        {
            if lay_exec(l, a as u16, 0) || lay_exec(l, a as u16, 2) {
                r = r | AxisSet::from_axis(Axis::new(a));
            }
            a = a + 1;
        }
        proof {
            reveal_with_fuel(crate::bits::count8, 5);
            assert(r.has(0) == has_outer(l, 0));
            assert(r.has(1) == has_outer(l, 1));
            assert(r.has(2) == has_outer(l, 2));
            assert(r.has(3) == has_outer(l, 3));
        }
        r
    }

    /// Returns the grips that are active and not blocked on the block when
    /// solved.
    pub fn active_grips(self) -> (r: GripSet)
        ensures
            forall|g: int| #[trigger] r.has(g) == (0 <= g < 8 && grip_active(self.spec_layers(), g)),
    {
        let l = self.layer_bits();
        let mut r = GripSet::empty();
        let mut g: u8 = 0;
        while g < 8
            invariant
                g <= 8,
                l == self.spec_layers(),
                forall|h: int| #[trigger] r.has(h) == (0 <= h < g && grip_active(l, h)),
            decreases 8 - g,
        {
            let a = (g / 2) as u16;
            let k = (2 * (g % 2)) as u16;
            if lay_exec(l, a, k) && !lay_exec(l, a, 1) && !lay_exec(l, a, 2 - k) {
                r = r | GripSet::from_grip(Grip::new(g));
            }
            g = g + 1;
        }
        r
    }

    /// Returns the grips that are active or blocked on the block when solved.
    pub fn active_or_blocked_grips(self) -> (r: GripSet)
        ensures
            forall|g: int| #[trigger] r.has(g) == (0 <= g < 8 && lay(self.spec_layers(), g / 2, grip_layer(g))),
    {
        let l = self.layer_bits();
        let mut r = GripSet::empty();
        let mut g: u8 = 0;
        while g < 8
            invariant
                g <= 8,
                l == self.spec_layers(),
                forall|h: int| #[trigger] r.has(h) == (0 <= h < g && lay(l, h / 2, grip_layer(h))),
            decreases 8 - g,
        {
            if lay_exec(l, (g / 2) as u16, (2 * (g % 2)) as u16) {
                r = r | GripSet::from_grip(Grip::new(g));
            }
            g = g + 1;
        }
        r
    }

    /// Returns the grips active when solved.
    pub fn current_active_grips(self) -> (r: GripSet)
        ensures
            forall|g: int| #[trigger] r.has(g) == (0 <= g < 8 && grip_active(self.spec_layers(), g)),
    {
        self.active_grips()
    }

    /// Returns the grips active when solved, moved by the block's attitude:
    /// the grips active on the block where it is.
    fn placed_active_grips(self) -> (r: GripSet)
        ensures
            forall|g: int| 0 <= g < 8 ==> #[trigger] r.has(self.spec_attitude().grip_image(g))
                == grip_active(self.spec_layers(), g),
    {
        self.attitude() * self.active_grips()
    }

    /// Returns the number of pieces in the block.
    pub fn piece_count(self) -> (r: u32)
        ensures
            r == layer_count(self.spec_layers(), 0) * layer_count(self.spec_layers(), 1)
                * layer_count(self.spec_layers(), 2) * layer_count(self.spec_layers(), 3),
    {
        let l = self.layer_bits();
        let mut r: u32 = 1;
        let mut a: u16 = 0;
        while a < 4
            invariant
                a <= 4,
                l == self.spec_layers(),
                r == (if a > 0 { layer_count(l, 0) } else { 1 }) * (if a > 1 { layer_count(l, 1) } else { 1 })
                    * (if a > 2 { layer_count(l, 2) } else { 1 }) * (if a > 3 { layer_count(l, 3) } else { 1 }),
                r <= (if a == 0 { 1int } else if a == 1 { 3 } else if a == 2 { 9 } else if a == 3 { 27 } else { 81 }),
            decreases 4 - a,
        {
            let mut n: u32 = 0;
            if lay_exec(l, a, 0) {
                n = n + 1;
            }
            if lay_exec(l, a, 1) {
                n = n + 1;
            }
            if lay_exec(l, a, 2) {
                n = n + 1;
            }
            assert(n == layer_count(l, a as int));
            let ghost bound: int = if a == 0 { 1int } else if a == 1 { 3 } else if a == 2 { 9 } else { 27 };
            assert(r * n <= bound * 3) by (nonlinear_arith)
                requires
                    r <= bound,
                    n <= 3,
            ;
            r = r * n;
            a = a + 1;
        }
        r
    }

    /// Returns the key for sorting blocks with a radix sort, in the range
    /// `0..81`: per axis, 2 with a middle layer, 1 with only the positive
    /// layer and the negative one, 0 with the negative layer alone, combined
    /// in base 3 with X lowest.
    pub fn radix_sort_key(self) -> (r: u8)
        ensures
            r == radix_digit(self.spec_layers(), 0) + 3 * radix_digit(self.spec_layers(), 1) + 9
                * radix_digit(self.spec_layers(), 2) + 27 * radix_digit(self.spec_layers(), 3),
    {
        let l = self.layer_bits();
        radix_digit_exec(l, 0) + 3 * radix_digit_exec(l, 1) + 9 * radix_digit_exec(l, 2) + 27
            * radix_digit_exec(l, 3)
    }

    /// Merges two blocks. Returns the empty block if the blocks cannot be
    /// merged.
    pub fn merge(body: Block, head: Block) -> (r: Block)
        ensures
            r == merged(body, head),
    {
        let lb = body.layer_bits();
        let lh = head.layer_bits();
        proof {
            lemma_merge_layers(lb, lh);
        }

        // Check layers
        let diff = lb ^ lh;
        let merge_axis = (diff.trailing_zeros() % 4) as u16;
        if diff & !(0x111u16 << merge_axis) != 0 {
            return Block::empty();  // differ along multiple axes
        }
        if diff & (0x010u16 << merge_axis) == 0 {
            return Block::empty();  // disconnected blocks not allowed
        }

        // Check attitudes
        let attitude_matches = attitudes_match_exec(body, head);
        let ho = head.attitude();
        if !attitude_matches {
            return Block::empty();
        }
        proof {
            lemma_bit16_ops_4096(lb, lh);
        }
        Block::pack(lb | lh, ho)
    }

    /// Returns the number of moves needed to pair `body` and `head`, or `None`
    /// if they cannot be paired.
    pub fn moves_needed_to_pair(body: Block, head: Block) -> (r: Option<usize>)
        requires
            pairing_defined(body, head),
        ensures
            r matches Some(n) ==> moves_to_pair(body, head) == Some(n as int),
            r is None ==> moves_to_pair(body, head) is None,
    {
        let lb = body.layer_bits();
        let lh = head.layer_bits();
        proof {
            lemma_merge_layers(lb, lh);
            lemma_bit16_all();
            lemma_bit16_zero(lb | lh);
            lemma_bit16_ops_4096(lb, lh);
            Block::lemma_with(lb | lh, Elem::with_id(0));
            Block::lemma_with(0, Elem::with_id(0));
            Block::lemma_with(lb, Elem::with_id(0));
            Block::lemma_with(lh, Elem::with_id(0));
            if layers_mergeable(lb, lh) {
                let mm = choose|mm: int| differ_only_on(lb, lh, mm);
                assert(bit16(lb | lh, (4 + mm) as u16));
            }
        }
        let bs = body.at_solved();
        let hs = head.at_solved();
        let merged_at_solved = Block::merge(bs, hs);
        proof {
            assert(bs.spec_layers() == lb);
            assert(hs.spec_layers() == lh);
            assert(bs.spec_attitude() == hs.spec_attitude());
            assert(attitudes_match(bs, hs));
            if layers_mergeable(lb, lh) {
                assert(merged_at_solved == Block::with(lb | lh, Elem::with_id(0)));
                assert(merged_at_solved.spec_layers() == lb | lh);
                assert(lb | lh != 0);
                assert(merged_at_solved != Block::spec_empty());
            }
        }
        if merged_at_solved.is_empty() {
            return None;
        }
        let diff = lb ^ lh;
        let m = (diff.trailing_zeros() % 4) as u8;
        let merge_axis = Axis::new(m);
        proof {
            let mm = choose|mm: int| differ_only_on(lb, lh, mm);
            if mm != m {
                assert(lay(lb, mm, 1) == lay(lh, mm, 1));
            }
        }
        let rank = body.outer_rank();
        let ghost mm = choose|mm: int| differ_only_on(lb, lh, mm);
        assert(mm == m);
        if rank == 0 {
            // core + center always pair instantly
            assert(moves_to_pair(body, head) == Some(0int));
            Some(0)
        } else if rank <= 2 {
            // center + ridge, or ridge + edge
            let image = head.attitude() * merge_axis;
            let _ = image.id();
            let c = body.active_or_blocked_axes().contains(image);
            assert(image.spec_id() == head.spec_attitude().grip_image(2 * mm) / 2);
            assert(c == has_outer(lb, head.spec_attitude().grip_image(2 * mm) / 2));
            if c {
                assert(moves_to_pair(body, head) == Some(2int));
                Some(2)
            } else {
                assert(moves_to_pair(body, head) == Some(1int));
                Some(1)
            }
        } else {
            // edge + corner or corner + corner
            let candidates = head.active_grips() & body.active_or_blocked_grips().not();
            proof {
                let g0 = choose|g: int| #[trigger] pair_grip(lb, lh, g) && forall|h: int| pair_grip(lb, lh, h) ==> h == g;
                assert(candidates.has(g0));
                assert forall|i: u8| i < 8 && i != g0 implies !crate::bits::bit8(candidates.spec_bits(), i) by {
                    assert(!candidates.has(i as int));
                }
                crate::bits::lemma_count8_unique(candidates.spec_bits(), 8, g0 as u8);
                candidates.lemma_members();
                assert(candidates.members().contains(candidates.members()[0]));
            }
            let merge_grip = candidates.unwrap_one();
            let bo = body.attitude();
            let ho = head.attitude();
            let b_image = bo * merge_grip;
            let h_image = ho * merge_grip;
            proof {
                Grip::lemma_id_eq(b_image, h_image);
                let g = choose|g: int| pair_grip(lb, lh, g);
                assert(candidates.has(g));
                assert(candidates.has(merge_grip.spec_id() as int));
            }
            if b_image == h_image {
                Some(1)
            } else if free_grip_exists(body, head, merge_axis, merge_grip) {
                Some(2)
            } else {
                Some(3)  // no such grips! requires 3 moves
            }
        }
    }

    /// Returns whether the number of moves needed to pair `body` and `head`
    /// is defined for them.
    #[verifier::rlimit(30)]
    #[verifier::spinoff_prover]
    pub fn pairing_is_defined(body: Block, head: Block) -> (r: bool)
        ensures
            r == pairing_defined(body, head),
    {
        let lb = body.layer_bits();
        let lh = head.layer_bits();
        if body.outer_rank() < 3 {
            return true;
        }
        proof {
            lemma_merge_layers(lb, lh);
        }
        let diff = lb ^ lh;
        let merge_axis = (diff.trailing_zeros() % 4) as u16;
        if diff & !(0x111u16 << merge_axis) != 0 || diff & (0x010u16 << merge_axis) == 0 {
            return true;
        }
        let candidates = head.active_grips() & body.active_or_blocked_grips().not();
        let n = candidates.len();
        proof {
            candidates.lemma_members();
            assert forall|g: int| 0 <= g < 8 implies candidates.has(g) == pair_grip(lb, lh, g) by {}
            if n == 1 {
                let g0 = candidates.members()[0];
                assert(candidates.has(g0));
                assert(pair_grip(lb, lh, g0));
                assert forall|h: int| pair_grip(lb, lh, h) implies h == g0 by {
                    assert(candidates.has(h));
                    assert(candidates.members().contains(h));
                }
            }
            if pairing_defined(body, head) {
                let g0 = choose|g: int| #[trigger] pair_grip(lb, lh, g) && forall|h: int| pair_grip(lb, lh, h) ==> h == g;
                assert(candidates.has(g0));
                assert forall|i: u8| i < 8 && i != g0 implies !crate::bits::bit8(candidates.spec_bits(), i) by {
                    assert(!candidates.has(i as int));
                }
                crate::bits::lemma_count8_unique(candidates.spec_bits(), 8, g0 as u8);
            }
        }
        n == 1
    }

    /// Returns a block that is like this one, but is expanded to include one or
    /// more new grips. The result has identity attitude.
    pub fn expand(self, new_grips: GripSet) -> (r: Block)
        ensures
            r == Block::with(expanded(self.spec_layers(), new_grips, 8), Elem::with_id(0)),
    {
        let mut layer_bits = self.layer_bits();
        let mut g: u8 = 0;
        while g < 8
            invariant
                g <= 8,
                layer_bits == expanded(self.spec_layers(), new_grips, g as nat),
                layer_bits < 4096,
            decreases 8 - g,
        {
            let grip = Grip::new(g);
            proof {
                lemma_bit16_all();
            }
            if new_grips.contains(grip) {
                let opposite = grip.opposite();
                let opposite_bit = layer_bit_for_grip(opposite);
                let add = if layer_bits & opposite_bit != 0 {
                    layer_bits_for_axis(grip.axis())  // add middle layer as well
                } else {
                    layer_bit_for_grip(grip)
                };
                proof {
                    lemma_bit16_zero(layer_bits & opposite_bit);
                    let o = opposite.spec_id() as int;
                    assert(bit16(layer_bits & grip_bit(o), (o / 2 + 4 * grip_layer(o)) as u16) == bit16(layer_bits, (o / 2 + 4 * grip_layer(o)) as u16));
                    lemma_bit16_ops_4096(layer_bits, add);
                }
                layer_bits = layer_bits | add;
            }
            g = g + 1;
        }
        Block::from_layer_bits(layer_bits)
    }
}

impl Block {
    /// The block holding just `piece`, with solved attitude.
    pub closed spec fn of_piece(piece: Piece) -> Block {
        Block::with(choose|l: u16| l < 4096 && piece_layers(l, piece.at_solved_spec().grips), Elem::with_id(0))
    }
}

impl Piece {
    /// The piece with solved attitude.
    pub open spec fn at_solved_spec(self) -> Piece {
        self.moved_by(self.attitude.inverse())
    }
}

impl From<Piece> for Block {
    fn from(piece: Piece) -> (b: Block)
        ensures
            b.spec_attitude() == Elem::with_id(0),
            piece_layers(b.spec_layers(), piece.at_solved_spec().grips),
    {
        let p = piece.at_solved();
        let mut ret: u16 = 0;
        let mut a: u16 = 0;
        proof {
            lemma_bit16_all();
        }
        while a < 4
            invariant
                a <= 4,
                ret < 4096,
                forall|b: int, k: int| 0 <= b < 4 && 0 <= k < 3 && b >= a ==> !#[trigger] lay(ret, b, k),
                forall|b: int|
                    0 <= b < a ==> (#[trigger] lay(ret, b, 0) == p.grips.has(2 * b) && lay(ret, b, 2)
                        == p.grips.has(2 * b + 1) && lay(ret, b, 1) == !(p.grips.has(2 * b)
                        || p.grips.has(2 * b + 1))),
            decreases 4 - a,
        {
            let axis = Axis::new(a as u8);
            let pos = axis.pos_grip();
            let neg = axis.neg_grip();
            let has_pos = p.grips.contains(pos);
            let has_neg = p.grips.contains(neg);
            let ghost old_ret = ret;
            if has_pos {
                let bit = layer_bit_for_grip(pos);
                proof {
                    lemma_bit16_ops_4096(ret, bit);
                }
                ret = ret | bit;
            }
            if has_neg {
                let bit = layer_bit_for_grip(neg);
                proof {
                    lemma_bit16_ops_4096(ret, bit);
                }
                ret = ret | bit;
            }
            if !has_pos && !has_neg {
                proof {
                    lemma_mask_bits(0, (a + 4) as u16);
                    lemma_bit16_ops_4096(ret, 1u16 << (a + 4));
                }
                ret = ret | (1u16 << (a + 4));
            }
            proof {
                lemma_bit16_all();
                lemma_mask_bits(0, (a + 4) as u16);
                lemma_bit16_zero(ret);
                assert forall|b: int, k: int| 0 <= b < 4 && 0 <= k < 3 implies #[trigger] lay(ret, b, k) == (lay(old_ret, b, k) || (b == a && ((k == 0 && has_pos) || (k == 2 && has_neg) || (k == 1 && !has_pos && !has_neg)))) by {
                }
            }
            a = a + 1;
        }
        let b = Block::from_layer_bits(ret);
        proof {
            Block::lemma_with(ret, Elem::with_id(0));
            assert(piece_layers(ret, piece.at_solved_spec().grips));
            let l = choose|l: u16| l < 4096 && piece_layers(l, piece.at_solved_spec().grips);
            assert forall|a: int, k: int| 0 <= a < 4 && 0 <= k < 3 implies #[trigger] lay(l, a, k) == lay(ret, a, k) by {
                assert(lay(l, a, 0) == lay(ret, a, 0));
            }
            lemma_layers_eq(l, ret);
        }
        b
    }
}

impl vstd::std_specs::convert::FromSpecImpl<Piece> for Block {
    open spec fn obeys_from_spec() -> bool {
        true
    }

    open spec fn from_spec(v: Piece) -> Block {
        Block::of_piece(v)
    }
}

impl std::ops::Mul<Block> for Elem {
    type Output = Block;

    fn mul(self, rhs: Block) -> (r: Block)
        ensures
            r == Block::with(rhs.spec_layers(), self.product(rhs.spec_attitude())),
    {
        rhs.with_attitude(self * rhs.attitude())
    }
}

impl vstd::std_specs::ops::MulSpecImpl<Block> for Elem {
    open spec fn obeys_mul_spec() -> bool {
        true
    }

    open spec fn mul_req(self, rhs: Block) -> bool {
        true
    }

    open spec fn mul_spec(self, rhs: Block) -> Block {
        Block::with(rhs.spec_layers(), self.product(rhs.spec_attitude()))
    }
}

/// Layer masks are determined by their layers.
proof fn lemma_layers_eq(l1: u16, l2: u16)
    requires
        l1 < 4096,
        l2 < 4096,
        forall|a: int, k: int| 0 <= a < 4 && 0 <= k < 3 ==> #[trigger] lay(l1, a, k) == lay(l2, a, k),
    ensures
        l1 == l2,
{
    lemma_bit16_zero(l1);
    lemma_bit16_zero(l2);
    assert forall|i: u16| i < 16 implies bit16(l1, i) == bit16(l2, i) by {
        if i < 12 {
            assert(lay(l1, (i % 4) as int, (i / 4) as int) == lay(l2, (i % 4) as int, (i / 4) as int));
        }
    }
    lemma_bit16_eq(l1, l2);
}

/// Layer bits for all layers of an axis.
fn layer_bits_for_axis(axis: Axis) -> (r: u16)
    ensures
        r == axis_mask(axis.spec_id() as int),
        r < 4096,
{
    let a = axis.id() as u16;
    proof {
        lemma_mask_bits(a, 0);
    }
    0x111u16 << a
}

/// Layer bit for the layer of a grip.
fn layer_bit_for_grip(grip: Grip) -> (r: u16)
    ensures
        r == grip_bit(grip.spec_id() as int),
        r < 4096,
{
    let g = grip.id();
    proof {
        lemma_mask_bits(0, (g / 2 + 8 * (g % 2)) as u16);
    }
    1u16 << ((g / 2) as u16 + 8 * (g % 2) as u16)
}

/// Layer masks of an axis and of a single layer are below 4096.
proof fn lemma_mask_bits(a: u16, i: u16)
    by (bit_vector)
    requires
        a < 4,
        i < 12,
    ensures
        0x111u16 << a < 4096,
        1u16 << i < 4096,
{
}

/// Reverses the lowest 9 bits of a `u32` and zeros the rest.
pub fn rev9(x: u32) -> (r: u32)
    ensures
        forall|i: u32| i < 32 ==> bit32(r, i) == (i < 9 && bit32(x, (8 - i) as u32)),
{
    let mut r: u32 = 0;
    let mut i: u32 = 0;
    proof {
        lemma_bit32_all();
    }
    while i < 9
        invariant
            i <= 9,
            forall|j: u32| j < 32 ==> bit32(r, j) == (j < i && bit32(x, (8 - j) as u32)),
        decreases 9 - i,
    {
        let m = x & (1u32 << (8 - i));
        proof {
            lemma_bit32_all();
            lemma_bit32_eq(m, 0);
            assert(bit32(m, (8 - i) as u32) == bit32(x, (8 - i) as u32));
            if m != 0 {
                let j = choose|j: u32| j < 32 && bit32(m, j);
                assert(j == 8 - i);
            }
        }
        let ghost old_r = r;
        if m != 0 {
            r = r | (1u32 << i);
        }
        proof {
            assert forall|j: u32| j < 32 implies bit32(r, j) == (j < i + 1 && bit32(x, (8 - j) as u32)) by {
                if j == i {
                } else {
                    assert(bit32(r, j) == bit32(old_r, j));
                }
            }
        }
        i = i + 1;
    }
    r
}

/// Reframing everything as though the body is already solved, whether some
/// grip affects the head but not the body, off the merge axis and off the
/// place the pairing grip is moved to.
fn free_grip_exists(body: Block, head: Block, merge_axis: Axis, merge_grip: Grip) -> (r: bool)
    ensures
        ({
            let lb = body.spec_layers();
            let lh = head.spec_layers();
            let delta = head.spec_attitude().product(body.spec_attitude().inverse());
            let m = merge_axis.spec_id() as int;
            let g = merge_grip.spec_id() as int;
            r == exists|h: int|
                0 <= h < 8 && #[trigger] grip_active(lh, delta.inverse().grip_image(h)) && !lay(
                    lb,
                    h / 2,
                    grip_layer(h),
                ) && h / 2 != m && h != delta.grip_image(g)
        }),
{
    let bo = body.attitude();
    let ho = head.attitude();
    let _ = bo.id();
    let _ = ho.id();
    let _ = merge_axis.id();
    let _ = merge_grip.id();
    let delta = ho * body.inv_attitude();
    let _ = delta.id();
    let moved = head.with_attitude(delta);
    proof {
        Block::lemma_with(head.spec_layers(), delta);
        Elem::lemma_bijection(delta);
    }
    let current = moved.placed_active_grips();
    let free_grips = current & body.active_or_blocked_grips().not();
    let others = free_grips & GripSet::from_axis(merge_axis).not() & GripSet::from_grip(
        delta * merge_grip,
    ).not();
    let empty = others.is_empty();
    proof {
        let lb = body.spec_layers();
        let lh = head.spec_layers();
        let m = merge_axis.spec_id() as int;
        let g = merge_grip.spec_id() as int;
        assert forall|h: int| 0 <= h < 8 implies #[trigger] others.has(h) == (grip_active(lh, delta.inverse().grip_image(h)) && !lay(
                    lb,
                    h / 2,
                    grip_layer(h),
                ) && h / 2 != m && h != delta.grip_image(g)) by {
            assert(current.has(delta.grip_image(delta.inverse().grip_image(h))) == grip_active(lh, delta.inverse().grip_image(h)));
        }
        if !empty {
            let h = choose|h: int| others.has(h);
            assert(0 <= h < 8);
        }
        if exists|h: int|
            0 <= h < 8 && #[trigger] grip_active(lh, delta.inverse().grip_image(h)) && !lay(
                lb,
                h / 2,
                grip_layer(h),
            ) && h / 2 != m && h != delta.grip_image(g) {
            let h = choose|h: int|
                0 <= h < 8 && #[trigger] grip_active(lh, delta.inverse().grip_image(h)) && !lay(
                    lb,
                    h / 2,
                    grip_layer(h),
                ) && h / 2 != m && h != delta.grip_image(g);
            assert(others.has(h));
        }
    }
    !empty
}

/// Whether the attitudes of `body` and `head` allow merging them.
fn attitudes_match_exec(body: Block, head: Block) -> (r: bool)
    ensures
        r == attitudes_match(body, head),
{
    let lb = body.layer_bits();
    let bo = body.attitude();
    let ho = head.attitude();
    let _ = bo.id();
    let _ = ho.id();
    if bo == ho {
        true
    } else {
        let rank = body.outer_rank();
        if rank == 0 {
            // core + center always matches
            true
        } else if rank == 1 {
            // center + ridge matches if the ridge attitude preserves the grip of the center
            center_attitude_matches(body, ho)
        } else if rank == 2 {
            // ridge + edge has 4 indistinguishable ridge attitudes
            ridge_attitude_matches(body, ho)
        } else {
            // edge + corner requires exact attitude match
            false
        }
    }
}

/// Whether `ho` fixes the axis of the center `body`.
fn center_attitude_matches(body: Block, ho: Elem) -> (r: bool)
    requires
        outer_count(body.spec_layers()) == 1,
    ensures
        r == forall|a: int|
            0 <= a < 4 && has_outer(body.spec_layers(), a) ==> #[trigger] ho.grip_image(2 * a) == 2 * a,
{
    let lb = body.layer_bits();
    let axes = body.active_or_blocked_axes();
    let g = axes.unwrap_one().pos_grip();
    let hg = ho * g;
    proof {
        axes.lemma_members();
        Grip::lemma_id_eq(hg, g);
        let a0 = axes.members()[0];
        assert(axes.members().len() == 1);
        assert(0 <= a0 < 4);
        assert(axes.members().contains(a0));
        assert(axes.has(a0));
        assert(has_outer(lb, a0));
        assert forall|a: int| 0 <= a < 4 && has_outer(lb, a) implies a == a0 by {
            if a != a0 {
                assert(outer_count(lb) >= 2);
            }
        }
    }
    hg == g
}

/// Whether the attitude `ho` relative to the ridge `body` fixes both axes of
/// the ridge.
fn ridge_attitude_matches(body: Block, ho: Elem) -> (r: bool)
    requires
        outer_count(body.spec_layers()) == 2,
    ensures
        r == forall|a: int|
            0 <= a < 4 && has_outer(body.spec_layers(), a) ==> #[trigger] body.spec_attitude().inverse().product(
                ho,
            ).grip_image(2 * a) == 2 * a,
{
    let bo = body.attitude();
    let _ = bo.id();
    let _ = ho.id();
    let delta = body.inv_attitude() * ho;
    let axes = body.active_or_blocked_axes();
    let subgroup = ridge_indistinguishable_subgroup(axes);
    let ghost lb = body.spec_layers();
    proof {
        Elem::lemma_valid(bo, bo);
        Elem::lemma_valid(bo.inverse(), ho);
        assert(delta.spec_id() < 192);
        assert(subgroup@.contains(delta) <==> forall|a: int|
            0 <= a < 4 && #[trigger] axes.has(a) ==> delta.grip_image(2 * a) == 2 * a);
        if forall|a: int| 0 <= a < 4 && #[trigger] axes.has(a) ==> delta.grip_image(2 * a) == 2 * a {
            assert forall|a: int| 0 <= a < 4 && has_outer(lb, a) implies #[trigger] delta.grip_image(2 * a) == 2 * a by {
                assert(axes.has(a));
            }
        }
        if forall|a: int| 0 <= a < 4 && has_outer(lb, a) ==> #[trigger] delta.grip_image(2 * a) == 2 * a {
            assert forall|a: int| 0 <= a < 4 && #[trigger] axes.has(a) implies delta.grip_image(2 * a) == 2 * a by {
                assert(has_outer(lb, a));
            }
        }
    }
    contains_elem(&subgroup, delta)
}

/// Returns the elements that cannot be told apart on a ridge with the given
/// active axes: the rotations in the plane of its two axes.
fn ridge_indistinguishable_subgroup(active_axes: AxisSet) -> (r: Vec<Elem>)
    requires
        active_axes.count() == 2,
    ensures
        forall|e: Elem|
            e.spec_id() < 192 ==> (r@.contains(e) <==> forall|a: int|
                0 <= a < 4 && #[trigger] active_axes.has(a) ==> e.grip_image(2 * a) == 2 * a),
{
    let x = active_axes.contains(axes::X());
    let y = active_axes.contains(axes::Y());
    let z = active_axes.contains(axes::Z());
    let w = active_axes.contains(axes::W());
    proof {
        active_axes.lemma_members();
        reveal_with_fuel(crate::bits::count8, 5);
    }
    if x && y {
        elements::XY_STABILIZER()
    } else if y && z {
        elements::YZ_STABILIZER()
    } else if z && w {
        elements::ZW_STABILIZER()
    } else if x && z {
        elements::XZ_STABILIZER()
    } else if y && w {
        elements::YW_STABILIZER()
    } else {
        elements::XW_STABILIZER()
    }
}

/// Returns whether `e` is in `v`.
fn contains_elem(v: &Vec<Elem>, e: Elem) -> (r: bool)
    ensures
        r == v@.contains(e),
{
    let mut i: usize = 0;
    while i < v.len()
        invariant
            i <= v.len(),
            forall|j: int| 0 <= j < i ==> v[j] != e,
        decreases v.len() - i,
    {
        if v[i] == e {
            assert(v@[i as int] == e);
            return true;
        }
        i = i + 1;
    }
    false
}

/// Radix digit of axis `a`: 2 with a middle layer, else 1 with a positive
/// layer, else 0.
pub open spec fn radix_digit(l: u16, a: int) -> int {
    if lay(l, a, 1) {
        2
    } else if lay(l, a, 0) {
        1
    } else {
        0
    }
}

fn radix_digit_exec(l: u16, a: u16) -> (r: u8)
    requires
        a < 4,
    ensures
        r == radix_digit(l, a as int),
{
    if lay_exec(l, a, 1) {
        2
    } else if lay_exec(l, a, 0) {
        1
    } else {
        0
    }
}

/// Whether a layer mask holds layer `k` on axis `a`.
fn lay_exec(l: u16, a: u16, k: u16) -> (r: bool)
    requires
        a < 4,
        k < 3,
    ensures
        r == lay(l, a as int, k as int),
{
    (l >> (a + 4 * k)) & 1 == 1
}

} // verus!
