//! Partial puzzle states stored as lists of blocks.
use vstd::prelude::*;

use super::block::{grip_layer, lay, merged, middle_count, radix_digit, Block};
use super::block_list_meta::BlockListMeta;
use crate::bits::{bit16, bit8, lemma_bit16_all, lemma_bit16_ops_4096};
use super::pieces::{twists_valid, setup_placement, piece_matches, lemma_solved_piece_matches, lemma_twist_piece, lemma_placement_ident, lemma_same_layers_placement, lemma_setup_center, twisted_part, twisted_pieces, lemma_home_center_fixed, lemma_placement_product, lemma_split_moves, twist_moves, twisted_placement, lemma_pieces_same_nonempty, centers_home, home_placement, lemma_merged_placement, placement, places, same_pieces, sticker_count, holds_piece, Stickers};
use crate::sim::common::{Elem, Grip, Twist};
use crate::sim::common::twist::fixes_grip;
use crate::util::bitset::BitSet32;

verus! {

broadcast use Elem::lemma_with_id;

/// Maximum number of blocks that a list can hold.
pub const MAX_BLOCK_COUNT: u32 = 26;

/// The inner rank of a block: the number of stickers on its innermost piece.
pub open spec fn rank_of(b: Block) -> int {
    4 - middle_count(b.spec_layers())
}

/// The key by which the blocks of a list are sorted.
pub open spec fn key_of(b: Block) -> int {
    let l = b.spec_layers();
    radix_digit(l, 0) + 3 * radix_digit(l, 1) + 9 * radix_digit(l, 2) + 27 * radix_digit(l, 3)
}

/// The layer, on axis `a`, of the solved piece whose active grips have the
/// bits `v`: 0 for the positive grip, 2 for the negative one, 1 for neither.
pub open spec fn cell_layer(v: u8, a: int) -> int {
    if bit8(v, (2 * a) as u8) {
        0
    } else if bit8(v, (2 * a + 1) as u8) {
        2
    } else {
        1
    }
}

/// Whether the bits `v` describe the active grips of a piece: at most one
/// grip per axis.
pub open spec fn valid_cell(v: u8) -> bool {
    forall|a: int| 0 <= a < 4 ==> !(#[trigger] bit8(v, (2 * a) as u8) && bit8(v, (2 * a + 1) as u8))
}

/// Whether block `b` holds the piece whose solved position has the active
/// grips `v`.
pub open spec fn holds_cell(b: Block, v: u8) -> bool {
    let l = b.spec_layers();
    &&& b != Block::spec_empty()
    &&& lay(l, 0, cell_layer(v, 0))
    &&& lay(l, 1, cell_layer(v, 1))
    &&& lay(l, 2, cell_layer(v, 2))
    &&& lay(l, 3, cell_layer(v, 3))
}

/// Whether some block of `s` holds the piece whose solved position has the
/// active grips `v`.
pub open spec fn covers(s: Seq<Block>, v: u8) -> bool {
    exists|i: int| 0 <= i < s.len() && #[trigger] holds_cell(s[i], v)
}

/// Whether two lists of blocks hold the same pieces.
pub open spec fn same_cells(s: Seq<Block>, t: Seq<Block>) -> bool {
    forall|v: u8| #[trigger] covers(s, v) == covers(t, v)
}

/// Whether no block of `s` is empty.
pub open spec fn all_nonempty(s: Seq<Block>) -> bool {
    forall|i: int| 0 <= i < s.len() ==> #[trigger] s[i] != Block::spec_empty()
}

/// Whether the blocks of `s` are sorted by key.
pub open spec fn sorted_by_key(s: Seq<Block>) -> bool {
    forall|i: int, j: int| 0 <= i <= j < s.len() ==> key_of(#[trigger] s[i]) <= key_of(#[trigger] s[j])
}

/// Whether no two nonempty blocks of `s`, of inner ranks `r` and `r + 1`,
/// can be merged.
pub open spec fn no_mergeable(s: Seq<Block>) -> bool {
    forall|x: Block, y: Block|
        #![trigger s.contains(x), s.contains(y)]
        s.contains(x) && s.contains(y) && x != Block::spec_empty() && y != Block::spec_empty()
            && rank_of(y) == rank_of(x) + 1 ==> merged(x, y) == Block::spec_empty()
}

/// Number of nonempty blocks in `s`.
pub open spec fn nonempty_count(s: Seq<Block>) -> nat
    decreases s.len(),
{
    if s.len() == 0 {
        0
    } else {
        nonempty_count(s.drop_last()) + if s.last() != Block::spec_empty() {
            1nat
        } else {
            0nat
        }
    }
}

/// The nonempty blocks of `s` with inner rank `r`, in order.
pub open spec fn with_rank(s: Seq<Block>, r: int) -> Seq<Block>
    decreases s.len(),
{
    if s.len() == 0 {
        Seq::empty()
    } else if s.last() != Block::spec_empty() && rank_of(s.last()) == r {
        with_rank(s.drop_last(), r).push(s.last())
    } else {
        with_rank(s.drop_last(), r)
    }
}

/// The empty block has no layers.
proof fn lemma_empty_layers()
    ensures
        Block::spec_empty().spec_layers() == 0,
        forall|a: int, k: int| 0 <= a < 4 && 0 <= k < 3 ==> !#[trigger] lay(0, a, k),
{
    Block::lemma_with(0, Elem::with_id(0));
    lemma_bit16_all();
    assert forall|a: int, k: int| 0 <= a < 4 && 0 <= k < 3 implies !#[trigger] lay(0, a, k) by {
        assert(!bit16(0u16, (a + 4 * k) as u16));
    }
}

/// Updating one block changes the count of nonempty blocks by what left and
/// what came.
proof fn lemma_nonempty_count_update(s: Seq<Block>, i: int, x: Block)
    requires
        0 <= i < s.len(),
    ensures
        nonempty_count(s.update(i, x)) + (if s[i] != Block::spec_empty() {
            1int
        } else {
            0int
        }) == nonempty_count(s) + (if x != Block::spec_empty() {
            1int
        } else {
            0int
        }),
    decreases s.len(),
{
    let t = s.update(i, x);
    if i == s.len() - 1 {
        assert(t.drop_last() =~= s.drop_last());
    } else {
        lemma_nonempty_count_update(s.drop_last(), i, x);
        assert(t.drop_last() =~= s.drop_last().update(i, x));
    }
}

/// Merging two blocks of consecutive inner ranks gives a block of the lower
/// rank holding the pieces of both.
proof fn lemma_merged_cells(b: Block, h: Block)
    requires
        merged(b, h) != Block::spec_empty(),
        rank_of(h) == rank_of(b) + 1,
        b.spec_layers() < 4096,
        h.spec_layers() < 4096,
        h.spec_attitude().spec_id() < 192,
    ensures
        rank_of(merged(b, h)) == rank_of(b),
        merged(b, h).spec_layers() == b.spec_layers() | h.spec_layers(),
        merged(b, h).spec_attitude() == h.spec_attitude(),
        forall|v: u8| #[trigger] holds_cell(merged(b, h), v) == (holds_cell(b, v) || holds_cell(h, v)),
{
    let lb = b.spec_layers();
    let lh = h.spec_layers();
    lemma_bit16_ops_4096(lb, lh);
    lemma_bit16_all();
    lemma_empty_layers();
    Block::lemma_with(lb | lh, h.spec_attitude());
    let mg = merged(b, h);
    assert(mg.spec_layers() == lb | lh);
    assert forall|a: int, k: int| 0 <= a < 4 && 0 <= k < 3 implies #[trigger] lay(lb | lh, a, k) == (lay(lb, a, k)
        || lay(lh, a, k)) by {
        assert(bit16(lb | lh, (a + 4 * k) as u16) == (bit16(lb, (a + 4 * k) as u16) || bit16(lh, (a + 4 * k) as u16)));
    }
    let m = choose|m: int| super::block::differ_only_on(lb, lh, m);
    assert(lay(lb, 0, 1) == lay(lh, 0, 1) || m == 0);
    assert(lay(lb, 1, 1) == lay(lh, 1, 1) || m == 1);
    assert(lay(lb, 2, 1) == lay(lh, 2, 1) || m == 2);
    assert(lay(lb, 3, 1) == lay(lh, 3, 1) || m == 3);
    assert(lay(lb, m, 1) && !lay(lh, m, 1));
    assert(b != Block::spec_empty());
    assert forall|v: u8| #[trigger] holds_cell(mg, v) == (holds_cell(b, v) || holds_cell(h, v)) by {
        let c0 = cell_layer(v, 0);
        let c1 = cell_layer(v, 1);
        let c2 = cell_layer(v, 2);
        let c3 = cell_layer(v, 3);
        assert(0 <= c0 < 3 && 0 <= c1 < 3 && 0 <= c2 < 3 && 0 <= c3 < 3);
        assert(m != 0 ==> lay(lb, 0, c0) == lay(lh, 0, c0));
        assert(m != 1 ==> lay(lb, 1, c1) == lay(lh, 1, c1));
        assert(m != 2 ==> lay(lb, 2, c2) == lay(lh, 2, c2));
        assert(m != 3 ==> lay(lb, 3, c3) == lay(lh, 3, c3));
        if holds_cell(h, v) {
            assert(lh != 0);
        }
    }
}

/// Replacing a body and its head by their merge keeps the pieces in place,
/// when the centers are solved.
proof fn lemma_merge_step_pieces(s1: Seq<Block>, bi: int, hi: int)
    requires
        0 <= bi < s1.len(),
        0 <= hi < s1.len(),
        bi != hi,
        merged(s1[bi], s1[hi]) != Block::spec_empty(),
        rank_of(s1[hi]) == rank_of(s1[bi]) + 1,
        s1[bi].spec_layers() < 4096,
        s1[hi].spec_layers() < 4096,
        s1[bi].spec_attitude().spec_id() < 192,
        s1[hi].spec_attitude().spec_id() < 192,
        centers_home(s1),
    ensures
        ({
            let s3 = s1.update(hi, Block::spec_empty()).update(bi, merged(s1[bi], s1[hi]));
            same_pieces(s3, s1) && centers_home(s3)
        }),
{
    let body = s1[bi];
    let head = s1[hi];
    let mg = merged(body, head);
    let s3 = s1.update(hi, Block::spec_empty()).update(bi, mg);
    lemma_merged_cells(body, head);
    lemma_empty_layers();
    assert forall|v: u8| #[trigger] holds_cell(body, v) && sticker_count(v) == 1 implies placement(
        body.spec_attitude(),
        v,
    ) == home_placement(v) by {
        assert(holds_cell(s1[bi], v));
    }
    lemma_merged_placement(body, head);
    assert forall|v: u8, p: Stickers| #[trigger] places(s3, v, p) == places(s1, v, p) by {
        if places(s1, v, p) {
            let i = choose|i: int| 0 <= i < s1.len() && #[trigger] holds_piece(s1[i], v, p);
            if i == hi || i == bi {
                assert(holds_piece(s3[bi], v, p));
            } else {
                assert(holds_piece(s3[i], v, p));
            }
        }
        if places(s3, v, p) {
            let i = choose|i: int| 0 <= i < s3.len() && #[trigger] holds_piece(s3[i], v, p);
            if i == bi {
                if holds_cell(body, v) {
                    assert(holds_piece(s1[bi], v, p));
                } else {
                    assert(holds_piece(s1[hi], v, p));
                }
            } else {
                assert(i != hi);
                assert(holds_piece(s1[i], v, p));
            }
        }
    }
    assert forall|i: int, v: u8|
        0 <= i < s3.len() && #[trigger] holds_cell(s3[i], v) && sticker_count(v) == 1 implies placement(
        s3[i].spec_attitude(),
        v,
    ) == home_placement(v) by {
        if i == bi {
            if holds_cell(body, v) {
                assert(holds_cell(s1[bi], v));
            } else {
                assert(holds_cell(s1[hi], v));
            }
        } else {
            assert(i != hi);
            assert(holds_cell(s1[i], v));
        }
    }
}

/// Splitting a block along a layer of an axis keeps its pieces.
proof fn lemma_split_cells(x: Block, act: Block, ina: Block, a: int, k: int)
    requires
        0 <= a < 4,
        k == 0 || k == 2,
        x.spec_layers() < 4096,
        (act == Block::spec_empty()) == !lay(x.spec_layers(), a, k),
        lay(x.spec_layers(), a, k) ==> forall|b: int, j: int|
            0 <= b < 4 && 0 <= j < 3 ==> #[trigger] lay(act.spec_layers(), b, j) == (lay(x.spec_layers(), b, j)
                && (b != a || j == k)),
        (ina == Block::spec_empty()) == !(lay(x.spec_layers(), a, 1) || lay(x.spec_layers(), a, 2 - k)),
        (lay(x.spec_layers(), a, 1) || lay(x.spec_layers(), a, 2 - k)) ==> forall|b: int, j: int|
            0 <= b < 4 && 0 <= j < 3 ==> #[trigger] lay(ina.spec_layers(), b, j) == (lay(x.spec_layers(), b, j)
                && (b != a || j != k)),
    ensures
        forall|v: u8| #[trigger] holds_cell(x, v) == (holds_cell(act, v) || holds_cell(ina, v)),
        ina != Block::spec_empty() ==> rank_of(ina) == rank_of(x),
        ina == Block::spec_empty() && act != Block::spec_empty() ==> rank_of(act) == rank_of(x),
        act != Block::spec_empty() || ina != Block::spec_empty() ==> x != Block::spec_empty(),
{
    let l = x.spec_layers();
    lemma_empty_layers();
    if act != Block::spec_empty() || ina != Block::spec_empty() {
        assert(x.spec_layers() != 0);
    }
    if ina != Block::spec_empty() {
        assert(lay(ina.spec_layers(), 0, 1) == lay(l, 0, 1));
        assert(lay(ina.spec_layers(), 1, 1) == lay(l, 1, 1));
        assert(lay(ina.spec_layers(), 2, 1) == lay(l, 2, 1));
        assert(lay(ina.spec_layers(), 3, 1) == lay(l, 3, 1));
    }
    if ina == Block::spec_empty() && act != Block::spec_empty() {
        assert(lay(act.spec_layers(), 0, 1) == lay(l, 0, 1));
        assert(lay(act.spec_layers(), 1, 1) == lay(l, 1, 1));
        assert(lay(act.spec_layers(), 2, 1) == lay(l, 2, 1));
        assert(lay(act.spec_layers(), 3, 1) == lay(l, 3, 1));
    }
    assert forall|v: u8| #[trigger] holds_cell(x, v) == (holds_cell(act, v) || holds_cell(ina, v)) by {
        let c0 = cell_layer(v, 0);
        let c1 = cell_layer(v, 1);
        let c2 = cell_layer(v, 2);
        let c3 = cell_layer(v, 3);
        assert(0 <= c0 < 3 && 0 <= c1 < 3 && 0 <= c2 < 3 && 0 <= c3 < 3);
        let ca = cell_layer(v, a);
        if holds_cell(x, v) {
            if ca == k {
                assert(lay(l, a, k));
                assert(holds_cell(act, v));
            } else {
                assert(lay(l, a, 1) || lay(l, a, 2 - k));
                assert(holds_cell(ina, v));
            }
        }
        if holds_cell(act, v) {
            assert(lay(l, a, k));
        }
        if holds_cell(ina, v) {
            assert(lay(l, a, 1) || lay(l, a, 2 - k));
        }
    }
}

/// Moving a block keeps its pieces.
proof fn lemma_moved_cells(x: Block, e: Elem)
    requires
        x.spec_layers() < 4096,
        e.spec_id() < 192,
        x.spec_attitude().spec_id() < 192,
    ensures
        forall|v: u8| #[trigger] holds_cell(Block::with(x.spec_layers(), e.product(x.spec_attitude())), v) == holds_cell(x, v),
        Block::with(x.spec_layers(), e.product(x.spec_attitude())).spec_layers() == x.spec_layers(),
        rank_of(Block::with(x.spec_layers(), e.product(x.spec_attitude()))) == rank_of(x),
        x != Block::spec_empty() && x.spec_layers() != 0 ==> Block::with(x.spec_layers(), e.product(x.spec_attitude())) != Block::spec_empty(),
{
    Elem::lemma_valid(e, x.spec_attitude());
    Block::lemma_with(x.spec_layers(), e.product(x.spec_attitude()));
    lemma_empty_layers();
    assert forall|v: u8| #[trigger] holds_cell(Block::with(x.spec_layers(), e.product(x.spec_attitude())), v) == holds_cell(x, v) by {
        if x.spec_layers() == 0 {
            let c0 = cell_layer(v, 0);
            assert(0 <= c0 < 3);
        }
    }
}

/// A twist splits a block into the part it leaves, whose pieces stay, and
/// the part it moves, whose pieces turn with it.
proof fn lemma_twist_block_pieces(x: Block, act: Block, ina: Block, tw: Twist)
    requires
        x.spec_layers() < 4096,
        act.spec_layers() < 4096,
        x.spec_attitude().spec_id() < 192,
        tw.transform.spec_id() < 192,
        tw.grip.spec_id() < 8,
        ({
            let l = x.spec_layers();
            let g = x.spec_attitude().inverse().grip_image(tw.grip.spec_id() as int);
            let a = g / 2;
            let k = grip_layer(g);
            &&& (act == Block::spec_empty()) == !lay(l, a, k)
            &&& lay(l, a, k) ==> act.spec_attitude() == x.spec_attitude() && forall|b: int, j: int|
                0 <= b < 4 && 0 <= j < 3 ==> #[trigger] lay(act.spec_layers(), b, j) == (lay(l, b, j) && (b != a
                    || j == k))
            &&& (ina == Block::spec_empty()) == !(lay(l, a, 1) || lay(l, a, 2 - k))
            &&& (lay(l, a, 1) || lay(l, a, 2 - k)) ==> ina.spec_attitude() == x.spec_attitude() && forall|
                b: int,
                j: int,
            |
                0 <= b < 4 && 0 <= j < 3 ==> #[trigger] lay(ina.spec_layers(), b, j) == (lay(l, b, j) && (b != a
                    || j != k))
        }),
    ensures
        ({
            let moved = Block::with(act.spec_layers(), tw.transform.product(act.spec_attitude()));
            &&& forall|v: u8| #[trigger] holds_cell(x, v) == (holds_cell(act, v) || holds_cell(ina, v))
            &&& forall|v: u8| #[trigger] holds_cell(moved, v) == holds_cell(act, v)
            &&& forall|v: u8|
                #[trigger] holds_cell(ina, v) ==> placement(ina.spec_attitude(), v) == twisted_placement(
                    placement(x.spec_attitude(), v),
                    tw,
                )
            &&& act != Block::spec_empty() ==> forall|v: u8|
                #[trigger] holds_cell(act, v) ==> placement(moved.spec_attitude(), v) == twisted_placement(
                    placement(x.spec_attitude(), v),
                    tw,
                )
            &&& act == Block::spec_empty() ==> forall|v: u8|
                #[trigger] holds_cell(x, v) ==> placement(x.spec_attitude(), v) == twisted_placement(
                    placement(x.spec_attitude(), v),
                    tw,
                )
            &&& (fixes_grip(tw.transform, tw.grip) && forall|v: u8|
                #[trigger] holds_cell(x, v) && sticker_count(v) == 1 ==> placement(x.spec_attitude(), v)
                    == home_placement(v)) ==> forall|v: u8|
                #[trigger] holds_cell(x, v) && sticker_count(v) == 1 ==> twisted_placement(
                    placement(x.spec_attitude(), v),
                    tw,
                ) == home_placement(v)
        }),
{
    let att = x.spec_attitude();
    let l = x.spec_layers();
    let grip = tw.grip.spec_id() as int;
    let g = att.inverse().grip_image(grip);
    Elem::lemma_valid(att, att);
    Elem::lemma_action(att.inverse(), att, grip);
    assert(0 <= g < 8);
    lemma_split_cells(x, act, ina, g / 2, grip_layer(g));
    lemma_empty_layers();
    if act != Block::spec_empty() {
        lemma_moved_cells(act, tw.transform);
    } else {
        Block::lemma_with(0, Elem::with_id(0));
        assert(act.spec_layers() == 0);
        Elem::lemma_valid(tw.transform, act.spec_attitude());
        Block::lemma_with(0, tw.transform.product(act.spec_attitude()));
        assert forall|v: u8| #[trigger] holds_cell(Block::with(act.spec_layers(), tw.transform.product(act.spec_attitude())), v) == holds_cell(act, v) by {
            let c0 = cell_layer(v, 0);
            assert(0 <= c0 < 3);
            assert(!lay(0, 0, c0));
        }
    }
    assert forall|v: u8| #[trigger] holds_cell(ina, v) implies placement(ina.spec_attitude(), v) == twisted_placement(
        placement(att, v),
        tw,
    ) by {
        lemma_split_moves(att, v, grip);
        assert(cell_layer(v, g / 2) != grip_layer(g));
    }
    if act != Block::spec_empty() {
        let moved = Block::with(act.spec_layers(), tw.transform.product(act.spec_attitude()));
        assert forall|v: u8| #[trigger] holds_cell(act, v) implies placement(moved.spec_attitude(), v)
            == twisted_placement(placement(att, v), tw) by {
            lemma_split_moves(att, v, grip);
            assert(cell_layer(v, g / 2) == grip_layer(g));
            lemma_placement_product(tw.transform, att, v);
            Elem::lemma_valid(tw.transform, att);
            Block::lemma_with(act.spec_layers(), tw.transform.product(att));
        }
    } else {
        assert forall|v: u8| #[trigger] holds_cell(x, v) implies placement(att, v) == twisted_placement(placement(att, v), tw) by {
            lemma_split_moves(att, v, grip);
        }
    }
    if fixes_grip(tw.transform, tw.grip) && forall|v: u8|
        #[trigger] holds_cell(x, v) && sticker_count(v) == 1 ==> placement(att, v) == home_placement(v) {
        assert forall|v: u8| #[trigger] holds_cell(x, v) && sticker_count(v) == 1 implies twisted_placement(
            placement(att, v),
            tw,
        ) == home_placement(v) by {
            let p = placement(att, v);
            if twist_moves(p, grip) {
                lemma_home_center_fixed(v, tw);
            }
        }
    }
}

/// Progress of a twist over the blocks of `s0`: the blocks below `i` are
/// replaced (in `r`) by the parts the twist leaves, and the parts it moves
/// are appended after the first `n` blocks, `src` telling which block each
/// comes from.
spec fn twist_progress(s0: Seq<Block>, r: Seq<Block>, src: Seq<int>, n: int, i: int, tw: Twist) -> bool {
    &&& r.len() == n + src.len()
    &&& forall|j: int| 0 <= j < i ==> #[trigger] twisted_part(s0[j], r[j], tw)
    &&& forall|m: int| 0 <= m < src.len() ==> 0 <= #[trigger] src[m] < i && twisted_part(s0[src[m]], r[n + m], tw)
    &&& forall|k: int, v: u8|
        0 <= k < i && #[trigger] holds_cell(s0[k], v) ==> holds_cell(r[k], v) || exists|m: int|
            #![trigger src[m]]
            0 <= m < src.len() && src[m] == k && holds_cell(r[n + m], v)
}

/// One more block twisted.
proof fn lemma_twist_progress_step(
    s0: Seq<Block>,
    s1: Seq<Block>,
    s2: Seq<Block>,
    src1: Seq<int>,
    src2: Seq<int>,
    n: int,
    i: int,
    tw: Twist,
)
    requires
        0 <= i < n,
        twist_progress(s0, s1, src1, n, i, tw),
        s2.len() == n + src2.len(),
        forall|j: int| 0 <= j < n && j != i ==> s2[j] == s1[j],
        forall|m: int| 0 <= m < src1.len() ==> src2[m] == src1[m] && s2[n + m] == s1[n + m],
        src2.len() == src1.len() || (src2.len() == src1.len() + 1 && src2[src1.len() as int] == i),
        twisted_part(s0[i], s2[i], tw),
        src2.len() == src1.len() + 1 ==> twisted_part(s0[i], s2[n + src1.len()], tw),
        forall|v: u8|
            #[trigger] holds_cell(s0[i], v) ==> holds_cell(s2[i], v) || (src2.len() == src1.len() + 1 && holds_cell(
                s2[n + src1.len()],
                v,
            )),
    ensures
        twist_progress(s0, s2, src2, n, i + 1, tw),
{
    assert forall|j: int| 0 <= j < i + 1 implies #[trigger] twisted_part(s0[j], s2[j], tw) by {
        if j < i {
            assert(twisted_part(s0[j], s1[j], tw));
        }
    }
    assert forall|m: int| 0 <= m < src2.len() implies 0 <= #[trigger] src2[m] < i + 1 && twisted_part(
        s0[src2[m]],
        s2[n + m],
        tw,
    ) by {
        if m < src1.len() {
            assert(src2[m] == src1[m]);
            assert(twisted_part(s0[src1[m]], s1[n + m], tw));
        }
    }
    assert forall|k: int, v: u8| 0 <= k < i + 1 && #[trigger] holds_cell(s0[k], v) implies holds_cell(s2[k], v)
        || exists|m: int| #![trigger src2[m]] 0 <= m < src2.len() && src2[m] == k && holds_cell(s2[n + m], v) by {
        if k < i {
            if !holds_cell(s1[k], v) {
                let m = choose|m: int| #![trigger src1[m]] 0 <= m < src1.len() && src1[m] == k && holds_cell(s1[n + m], v);
                assert(src2[m] == k);
            }
        } else {
            if !holds_cell(s2[i], v) {
                let m = src1.len() as int;
                assert(src2[m] == k);
            }
        }
    }
}

/// When every block is twisted, the list holds the pieces of the first one
/// moved by the twist, and solved centers stay solved.
proof fn lemma_twist_progress_done(s0: Seq<Block>, r: Seq<Block>, src: Seq<int>, tw: Twist)
    requires
        twist_progress(s0, r, src, s0.len() as int, s0.len() as int, tw),
    ensures
        twisted_pieces(s0, r, tw),
        centers_home(s0) && fixes_grip(tw.transform, tw.grip) ==> centers_home(r),
{
    let n = s0.len() as int;
    assert forall|v: u8, p: Stickers| #[trigger] places(r, v, p) == exists|q: Stickers|
        #[trigger] places(s0, v, q) && p == twisted_placement(q, tw) by {
        if places(r, v, p) {
            let j = choose|j: int| 0 <= j < r.len() && #[trigger] holds_piece(r[j], v, p);
            let k = if j < n {
                j
            } else {
                src[j - n]
            };
            if j < n {
                assert(twisted_part(s0[j], r[j], tw));
            } else {
                assert(twisted_part(s0[src[j - n]], r[n + (j - n)], tw));
            }
            let q = placement(s0[k].spec_attitude(), v);
            assert(holds_piece(s0[k], v, q));
            assert(places(s0, v, q));
        }
        if exists|q: Stickers| #[trigger] places(s0, v, q) && p == twisted_placement(q, tw) {
            let q = choose|q: Stickers| #[trigger] places(s0, v, q) && p == twisted_placement(q, tw);
            let k = choose|k: int| 0 <= k < s0.len() && #[trigger] holds_piece(s0[k], v, q);
            assert(holds_cell(s0[k], v));
            if holds_cell(r[k], v) {
                assert(twisted_part(s0[k], r[k], tw));
                assert(holds_piece(r[k], v, p));
            } else {
                let m = choose|m: int| #![trigger src[m]] 0 <= m < src.len() && src[m] == k && holds_cell(r[n + m], v);
                assert(twisted_part(s0[src[m]], r[n + m], tw));
                assert(holds_piece(r[n + m], v, p));
            }
        }
    }
    if centers_home(s0) && fixes_grip(tw.transform, tw.grip) {
        assert forall|j: int, v: u8|
            0 <= j < r.len() && #[trigger] holds_cell(r[j], v) && sticker_count(v) == 1 implies placement(
            r[j].spec_attitude(),
            v,
        ) == home_placement(v) by {
            let k = if j < n {
                j
            } else {
                src[j - n]
            };
            if j < n {
                assert(twisted_part(s0[j], r[j], tw));
            } else {
                assert(twisted_part(s0[src[j - n]], r[n + (j - n)], tw));
            }
            assert(holds_cell(s0[k], v));
            assert(placement(s0[k].spec_attitude(), v) == home_placement(v));
            if twist_moves(home_placement(v), tw.grip.spec_id() as int) {
                lemma_home_center_fixed(v, tw);
            }
        }
    }
}

/// Exchanging two entries of a sequence keeps its elements.
proof fn lemma_swap_contains(s: Seq<Block>, a: int, b: int)
    requires
        0 <= a < s.len(),
        0 <= b < s.len(),
    ensures
        forall|x: Block| #[trigger] s.update(a, s[b]).update(b, s[a]).contains(x) == s.contains(x),
{
    let t = s.update(a, s[b]).update(b, s[a]);
    assert forall|x: Block| #[trigger] t.contains(x) == s.contains(x) by {
        if t.contains(x) {
            let i = choose|i: int| 0 <= i < t.len() && t[i] == x;
            if i == a {
                assert(s[b] == x);
            } else if i == b {
                assert(s[a] == x);
            } else {
                assert(s[i] == x);
            }
        }
        if s.contains(x) {
            let i = choose|i: int| 0 <= i < s.len() && s[i] == x;
            if i == a {
                assert(t[b] == x);
            } else if i == b {
                assert(t[a] == x);
            } else {
                assert(t[i] == x);
            }
        }
    }
}

/// Moves the empty blocks among the first `len` to the end of that range,
/// by exchanging each empty block found with the last of the range, and
/// returns the number of nonempty blocks.
fn remove_empties(blocks: &mut [Block; 26], len: usize) -> (n: usize)
    requires
        len <= 26,
    ensures
        n <= len,
        all_nonempty(final(blocks)@.subrange(0, n as int)),
        forall|x: Block|
            x != Block::spec_empty() ==> (#[trigger] final(blocks)@.subrange(0, n as int).contains(x)
                == old(blocks)@.subrange(0, len as int).contains(x)),
        forall|i: int| len <= i < 26 ==> final(blocks)@[i] == old(blocks)@[i],
        all_nonempty(old(blocks)@.subrange(0, len as int)) ==> n == len && *final(blocks) == *old(blocks),
{
    let ghost l0 = len;
    let ghost b0 = *blocks;
    let mut len = len;
    let mut i: usize = 0;
    while i < len
        invariant
            len <= l0 <= 26,
            i <= len + 1,
            i <= l0,
            forall|k: int| 0 <= k < i && k < len ==> #[trigger] blocks@[k] != Block::spec_empty(),
            forall|k: int| len <= k < l0 ==> #[trigger] blocks@[k] == Block::spec_empty(),
            forall|x: Block| #[trigger] blocks@.subrange(0, l0 as int).contains(x) == b0@.subrange(0, l0 as int).contains(x),
            forall|k: int| l0 <= k < 26 ==> blocks@[k] == b0@[k],
            all_nonempty(b0@.subrange(0, l0 as int)) ==> len == l0 && *blocks == b0,
        decreases len + 1 - i,
    {
        let ghost le = len;
        while blocks[i].is_empty() && i < len
            invariant
                len <= le,
                len <= l0 <= 26,
                i < l0,
                i <= len,
                forall|k: int| 0 <= k < i && k < len ==> #[trigger] blocks@[k] != Block::spec_empty(),
                forall|k: int| len <= k < l0 ==> #[trigger] blocks@[k] == Block::spec_empty(),
                forall|x: Block| #[trigger] blocks@.subrange(0, l0 as int).contains(x) == b0@.subrange(0, l0 as int).contains(x),
                forall|k: int| l0 <= k < 26 ==> blocks@[k] == b0@[k],
                all_nonempty(b0@.subrange(0, l0 as int)) ==> len == l0 && *blocks == b0,
            decreases len,
        {
            proof {
                if all_nonempty(b0@.subrange(0, l0 as int)) {
                    assert(b0@.subrange(0, l0 as int)[i as int] == blocks@[i as int]);
                }
            }
            len = len - 1;
            let ghost before = blocks@;
            let t = blocks[i];
            let u = blocks[len];
            blocks[i] = u;
            blocks[len] = t;
            proof {
                let sb = before.subrange(0, l0 as int);
                lemma_swap_contains(sb, i as int, len as int);
                assert(blocks@.subrange(0, l0 as int) =~= sb.update(i as int, sb[len as int]).update(len as int, sb[i as int]));
                assert forall|x: Block| #[trigger] blocks@.subrange(0, l0 as int).contains(x) == b0@.subrange(0, l0 as int).contains(x) by {
                    assert(sb.update(i as int, sb[len as int]).update(len as int, sb[i as int]).contains(x) == sb.contains(x));
                }
            }
        }
        assert(i <= len);
        i = i + 1;
    }
    proof {
        let t = blocks@.subrange(0, len as int);
        let whole = blocks@.subrange(0, l0 as int);
        assert forall|x: Block| x != Block::spec_empty() implies (#[trigger] t.contains(x) == whole.contains(x)) by {
            if t.contains(x) {
                let k = choose|k: int| 0 <= k < t.len() && t[k] == x;
                assert(whole[k] == x);
            }
            if whole.contains(x) {
                let k = choose|k: int| 0 <= k < whole.len() && whole[k] == x;
                assert(k < len);
                assert(t[k] == x);
            }
        }
    }
    len
}

/// Sorts the first `n` blocks by key, by insertion.
fn sort_by_key(blocks: &mut [Block; 26], n: usize)
    requires
        n <= 26,
    ensures
        sorted_by_key(final(blocks)@.subrange(0, n as int)),
        forall|x: Block| #[trigger] final(blocks)@.subrange(0, n as int).contains(x)
            == old(blocks)@.subrange(0, n as int).contains(x),
        forall|i: int| n <= i < 26 ==> final(blocks)@[i] == old(blocks)@[i],
        sorted_by_key(old(blocks)@.subrange(0, n as int)) ==> *final(blocks) == *old(blocks),
{
    let ghost b0 = *blocks;
    if n == 0 {
        assert(blocks@.subrange(0, 0) =~= b0@.subrange(0, 0));
        return;
    }
    let mut i: usize = 1;
    while i < n
        invariant
            1 <= i <= n <= 26,
            forall|a: int, b: int| 0 <= a <= b < i ==> key_of(#[trigger] blocks@[a]) <= key_of(#[trigger] blocks@[b]),
            forall|x: Block| #[trigger] blocks@.subrange(0, n as int).contains(x) == b0@.subrange(0, n as int).contains(x),
            forall|k: int| n <= k < 26 ==> blocks@[k] == b0@[k],
            sorted_by_key(b0@.subrange(0, n as int)) ==> *blocks == b0,
        decreases n - i,
    {
        let mut j: usize = i;
        while j > 0 && blocks[j - 1].radix_sort_key() > blocks[j].radix_sort_key()
            invariant
                1 <= i < n <= 26,
                j <= i,
                forall|a: int, b: int|
                    0 <= a <= b <= i && a != j && b != j ==> key_of(#[trigger] blocks@[a]) <= key_of(#[trigger] blocks@[b]),
                forall|b: int| j < b <= i ==> key_of(blocks@[j as int]) < key_of(#[trigger] blocks@[b]),
                forall|x: Block| #[trigger] blocks@.subrange(0, n as int).contains(x) == b0@.subrange(0, n as int).contains(x),
                forall|k: int| n <= k < 26 ==> blocks@[k] == b0@[k],
                sorted_by_key(b0@.subrange(0, n as int)) ==> *blocks == b0 && j == i,
            decreases j,
        {
            proof {
                if sorted_by_key(b0@.subrange(0, n as int)) {
                    let s = b0@.subrange(0, n as int);
                    assert(s[j - 1] == blocks@[j - 1] && s[j as int] == blocks@[j as int]);
                }
            }
            let ghost before = blocks@;
            let t = blocks[j - 1];
            let u = blocks[j];
            blocks[j - 1] = u;
            blocks[j] = t;
            proof {
                let sb = before.subrange(0, n as int);
                lemma_swap_contains(sb, j - 1, j as int);
                assert(blocks@.subrange(0, n as int) =~= sb.update(j - 1, sb[j as int]).update(j as int, sb[j - 1]));
                assert forall|x: Block| #[trigger] blocks@.subrange(0, n as int).contains(x) == b0@.subrange(0, n as int).contains(x) by {
                    assert(sb.update(j - 1, sb[j as int]).update(j as int, sb[j - 1]).contains(x) == sb.contains(x));
                }
            }
            j = j - 1;
        }
        i = i + 1;
    }
    proof {
        let s = blocks@.subrange(0, n as int);
        assert forall|a: int, b: int| 0 <= a <= b < s.len() implies key_of(#[trigger] s[a]) <= key_of(#[trigger] s[b]) by {
            assert(s[a] == blocks@[a] && s[b] == blocks@[b]);
        }
    }
}

/// The inner rank sets of the first `n` blocks.
fn rank_sets(blocks: &[Block; 26], n: usize) -> (r: [BitSet32; 5])
    requires
        n <= 26,
    ensures
        forall|k: int, i: int| 0 <= k < 5 ==> (#[trigger] r[k].has(i) <==> (0 <= i < n && rank_of(blocks@[i]) == k)),
{
    let e = BitSet32::empty();
    let mut r = [e; 5];
    let mut i: usize = 0;
    while i < n
        invariant
            i <= n <= 26,
            forall|k: int, j: int| 0 <= k < 5 ==> (#[trigger] r[k].has(j) <==> (0 <= j < i && rank_of(blocks@[j]) == k)),
        decreases n - i,
    {
        let rank = blocks[i].inner_rank();
        let mut set = r[rank as usize];
        set.set_from_0(i as u8);
        r[rank as usize] = set;
        i = i + 1;
    }
    r
}

/// Lists with the same nonempty blocks hold the same pieces.
proof fn lemma_same_nonempty(s: Seq<Block>, t: Seq<Block>)
    requires
        forall|x: Block| x != Block::spec_empty() ==> (#[trigger] s.contains(x) ==> t.contains(x)),
    ensures
        forall|v: u8| #[trigger] covers(s, v) ==> covers(t, v),
{
    assert forall|v: u8| #[trigger] covers(s, v) implies covers(t, v) by {
        let i = choose|i: int| 0 <= i < s.len() && #[trigger] holds_cell(s[i], v);
        assert(s.contains(s[i]));
        let j = choose|j: int| 0 <= j < t.len() && t[j] == s[i];
        assert(holds_cell(t[j], v));
    }
}

/// The grip, in the solved frame of block `b`, that `grip` acts on.
pub open spec fn solved_grip(b: Block, grip: Grip) -> int {
    b.spec_attitude().inverse().grip_image(grip.spec_id() as int)
}

/// Whether a twist on `grip` moves some piece of `b`.
pub open spec fn has_active_part(b: Block, grip: Grip) -> bool {
    let g = solved_grip(b, grip);
    lay(b.spec_layers(), g / 2, grip_layer(g))
}

/// Whether a twist on `grip` leaves some piece of `b` in place.
pub open spec fn has_inactive_part(b: Block, grip: Grip) -> bool {
    let g = solved_grip(b, grip);
    lay(b.spec_layers(), g / 2, 1) || lay(b.spec_layers(), g / 2, 2 - grip_layer(g))
}

/// Number of blocks of `s` that a twist on `grip` splits in two.
pub open spec fn split_count(s: Seq<Block>, grip: Grip) -> nat
    decreases s.len(),
{
    if s.len() == 0 {
        0
    } else {
        split_count(s.drop_last(), grip) + if has_active_part(s.last(), grip) && has_inactive_part(
            s.last(),
            grip,
        ) {
            1nat
        } else {
            0nat
        }
    }
}

/// The split count of a prefix is at most that of the whole.
proof fn lemma_split_count_prefix(s: Seq<Block>, grip: Grip, i: int)
    requires
        0 <= i <= s.len(),
    ensures
        split_count(s.subrange(0, i), grip) <= split_count(s, grip),
    decreases s.len() - i,
{
    if i < s.len() {
        lemma_split_count_prefix(s, grip, i + 1);
        assert(s.subrange(0, i + 1).drop_last() =~= s.subrange(0, i));
    } else {
        assert(s.subrange(0, i) =~= s);
    }
}

/// Number of pieces, among those whose active grip bits are below `n`, that
/// `block` holds and `s` does not.
pub open spec fn new_cell_count(s: Seq<Block>, block: Block, n: nat) -> nat
    decreases n,
{
    if n == 0 {
        0
    } else {
        new_cell_count(s, block, (n - 1) as nat) + if valid_cell((n - 1) as u8) && holds_cell(
            block,
            (n - 1) as u8,
        ) && !covers(s, (n - 1) as u8) {
            1nat
        } else {
            0nat
        }
    }
}

proof fn lemma_new_cell_count_mono(s: Seq<Block>, block: Block, n: nat, m: nat)
    requires
        n <= m,
    ensures
        new_cell_count(s, block, n) <= new_cell_count(s, block, m),
    decreases m - n,
{
    if n < m {
        lemma_new_cell_count_mono(s, block, n, (m - 1) as nat);
    }
}

/// Appending a block adds its pieces.
proof fn lemma_covers_push(s: Seq<Block>, b: Block, v: u8)
    ensures
        covers(s.push(b), v) == (covers(s, v) || holds_cell(b, v)),
{
    let t = s.push(b);
    if covers(s, v) {
        let i = choose|i: int| 0 <= i < s.len() && #[trigger] holds_cell(s[i], v);
        assert(holds_cell(t[i], v));
    }
    if holds_cell(b, v) {
        assert(holds_cell(t[s.len() as int], v));
    }
    if covers(t, v) {
        let i = choose|i: int| 0 <= i < t.len() && #[trigger] holds_cell(t[i], v);
        if i < s.len() {
            assert(holds_cell(s[i], v));
        }
    }
}

/// Pushing a block adds its pieces.
proof fn lemma_places_push(s: Seq<Block>, b: Block, v: u8, p: Stickers)
    ensures
        places(s.push(b), v, p) == (places(s, v, p) || holds_piece(b, v, p)),
{
    let t = s.push(b);
    if places(s, v, p) {
        let i = choose|i: int| 0 <= i < s.len() && #[trigger] holds_piece(s[i], v, p);
        assert(holds_piece(t[i], v, p));
    }
    if holds_piece(b, v, p) {
        assert(holds_piece(t[s.len() as int], v, p));
    }
    if places(t, v, p) {
        let i = choose|i: int| 0 <= i < t.len() && #[trigger] holds_piece(t[i], v, p);
        if i < s.len() {
            assert(holds_piece(s[i], v, p));
        }
    }
}

/// Pieces are determined by the layers of their solved positions.
proof fn lemma_cell_eq(v: u8, w: u8)
    requires
        valid_cell(v),
        valid_cell(w),
        forall|a: int| 0 <= a < 4 ==> #[trigger] cell_layer(v, a) == cell_layer(w, a),
    ensures
        v == w,
{
    assert forall|i: u8| i < 8 implies bit8(v, i) == bit8(w, i) by {
        let a = (i / 2) as int;
        assert(cell_layer(v, a) == cell_layer(w, a));
        assert(!(bit8(v, (2 * a) as u8) && bit8(v, (2 * a + 1) as u8)));
        assert(!(bit8(w, (2 * a) as u8) && bit8(w, (2 * a + 1) as u8)));
    }
    crate::bits::lemma_bit8_eq(v, w);
}

/// Whether the bits `v` describe the active grips of a piece.
fn is_valid_cell(v: u8) -> (r: bool)
    ensures
        r == valid_cell(v),
{
    let mut a: u8 = 0;
    while a < 4
        invariant
            a <= 4,
            forall|b: int| 0 <= b < a ==> !(#[trigger] bit8(v, (2 * b) as u8) && bit8(v, (2 * b + 1) as u8)),
        decreases 4 - a,
    {
        if (v >> (2 * a)) & 1u8 == 1u8 && (v >> (2 * a + 1)) & 1u8 == 1u8 {
            assert(bit8(v, (2 * a) as u8) && bit8(v, (2 * a + 1) as u8));
            return false;
        }
        a = a + 1;
    }
    true
}

/// The layer, on axis `a`, of the solved piece whose active grips have the
/// bits `v`.
fn cell_layer_of(v: u8, a: u8) -> (k: u16)
    requires
        a < 4,
    ensures
        k == cell_layer(v, a as int),
        k < 3,
{
    if (v >> (2 * a)) & 1u8 == 1u8 {
        0
    } else if (v >> (2 * a + 1)) & 1u8 == 1u8 {
        2
    } else {
        1
    }
}

/// Whether block `b` holds the piece whose solved position has the active
/// grips `v`.
fn block_holds_cell(b: Block, v: u8) -> (r: bool)
    ensures
        r == holds_cell(b, v),
{
    if b.is_empty() {
        return false;
    }
    let l = b.layer_bits();
    let mut a: u8 = 0;
    while a < 4
        invariant
            a <= 4,
            l == b.spec_layers(),
            forall|c: int| 0 <= c < a ==> #[trigger] lay(l, c, cell_layer(v, c)),
        decreases 4 - a,
    {
        let k = cell_layer_of(v, a);
        if (l >> ((a as u16) + 4 * k)) & 1u16 != 1u16 {
            assert(!lay(l, a as int, cell_layer(v, a as int)));
            return false;
        }
        a = a + 1;
    }
    true
}

/// The layer mask of the single piece whose solved position has the active
/// grips `v`.
fn cell_layers(v: u8) -> (l: u16)
    ensures
        l < 4096,
        forall|a: int, k: int| 0 <= a < 4 && 0 <= k < 3 ==> #[trigger] lay(l, a, k) == (k == cell_layer(v, a)),
{
    let mut l: u16 = 0;
    let mut a: u8 = 0;
    proof {
        lemma_bit16_all();
    }
    while a < 4
        invariant
            a <= 4,
            l < 4096,
            forall|c: int, k: int| 0 <= c < 4 && 0 <= k < 3 ==> #[trigger] lay(l, c, k) == (c < a && k == cell_layer(v, c)),
        decreases 4 - a,
    {
        let k = cell_layer_of(v, a);
        let bit = 1u16 << ((a as u16) + 4 * k);
        proof {
            lemma_bit16_all();
            crate::bits::lemma_bit16_zero(bit);
            assert forall|i: u16| 12 <= i < 16 implies !bit16(bit, i) by {
                assert(bit16(1u16 << ((a as u16) + 4 * k), i) == (i == (a as u16) + 4 * k));
            }
            lemma_bit16_ops_4096(l, bit);
            assert forall|c: int, j: int| 0 <= c < 4 && 0 <= j < 3 implies #[trigger] lay(l | bit, c, j) == (c <= a && j
                == cell_layer(v, c)) by {
                assert(bit16(l | bit, (c + 4 * j) as u16) == (bit16(l, (c + 4 * j) as u16) || bit16(bit, (c + 4 * j) as u16)));
                assert(bit16(1u16 << ((a as u16) + 4 * k), (c + 4 * j) as u16) == ((c + 4 * j) as u16 == (a as u16) + 4 * k));
                assert(lay(l, c, j) == (c < a && j == cell_layer(v, c)));
            }
        }
        l = l | bit;
        a = a + 1;
    }
    l
}

/// Partial puzzle state, stored as a list of blocks.
#[derive(Debug, Clone, Copy)]
pub struct BlockList {
    /// List of blocks.
    blocks: [Block; 26],
    /// For each possible inner rank, the indices of the nonempty blocks with
    /// that inner rank.
    inner_ranks: [BitSet32; 5],
    /// Packed metadata.
    meta: BlockListMeta,
}

impl View for BlockList {
    type V = Seq<Block>;

    closed spec fn view(&self) -> Seq<Block> {
        self.blocks@.subrange(0, self.meta.spec_block_count() as int)
    }
}

impl BlockList {
    /// Whether the inner rank sets describe the nonempty blocks.
    pub closed spec fn wf(self) -> bool {
        &&& self.meta.spec_block_count() <= 26
        &&& forall|r: int, i: int|
            0 <= r < 5 ==> (#[trigger] self.inner_ranks[r].has(i) <==> (0 <= i < self.meta.spec_block_count()
                && self.blocks[i] != Block::spec_empty() && rank_of(self.blocks[i]) == r))
    }

    /// The twist count.
    pub closed spec fn spec_twist_count(self) -> nat {
        self.meta.spec_twist_count()
    }

    /// The grips twisted since the last twist on another axis.
    pub closed spec fn spec_twisted(self) -> u8 {
        self.meta.spec_twisted()
    }

    /// Whether grip `g` was twisted since the last twist on another axis.
    pub open spec fn twisted_has(self, g: int) -> bool {
        0 <= g < 8 && bit8(self.spec_twisted(), g as u8)
    }

    /// Whether the list is in canonical form: no empty block, sorted by key,
    /// and nothing left to merge.
    pub open spec fn canonical(self) -> bool {
        &&& self.wf()
        &&& all_nonempty(self@)
        &&& sorted_by_key(self@)
        &&& no_mergeable(self@)
    }

    /// Whether the list is the empty list with fresh metadata.
    pub open spec fn is_empty_list(self) -> bool {
        &&& self.wf()
        &&& self@.len() == 0
        &&& self.spec_twist_count() == 0
        &&& self.spec_twisted() == 0
    }

    /// A list holds at most 26 blocks.
    pub proof fn lemma_len(self)
        requires
            self.wf(),
        ensures
            self@.len() <= 26,
    {
    }

    /// Empty block list
    pub fn empty() -> (r: BlockList)
        ensures
            r.is_empty_list(),
            r.canonical(),
    {
        let e = Block::empty();
        let s = BitSet32::empty();
        let r = BlockList { blocks: [e; 26], inner_ranks: [s, s, s, s, s], meta: BlockListMeta::new() };
        assert(r@ =~= Seq::<Block>::empty());
        assert forall|k: int, i: int| 0 <= k < 5 implies (#[trigger] r.inner_ranks[k].has(i) <==> (0 <= i
            < r.meta.spec_block_count() && r.blocks[i] != Block::spec_empty() && rank_of(r.blocks[i]) == k)) by {
            assert(r.inner_ranks[k] == s);
        }
        r
    }

    /// Returns the number of blocks.
    pub fn len(&self) -> (r: u32)
        requires
            self.wf(),
        ensures
            r == self@.len(),
            r <= 26,
    {
        self.meta.block_count() as u32
    }

    /// Returns whether the list is empty.
    pub fn is_empty(&self) -> (r: bool)
        requires
            self.wf(),
        ensures
            r == (self@.len() == 0),
    {
        self.len() == 0
    }

    /// Returns `Some(self)` if nonempty or `None` if empty.
    pub fn if_nonempty(self) -> (r: Option<BlockList>)
        requires
            self.wf(),
        ensures
            r == (if self@.len() > 0 {
                Some(self)
            } else {
                None
            }),
    {
        if self.is_empty() {
            None
        } else {
            Some(self)
        }
    }

    /// Returns the list of blocks.
    pub fn blocks(&self) -> (r: Vec<Block>)
        requires
            self.wf(),
        ensures
            r@ == self@,
    {
        let n = self.len() as usize;
        let mut r: Vec<Block> = Vec::new();
        let mut i: usize = 0;
        while i < n
            invariant
                self.wf(),
                n == self@.len(),
                i <= n,
                r@ == self@.subrange(0, i as int),
            decreases n - i,
        {
            r.push(self.blocks[i]);
            i = i + 1;
            assert(r@ =~= self@.subrange(0, i as int));
        }
        r
    }

    /// Returns the block at `index`.
    pub fn get(&self, index: u32) -> (b: Block)
        requires
            self.wf(),
            index < self@.len(),
        ensures
            b == self@[index as int],
    {
        self.blocks[index as usize]
    }

    /// Returns the nonempty blocks with a specific inner rank, in order.
    pub fn blocks_with_inner_rank(&self, inner_rank: u8) -> (r: Vec<Block>)
        requires
            self.wf(),
            inner_rank < 5,
        ensures
            r@ == with_rank(self@, inner_rank as int),
    {
        let n = self.len() as usize;
        let ranks = self.inner_ranks[inner_rank as usize];
        let mut r: Vec<Block> = Vec::new();
        let mut i: usize = 0;
        while i < n
            invariant
                self.wf(),
                n == self@.len(),
                inner_rank < 5,
                ranks == self.inner_ranks[inner_rank as int],
                i <= n,
                r@ == with_rank(self@.subrange(0, i as int), inner_rank as int),
            decreases n - i,
        {
            let ghost s = self@.subrange(0, i + 1);
            assert(s.drop_last() =~= self@.subrange(0, i as int));
            if ranks.get(i as u8) {
                r.push(self.blocks[i]);
            }
            i = i + 1;
        }
        assert(self@.subrange(0, n as int) =~= self@);
        r
    }

    /// Adds a nonempty block to the end of the list and updates the inner
    /// rank sets. Returns an error, leaving the list unchanged, if the list is
    /// full.
    pub fn push(&mut self, block: Block) -> (r: Result<(), ()>)
        requires
            old(self).wf(),
            block != Block::spec_empty(),
        ensures
            final(self).wf(),
            r is Ok <==> old(self)@.len() < 26,
            r is Ok ==> final(self)@ == old(self)@.push(block),
            r is Err ==> *final(self) == *old(self),
            final(self).spec_twist_count() == old(self).spec_twist_count(),
            final(self).spec_twisted() == old(self).spec_twisted(),
    {
        let i = self.len();
        if i >= MAX_BLOCK_COUNT {
            return Err(());
        }
        let rank = block.inner_rank();
        let mut ranks = self.inner_ranks[rank as usize];
        ranks.set_from_0(i as u8);
        self.inner_ranks[rank as usize] = ranks;
        self.blocks[i as usize] = block;
        self.meta.increment_block_count();
        proof {
            assert forall|r: int, j: int| 0 <= r < 5 implies (#[trigger] self.inner_ranks[r].has(j) <==> (0 <= j
                < self.meta.spec_block_count() && self.blocks[j] != Block::spec_empty() && rank_of(
                self.blocks[j],
            ) == r)) by {
                assert(old(self).inner_ranks[r].has(j) <==> (0 <= j < old(self).meta.spec_block_count()
                    && old(self).blocks[j] != Block::spec_empty() && rank_of(old(self).blocks[j]) == r));
            }
            assert(self@ =~= old(self)@.push(block));
        }
        Ok(())
    }

    /// Replaces a nonempty block with another nonempty block of the same inner
    /// rank.
    fn set_block_with_same_rank(&mut self, index: u32, new: Block)
        requires
            old(self).wf(),
            index < old(self)@.len(),
            old(self)@[index as int] != Block::spec_empty(),
            new != Block::spec_empty(),
            rank_of(new) == rank_of(old(self)@[index as int]),
        ensures
            final(self).wf(),
            final(self)@ == old(self)@.update(index as int, new),
            final(self).inner_ranks == old(self).inner_ranks,
            final(self).meta == old(self).meta,
    {
        self.blocks[index as usize] = new;
        proof {
            assert forall|r: int, j: int| 0 <= r < 5 implies (#[trigger] self.inner_ranks[r].has(j) <==> (0 <= j
                < self.meta.spec_block_count() && self.blocks[j] != Block::spec_empty() && rank_of(
                self.blocks[j],
            ) == r)) by {
                assert(old(self).inner_ranks[r].has(j) <==> (0 <= j < old(self).meta.spec_block_count()
                    && old(self).blocks[j] != Block::spec_empty() && rank_of(old(self).blocks[j]) == r));
            }
            assert(self@ =~= old(self)@.update(index as int, new));
        }
    }

    /// Replaces a nonempty block with the empty block and updates the inner
    /// rank sets; the length stays the same.
    fn remove_block(&mut self, index: u32)
        requires
            old(self).wf(),
            index < old(self)@.len(),
            old(self)@[index as int] != Block::spec_empty(),
        ensures
            final(self).wf(),
            final(self)@ == old(self)@.update(index as int, Block::spec_empty()),
            final(self).meta == old(self).meta,
            forall|r: int| 0 <= r < 5 && r != rank_of(old(self)@[index as int]) ==> final(self).inner_ranks[r]
                == old(self).inner_ranks[r],
    {
        let old_block = self.blocks[index as usize];
        let rank = old_block.inner_rank();
        let mut ranks = self.inner_ranks[rank as usize];
        ranks.clear_from_1(index as u8);
        self.inner_ranks[rank as usize] = ranks;
        self.blocks[index as usize] = Block::empty();
        proof {
            assert forall|r: int, j: int| 0 <= r < 5 implies (#[trigger] self.inner_ranks[r].has(j) <==> (0 <= j
                < self.meta.spec_block_count() && self.blocks[j] != Block::spec_empty() && rank_of(
                self.blocks[j],
            ) == r)) by {
                assert(old(self).inner_ranks[r].has(j) <==> (0 <= j < old(self).meta.spec_block_count()
                    && old(self).blocks[j] != Block::spec_empty() && rank_of(old(self).blocks[j]) == r));
            }
            assert(self@ =~= old(self)@.update(index as int, Block::spec_empty()));
        }
    }

    /// Looks, among the nonempty blocks of inner rank `head_rank`, in order,
    /// for the first that merges with `body`.
    fn find_head(&self, body: Block, head_rank: u8) -> (r: Option<u8>)
        requires
            self.wf(),
            head_rank < 5,
        ensures
            r matches Some(j) ==> j < self@.len() && self.inner_ranks[head_rank as int].has(j as int)
                && merged(body, self@[j as int]) != Block::spec_empty(),
            r is None ==> forall|j: int|
                0 <= j < self@.len() && self@[j] != Block::spec_empty() && rank_of(self@[j]) == head_rank
                    ==> merged(body, #[trigger] self@[j]) == Block::spec_empty(),
    {
        let ranks = self.inner_ranks[head_rank as usize];
        let candidates = ranks.iter();
        proof {
            ranks.lemma_members();
        }
        let mut k: usize = 0;
        while k < candidates.len()
            invariant
                self.wf(),
                head_rank < 5,
                ranks == self.inner_ranks[head_rank as int],
                candidates@.len() == ranks.members().len(),
                forall|i: int| 0 <= i < candidates.len() ==> candidates[i] as int == #[trigger] ranks.members()[i],
                forall|i: int| 0 <= i < ranks.members().len() ==> 0 <= #[trigger] ranks.members()[i] < 32,
                forall|i: int| 0 <= i < 32 ==> (ranks.has(i) <==> ranks.members().contains(i)),
                k <= candidates.len(),
                forall|i: int| 0 <= i < k ==> merged(body, #[trigger] self.blocks[candidates[i] as int]) == Block::spec_empty(),
            decreases candidates.len() - k,
        {
            let j = candidates[k];
            assert(ranks.members()[k as int] == j as int);
            assert(ranks.members().contains(j as int));
            assert(ranks.has(j as int));
            let head = self.blocks[j as usize];
            if !Block::merge(body, head).is_empty() {
                return Some(j);
            }
            k = k + 1;
        }
        proof {
            assert forall|j: int|
                0 <= j < self@.len() && self@[j] != Block::spec_empty() && rank_of(self@[j]) == head_rank
                    implies merged(body, #[trigger] self@[j]) == Block::spec_empty() by {
                assert(ranks.has(j));
                let i = choose|i: int| 0 <= i < ranks.members().len() && ranks.members()[i] == j;
                assert(candidates[i] as int == j);
            }
        }
        None
    }

    /// Merges all blocks that can be merged, in one pass over body ranks from
    /// largest to smallest. Returns whether any blocks were merged.
    fn merge_blocks(&mut self) -> (any_merged: bool)
        requires
            old(self).wf(),
        ensures
            final(self).wf(),
            final(self)@.len() == old(self)@.len(),
            final(self).meta == old(self).meta,
            same_cells(final(self)@, old(self)@),
            centers_home(old(self)@) ==> centers_home(final(self)@) && same_pieces(final(self)@, old(self)@),
            any_merged ==> nonempty_count(final(self)@) < nonempty_count(old(self)@),
            !any_merged ==> *final(self) == *old(self) && no_mergeable(old(self)@),
            no_mergeable(old(self)@) ==> !any_merged,
    {
        let ghost s0 = old(self)@;
        let mut any_merged = false;
        let mut body_rank: u8 = 4;
        while body_rank > 0
            invariant
                self.wf(),
                old(self).wf(),
                s0 == old(self)@,
                body_rank <= 4,
                self@.len() == s0.len(),
                self.meta == old(self).meta,
                same_cells(self@, s0),
                centers_home(s0) ==> centers_home(self@) && same_pieces(self@, s0),
                any_merged ==> nonempty_count(self@) < nonempty_count(s0),
                !any_merged ==> *self == *old(self),
                no_mergeable(s0) ==> !any_merged,
                !any_merged ==> forall|i: int, j: int|
                    0 <= i < s0.len() && 0 <= j < s0.len() && s0[i] != Block::spec_empty() && s0[j] != Block::spec_empty()
                        && rank_of(s0[i]) >= body_rank && rank_of(s0[j]) == rank_of(s0[i]) + 1 ==> merged(
                        #[trigger] s0[i],
                        #[trigger] s0[j],
                    ) == Block::spec_empty(),
            decreases body_rank,
        {
            body_rank = body_rank - 1;
            let head_rank = body_rank + 1;
            let ranks = self.inner_ranks[body_rank as usize];
            let candidates = ranks.iter();
            proof {
                ranks.lemma_members();
            }
            let mut k: usize = 0;
            while k < candidates.len()
                invariant
                    self.wf(),
                    old(self).wf(),
                    s0 == old(self)@,
                    body_rank < 4,
                    head_rank == body_rank + 1,
                    ranks == self.inner_ranks[body_rank as int],
                    candidates@.len() == ranks.members().len(),
                    forall|i: int| 0 <= i < candidates.len() ==> candidates[i] as int == #[trigger] ranks.members()[i],
                    forall|i: int| 0 <= i < ranks.members().len() ==> 0 <= #[trigger] ranks.members()[i] < 32,
                    forall|i: int| 0 <= i < 32 ==> (ranks.has(i) <==> ranks.members().contains(i)),
                    k <= candidates.len(),
                    self@.len() == s0.len(),
                    self.meta == old(self).meta,
                    same_cells(self@, s0),
                    centers_home(s0) ==> centers_home(self@) && same_pieces(self@, s0),
                    any_merged ==> nonempty_count(self@) < nonempty_count(s0),
                    !any_merged ==> *self == *old(self),
                    no_mergeable(s0) ==> !any_merged,
                    !any_merged ==> forall|i: int, j: int|
                        0 <= i < s0.len() && 0 <= j < s0.len() && s0[i] != Block::spec_empty() && s0[j]
                            != Block::spec_empty() && rank_of(s0[i]) > body_rank && rank_of(s0[j]) == rank_of(s0[i])
                            + 1 ==> merged(#[trigger] s0[i], #[trigger] s0[j]) == Block::spec_empty(),
                    !any_merged ==> forall|c: int, j: int|
                        0 <= c < k && 0 <= j < s0.len() && s0[j] != Block::spec_empty() && rank_of(s0[j])
                            == head_rank ==> merged(s0[#[trigger] candidates[c] as int], #[trigger] s0[j])
                            == Block::spec_empty(),
                decreases candidates.len() - k,
            {
                let body_index = candidates[k];
                assert(ranks.members()[k as int] == body_index as int);
                assert(ranks.members().contains(body_index as int));
                assert(ranks.has(body_index as int));
                let body = self.blocks[body_index as usize];
                match self.find_head(body, head_rank) {
                    Some(head_index) => {
                        let head = self.blocks[head_index as usize];
                        let mg = Block::merge(body, head);
                        let ghost s1 = self@;
                        let _ = body.layer_bits();
                        let _ = head.layer_bits();
                        let _ = head.attitude().id();
                        let _ = body.attitude().id();
                        proof {
                            assert(self.inner_ranks[head_rank as int].has(head_index as int));
                            assert(s1[head_index as int] == head);
                            assert(s1[body_index as int] == body);
                            lemma_merged_cells(body, head);
                            if no_mergeable(s0) && !any_merged {
                                assert(s0.contains(body));
                                assert(s0.contains(head));
                            }
                        }
                        self.remove_block(head_index as u32);
                        let ghost s2 = self@;
                        self.set_block_with_same_rank(body_index as u32, mg);
                        proof {
                            let s3 = self@;
                            lemma_nonempty_count_update(s1, head_index as int, Block::spec_empty());
                            lemma_nonempty_count_update(s2, body_index as int, mg);
                            if centers_home(s0) {
                                assert(s3 == s1.update(head_index as int, Block::spec_empty()).update(
                                    body_index as int,
                                    merged(s1[body_index as int], s1[head_index as int]),
                                ));
                                lemma_merge_step_pieces(s1, body_index as int, head_index as int);
                                assert forall|v: u8, p: Stickers| #[trigger] places(s3, v, p) == places(s0, v, p) by {
                                    assert(places(s3, v, p) == places(s1, v, p));
                                    assert(places(s1, v, p) == places(s0, v, p));
                                }
                            }
                            assert forall|v: u8| #[trigger] covers(s3, v) == covers(s1, v) by {
                                if covers(s1, v) {
                                    let i = choose|i: int| 0 <= i < s1.len() && #[trigger] holds_cell(s1[i], v);
                                    if i == head_index || i == body_index {
                                        assert(holds_cell(s3[body_index as int], v));
                                    } else {
                                        assert(holds_cell(s3[i], v));
                                    }
                                }
                                if covers(s3, v) {
                                    let i = choose|i: int| 0 <= i < s3.len() && #[trigger] holds_cell(s3[i], v);
                                    if i == body_index {
                                        if holds_cell(body, v) {
                                            assert(holds_cell(s1[body_index as int], v));
                                        } else {
                                            assert(holds_cell(s1[head_index as int], v));
                                        }
                                    } else {
                                        assert(i != head_index);
                                        assert(holds_cell(s1[i], v));
                                    }
                                }
                            }
                        }
                        any_merged = true;
                    },
                    None => {},
                }
                k = k + 1;
            }
            proof {
                if !any_merged {
                    assert forall|i: int, j: int|
                        0 <= i < s0.len() && 0 <= j < s0.len() && s0[i] != Block::spec_empty() && s0[j]
                            != Block::spec_empty() && rank_of(s0[i]) >= body_rank && rank_of(s0[j]) == rank_of(s0[i])
                            + 1 implies merged(#[trigger] s0[i], #[trigger] s0[j]) == Block::spec_empty() by {
                        if rank_of(s0[i]) == body_rank {
                            assert(ranks.has(i));
                            let c = choose|c: int| 0 <= c < ranks.members().len() && ranks.members()[c] == i;
                            assert(candidates[c] as int == i);
                        }
                    }
                }
            }
        }
        proof {
            if !any_merged {
                assert forall|x: Block, y: Block|
                    s0.contains(x) && s0.contains(y) && x != Block::spec_empty() && y != Block::spec_empty()
                        && rank_of(y) == rank_of(x) + 1 implies merged(x, y) == Block::spec_empty() by {
                    let i = choose|i: int| 0 <= i < s0.len() && s0[i] == x;
                    let j = choose|j: int| 0 <= j < s0.len() && s0[j] == y;
                    assert(merged(s0[i], s0[j]) == Block::spec_empty());
                }
            }
        }
        any_merged
    }

    /// Merges blocks until nothing more can be merged, then drops the empty
    /// blocks, sorts by key and rebuilds the inner rank sets.
    fn cleanup_inner(&mut self)
        requires
            old(self).wf(),
        ensures
            final(self).canonical(),
            same_cells(final(self)@, old(self)@),
            centers_home(old(self)@) ==> centers_home(final(self)@) && same_pieces(final(self)@, old(self)@),
            final(self)@.len() <= old(self)@.len(),
            final(self).spec_twist_count() == old(self).spec_twist_count(),
            final(self).spec_twisted() == old(self).spec_twisted(),
            old(self).canonical() ==> *final(self) == *old(self),
    {
        let ghost s0 = self@;
        loop
            invariant
                self.wf(),
                old(self).wf(),
                s0 == old(self)@,
                same_cells(self@, s0),
                centers_home(s0) ==> centers_home(self@) && same_pieces(self@, s0),
                self@.len() == s0.len(),
                self.meta == old(self).meta,
                old(self).canonical() ==> *self == *old(self),
            ensures
                self.wf(),
                same_cells(self@, s0),
                centers_home(s0) ==> centers_home(self@) && same_pieces(self@, s0),
                self@.len() == s0.len(),
                self.meta == old(self).meta,
                no_mergeable(self@),
                old(self).canonical() ==> *self == *old(self),
            decreases nonempty_count(self@),
        {
            if !self.merge_blocks() {
                break;
            }
        }
        let ghost s1 = self@;
        let ghost before = *self;
        let len0 = self.len() as usize;
        let mut blocks = self.blocks;
        assert(blocks@.subrange(0, len0 as int) =~= s1);
        let n = remove_empties(&mut blocks, len0);
        let ghost filtered = blocks@.subrange(0, n as int);
        sort_by_key(&mut blocks, n);
        let ranks = rank_sets(&blocks, n);
        let ghost s2 = blocks@.subrange(0, n as int);
        proof {
            assert forall|k: int| 0 <= k < n implies #[trigger] blocks@[k] != Block::spec_empty() by {
                assert(s2[k] == blocks@[k]);
                assert(s2.contains(blocks@[k]));
                assert(filtered.contains(blocks@[k]));
                let j = choose|j: int| 0 <= j < filtered.len() && filtered[j] == blocks@[k];
            }
            assert forall|x: Block| x != Block::spec_empty() implies (#[trigger] s2.contains(x) == s1.contains(x)) by {
                assert(s2.contains(x) == filtered.contains(x));
            }
            lemma_same_nonempty(s2, s1);
            lemma_same_nonempty(s1, s2);
            lemma_pieces_same_nonempty(s2, s1);
            lemma_pieces_same_nonempty(s1, s2);
            assert forall|x: Block, y: Block|
                #![trigger s2.contains(x), s2.contains(y)]
                s2.contains(x) && s2.contains(y) && x != Block::spec_empty() && y != Block::spec_empty()
                    && rank_of(y) == rank_of(x) + 1 implies merged(x, y) == Block::spec_empty() by {
                assert(s1.contains(x) && s1.contains(y));
            }
        }
        self.blocks = blocks;
        self.inner_ranks = ranks;
        self.meta.set_block_count(n as u8);
        proof {
            assert(self@ =~= s2);
            assert forall|k: int, i: int| 0 <= k < 5 implies (#[trigger] self.inner_ranks[k].has(i) <==> (0 <= i
                < self.meta.spec_block_count() && self.blocks[i] != Block::spec_empty() && rank_of(self.blocks[i])
                == k)) by {}
            assert(all_nonempty(self@));
            assert forall|v: u8| #[trigger] covers(self@, v) == covers(s0, v) by {
                assert(covers(s2, v) == covers(s1, v));
                assert(covers(s1, v) == covers(s0, v));
            }
            if centers_home(s0) {
                assert forall|v: u8, p: Stickers| #[trigger] places(self@, v, p) == places(s0, v, p) by {
                    assert(places(s2, v, p) == places(s1, v, p));
                    assert(places(s1, v, p) == places(s0, v, p));
                }
            }
            if old(self).canonical() {
                assert(before == *old(self));
                assert(all_nonempty(s1));
                assert(blocks == before.blocks);
                assert forall|k: int| 0 <= k < 5 implies self.inner_ranks[k] == before.inner_ranks[k] by {
                    assert forall|i: int| 0 <= i < 32 implies self.inner_ranks[k].has(i) == before.inner_ranks[k].has(i) by {}
                    BitSet32::lemma_ext(self.inner_ranks[k], before.inner_ranks[k]);
                }
                assert(self.inner_ranks =~= before.inner_ranks);
                BlockListMeta::lemma_eq(self.meta, before.meta);
            }
        }
    }

    /// Merges blocks and sorts them, canonicalizing the whole list.
    pub fn cleanup(&mut self)
        requires
            old(self).wf(),
        ensures
            final(self).canonical(),
            same_cells(final(self)@, old(self)@),
            centers_home(old(self)@) ==> centers_home(final(self)@) && same_pieces(final(self)@, old(self)@),
            final(self)@.len() <= old(self)@.len(),
            final(self).spec_twist_count() == old(self).spec_twist_count(),
            final(self).spec_twisted() == old(self).spec_twisted(),
            old(self).canonical() ==> *final(self) == *old(self),
    {
        self.cleanup_inner();
    }

    /// Applies a twist. Returns the empty list if there would be too many
    /// blocks.
    pub fn twist(&self, twist: Twist) -> (r: BlockList)
        requires
            self.wf(),
            twist.transform.spec_id() != 0,
            self.spec_twist_count() < 65535,
        ensures
            self@.len() + split_count(self@, twist.grip) > 26 ==> r.is_empty_list(),
            self@.len() + split_count(self@, twist.grip) <= 26 ==> {
                &&& r.canonical()
                &&& same_cells(r@, self@)
                &&& r.spec_twist_count() == self.spec_twist_count() + if self.twisted_has(
                    twist.grip.spec_id() as int,
                ) {
                    0int
                } else {
                    1int
                }
                &&& forall|g: int|
                    #[trigger] r.twisted_has(g) == (g == twist.grip.spec_id() || (
                    self.twisted_has(g) && g / 2 == twist.grip.spec_id() / 2))
                &&& centers_home(self@) && fixes_grip(twist.transform, twist.grip) ==> centers_home(r@)
                    && twisted_pieces(self@, r@, twist)
            },
    {
        let mut ret = *self;
        ret.meta.count_twist_on_grip(twist.grip);
        let ghost m1 = ret.meta;
        assert(m1.spec_twist_count() == self.meta.spec_twist_count() + if self.meta.twisted_has(
            twist.grip.spec_id() as int,
        ) {
            0int
        } else {
            1int
        });
        assert(forall|g: int| #[trigger] m1.twisted_has(g) == (g == twist.grip.spec_id() || (
            self.meta.twisted_has(g) && g / 2 == twist.grip.spec_id() / 2)));
        let ghost s0 = self@;
        let n = ret.len();
        let _ = twist.grip.id();
        let _ = twist.transform.id();
        let mut i: u32 = 0;
        let ghost mut src: Seq<int> = seq![];
        proof {
            assert(s0.subrange(0, 0) =~= Seq::<Block>::empty());
            assert(ret@ =~= s0);
        }
        while i < n
            invariant
                twist_progress(s0, ret@, src, n as int, i as int, twist),
                self.wf(),
                ret.wf(),
                s0 == self@,
                n == s0.len(),
                i <= n,
                twist.transform.spec_id() < 192,
                twist.grip.spec_id() < 8,
                ret@.len() == n + split_count(s0.subrange(0, i as int), twist.grip),
                forall|k: int| i <= k < n ==> #[trigger] ret@[k] == s0[k],
                same_cells(ret@, s0),
                ret.meta.spec_twist_count() == m1.spec_twist_count(),
                ret.meta.spec_twisted() == m1.spec_twisted(),
            decreases n - i,
        {
            let block = ret.get(i);
            let parts = block.split(twist.grip);
            let active = parts[0];
            let inactive = parts[1];
            let _ = block.layer_bits();
            let _ = active.layer_bits();
            let att = block.attitude();
            let _ = att.id();
            let ghost g = solved_grip(block, twist.grip);
            proof {
                Elem::lemma_valid(att, att);
                Elem::lemma_action(att.inverse(), att, twist.grip.spec_id() as int);
                assert(0 <= g < 8);
                lemma_split_cells(block, active, inactive, g / 2, grip_layer(g));
                assert(s0.subrange(0, i + 1).drop_last() =~= s0.subrange(0, i as int));
                assert(s0.subrange(0, i + 1).last() == block);
            }
            let ghost s1 = ret@;
            let ghost src1 = src;
            proof {
                lemma_twist_block_pieces(block, active, inactive, twist);
            }
            if active.is_empty() {
                proof {
                    assert forall|v: u8| #[trigger] covers(ret@, v) == covers(s0, v) by {
                        assert(covers(s1, v) == covers(s0, v));
                    }
                    lemma_twist_progress_step(s0, s1, ret@, src1, src, n as int, i as int, twist);
                }
            } else {
                let _ = active.layer_bits();
                let _ = active.attitude().id();
                let moved = twist.transform * active;
                proof {
                    lemma_moved_cells(active, twist.transform);
                    lemma_empty_layers();
                    assert(lay(active.spec_layers(), g / 2, grip_layer(g)));
                    assert(active.spec_layers() != 0);
                    assert(moved != Block::spec_empty());
                }
                if inactive.is_empty() {
                    ret.set_block_with_same_rank(i, moved);
                    proof {
                        let s2 = ret@;
                        assert forall|v: u8| #[trigger] covers(s2, v) == covers(s0, v) by {
                            assert(covers(s1, v) == covers(s0, v));
                            if covers(s1, v) {
                                let k = choose|k: int| 0 <= k < s1.len() && #[trigger] holds_cell(s1[k], v);
                                assert(holds_cell(s2[k], v));
                            }
                            if covers(s2, v) {
                                let k = choose|k: int| 0 <= k < s2.len() && #[trigger] holds_cell(s2[k], v);
                                assert(holds_cell(s1[k], v));
                            }
                        }
                        lemma_twist_progress_step(s0, s1, s2, src1, src, n as int, i as int, twist);
                    }
                } else {
                    ret.set_block_with_same_rank(i, inactive);
                    let ghost s2 = ret@;
                    if ret.push(moved).is_err() {
                        proof {
                            lemma_split_count_prefix(s0, twist.grip, i + 1);
                        }
                        return BlockList::empty();
                    }
                    proof {
                        let s3 = ret@;
                        assert(s3 == s2.push(moved));
                        src = src1.push(i as int);
                        lemma_twist_progress_step(s0, s1, s3, src1, src, n as int, i as int, twist);
                        assert forall|v: u8| #[trigger] covers(s3, v) == covers(s0, v) by {
                            assert(covers(s1, v) == covers(s0, v));
                            if covers(s1, v) {
                                let k = choose|k: int| 0 <= k < s1.len() && #[trigger] holds_cell(s1[k], v);
                                if k == i {
                                    if holds_cell(active, v) {
                                        assert(holds_cell(s3[s2.len() as int], v));
                                    } else {
                                        assert(holds_cell(s3[k], v));
                                    }
                                } else {
                                    assert(holds_cell(s3[k], v));
                                }
                            }
                            if covers(s3, v) {
                                let k = choose|k: int| 0 <= k < s3.len() && #[trigger] holds_cell(s3[k], v);
                                if k == s2.len() || k == i {
                                    assert(holds_cell(s1[i as int], v));
                                } else {
                                    assert(holds_cell(s1[k], v));
                                }
                            }
                        }
                    }
                }
            }
            i = i + 1;
        }
        proof {
            assert(s0.subrange(0, n as int) =~= s0);
            lemma_twist_progress_done(s0, ret@, src, twist);
        }
        let ghost before_cleanup = ret@;
        ret.cleanup();
        proof {
            assert forall|v: u8| #[trigger] covers(ret@, v) == covers(s0, v) by {}
            assert forall|g: int| #[trigger] ret.twisted_has(g) == (g == twist.grip.spec_id() || (
                self.twisted_has(g) && g / 2 == twist.grip.spec_id() / 2)) by {
                assert(ret.twisted_has(g) == m1.twisted_has(g));
                assert(self.twisted_has(g) == self.meta.twisted_has(g));
            }
            assert(self.twisted_has(twist.grip.spec_id() as int) == self.meta.twisted_has(
                twist.grip.spec_id() as int,
            ));
            if centers_home(s0) && fixes_grip(twist.transform, twist.grip) {
                assert forall|v: u8, p: Stickers| #[trigger] places(ret@, v, p) == exists|q: Stickers|
                    #[trigger] places(s0, v, q) && p == twisted_placement(q, twist) by {
                    assert(places(ret@, v, p) == places(before_cleanup, v, p));
                }
            }
        }
        ret
    }

    /// Returns whether some block of the list holds the piece whose solved
    /// position has the active grips `v`.
    fn covers_cell(&self, v: u8) -> (r: bool)
        requires
            self.wf(),
        ensures
            r == covers(self@, v),
    {
        let n = self.len();
        let mut i: u32 = 0;
        while i < n
            invariant
                self.wf(),
                n == self@.len(),
                i <= n,
                forall|k: int| 0 <= k < i ==> !#[trigger] holds_cell(self@[k], v),
            decreases n - i,
        {
            if block_holds_cell(self.get(i), v) {
                return true;
            }
            i = i + 1;
        }
        false
    }

    /// Adds the pieces of `block` that the list does not hold yet, each with
    /// the attitude it gets from `setup_moves` applied in order, then
    /// canonicalizes the list. The attitude of `block` is ignored. Returns the
    /// empty list if there would be too many blocks.
    pub fn add_block_with_setup_moves(&self, setup_moves: &[Twist], block: Block) -> (r: BlockList)
        requires
            self.wf(),
        ensures
            self@.len() + new_cell_count(self@, block, 256) > 26 ==> r.is_empty_list(),
            self@.len() + new_cell_count(self@, block, 256) <= 26 ==> {
                &&& r.canonical()
                &&& r.spec_twist_count() == self.spec_twist_count()
                &&& r.spec_twisted() == self.spec_twisted()
                &&& forall|v: u8|
                    valid_cell(v) ==> (#[trigger] covers(r@, v) == (covers(self@, v) || holds_cell(block, v)))
                &&& centers_home(self@) && twists_valid(setup_moves@) ==> centers_home(r@) && forall|v: u8, p: Stickers|
                    valid_cell(v) ==> (#[trigger] places(r@, v, p) == (places(self@, v, p) || (!covers(self@, v)
                        && holds_cell(block, v) && p == setup_placement(setup_moves@, v))))
            },
    {
        let mut ret = *self;
        let ghost s0 = self@;
        let mut v: u16 = 0;
        while v < 256
            invariant
                self.wf(),
                ret.wf(),
                s0 == self@,
                v <= 256,
                ret@.len() == s0.len() + new_cell_count(s0, block, v as nat),
                ret.spec_twist_count() == self.spec_twist_count(),
                ret.spec_twisted() == self.spec_twisted(),
                forall|w: u8|
                    valid_cell(w) ==> (#[trigger] covers(ret@, w) == (covers(s0, w) || (w < v && holds_cell(block, w)))),
                forall|w: u8, p: Stickers|
                    valid_cell(w) ==> (#[trigger] places(ret@, w, p) == (places(s0, w, p) || (w < v && !covers(s0, w)
                        && holds_cell(block, w) && p == setup_placement(setup_moves@, w)))),
                centers_home(s0) && twists_valid(setup_moves@) ==> centers_home(ret@),
            decreases 256 - v,
        {
            let cell = v as u8;
            if is_valid_cell(cell) && block_holds_cell(block, cell) && !self.covers_cell(cell) {
                let gs = crate::sim::common::GripSet::from_bits(cell);
                let grips = gs.iter();
                let piece = crate::sim::common::Piece::new_solved(grips.as_slice());
                proof {
                    gs.lemma_members();
                    assert forall|g: int| 0 <= g < 8 implies #[trigger] piece.grips.has(g) == bit8(cell, g as u8) by {
                        if gs.has(g) {
                            let i = choose|i: int| 0 <= i < gs.members().len() && gs.members()[i] == g;
                            assert(grips[i].spec_id() == g);
                        }
                        if exists|i: int| 0 <= i < grips.len() && grips[i].spec_id() == g {
                            let i = choose|i: int| 0 <= i < grips.len() && grips[i].spec_id() == g;
                            assert(gs.members().contains(g));
                        }
                    }
                    lemma_solved_piece_matches(piece, cell);
                    assert(setup_moves@.take(0) =~= Seq::<Twist>::empty());
                }
                let mut moved = piece;
                let mut k: usize = 0;
                while k < setup_moves.len()
                    invariant
                        k <= setup_moves.len(),
                        piece_matches(moved, cell),
                        placement(moved.attitude, cell) == setup_placement(setup_moves@.take(k as int), cell),
                    decreases setup_moves.len() - k,
                {
                    let tw = setup_moves[k];
                    let _ = tw.transform.id();
                    let _ = tw.grip.id();
                    proof {
                        lemma_twist_piece(moved, tw, cell);
                        assert(setup_moves@.take(k + 1).drop_last() == setup_moves@.take(k as int));
                        assert(setup_moves@.take(k + 1).last() == tw);
                    }
                    moved = tw * moved;
                    k = k + 1;
                }
                proof {
                    assert(setup_moves@.take(setup_moves.len() as int) == setup_moves@);
                }
                let l = cell_layers(cell);
                let solved = Block::from_layer_bits(l);
                let _ = moved.attitude.id();
                let new_block = moved.attitude * solved;
                proof {
                    Block::lemma_with(l, Elem::with_id(0));
                    lemma_moved_cells(solved, moved.attitude);
                    lemma_empty_layers();
                    assert(lay(l, 0, cell_layer(cell, 0)));
                    assert(l != 0);
                    assert(new_block != Block::spec_empty());
                    Elem::lemma_valid(moved.attitude, solved.spec_attitude());
                    Block::lemma_with(l, moved.attitude.product(solved.spec_attitude()));
                    lemma_placement_product(moved.attitude, solved.spec_attitude(), cell);
                    lemma_placement_ident(cell);
                    assert(placement(new_block.spec_attitude(), cell) == setup_placement(setup_moves@, cell));
                    assert forall|w: u8| #[trigger] holds_cell(new_block, w) implies placement(new_block.spec_attitude(), w)
                        == setup_placement(setup_moves@, cell) && sticker_count(w) == sticker_count(cell)
                        && home_placement(w) == home_placement(cell) by {
                        assert(holds_cell(solved, w));
                        assert forall|a: int| 0 <= a < 4 implies #[trigger] cell_layer(cell, a) == cell_layer(w, a) by {
                            assert(lay(l, a, cell_layer(w, a)));
                        }
                        lemma_same_layers_placement(cell, w);
                    }
                    if twists_valid(setup_moves@) && sticker_count(cell) == 1 {
                        lemma_setup_center(setup_moves@, cell);
                    }
                }
                let ghost s1 = ret@;
                if ret.push(new_block).is_err() {
                    proof {
                        lemma_new_cell_count_mono(s0, block, (v + 1) as nat, 256);
                    }
                    return BlockList::empty();
                }
                proof {
                    assert forall|w: u8, p: Stickers|
                        valid_cell(w) implies (#[trigger] places(ret@, w, p) == (places(s0, w, p) || (w < v + 1
                        && !covers(s0, w) && holds_cell(block, w) && p == setup_placement(setup_moves@, w)))) by {
                        lemma_places_push(s1, new_block, w, p);
                        if holds_cell(new_block, w) {
                            assert(holds_cell(solved, w));
                            assert forall|a: int| 0 <= a < 4 implies #[trigger] cell_layer(cell, a) == cell_layer(w, a) by {
                                assert(lay(l, a, cell_layer(w, a)));
                            }
                            lemma_cell_eq(cell, w);
                        }
                        if w == cell {
                            assert(holds_cell(solved, w));
                        }
                    }
                    if centers_home(s0) && twists_valid(setup_moves@) {
                        assert forall|i: int, w: u8|
                            0 <= i < ret@.len() && #[trigger] holds_cell(ret@[i], w) && sticker_count(w) == 1 implies placement(
                            ret@[i].spec_attitude(),
                            w,
                        ) == home_placement(w) by {
                            if i < s1.len() {
                                assert(ret@[i] == s1[i]);
                            } else {
                                assert(ret@[i] == new_block);
                            }
                        }
                    }
                    assert forall|w: u8|
                        valid_cell(w) implies (#[trigger] covers(ret@, w) == (covers(s0, w) || (w < v + 1 && holds_cell(
                        block,
                        w,
                    )))) by {
                        lemma_covers_push(s1, new_block, w);
                        if holds_cell(new_block, w) {
                            assert(holds_cell(solved, w));
                            assert forall|a: int| 0 <= a < 4 implies #[trigger] cell_layer(cell, a) == cell_layer(w, a) by {
                                assert(lay(l, a, cell_layer(w, a)));
                            }
                            lemma_cell_eq(cell, w);
                        }
                        if w == cell {
                            assert(holds_cell(solved, w));
                        }
                    }
                }
            } else {
                proof {
                    assert forall|w: u8|
                        valid_cell(w) implies (#[trigger] covers(ret@, w) == (covers(s0, w) || (w < v + 1 && holds_cell(
                        block,
                        w,
                    )))) by {
                        if w == cell && holds_cell(block, w) && valid_cell(w) {
                            assert(covers(s0, w));
                        }
                    }
                    assert forall|w: u8, p: Stickers|
                        valid_cell(w) implies (#[trigger] places(ret@, w, p) == (places(s0, w, p) || (w < v + 1
                        && !covers(s0, w) && holds_cell(block, w) && p == setup_placement(setup_moves@, w)))) by {
                        if w == cell && holds_cell(block, w) && valid_cell(w) {
                            assert(covers(s0, w));
                        }
                    }
                }
            }
            v = v + 1;
        }
        let ghost before_cleanup = ret@;
        ret.cleanup();
        proof {
            assert forall|w: u8| valid_cell(w) implies (#[trigger] covers(ret@, w) == (covers(s0, w) || holds_cell(block, w))) by {
                assert(w < 256);
            }
            if centers_home(s0) && twists_valid(setup_moves@) {
                assert forall|w: u8, p: Stickers| valid_cell(w) implies (#[trigger] places(ret@, w, p) == (places(s0, w, p)
                    || (!covers(s0, w) && holds_cell(block, w) && p == setup_placement(setup_moves@, w)))) by {
                    assert(w < 256);
                    assert(places(ret@, w, p) == places(before_cleanup, w, p));
                }
            }
        }
        ret
    }

    /// Returns whether two lists are equal in every field.
    pub fn same_as(&self, other: &BlockList) -> (r: bool)
        ensures
            r == (*self == *other),
    {
        if self.meta != other.meta {
            return false;
        }
        let mut i: usize = 0;
        while i < 26
            invariant
                i <= 26,
                forall|j: int| 0 <= j < i ==> self.blocks@[j] == other.blocks@[j],
            decreases 26 - i,
        {
            if self.blocks[i] != other.blocks[i] {
                return false;
            }
            i = i + 1;
        }
        let mut k: usize = 0;
        while k < 5
            invariant
                k <= 5,
                forall|j: int| 0 <= j < k ==> self.inner_ranks@[j] == other.inner_ranks@[j],
            decreases 5 - k,
        {
            if self.inner_ranks[k] != other.inner_ranks[k] {
                return false;
            }
            k = k + 1;
        }
        assert(self.blocks =~= other.blocks);
        assert(self.inner_ranks =~= other.inner_ranks);
        true
    }

    /// Returns the twist count.
    pub fn twist_count(&self) -> (r: u16)
        ensures
            r == self.spec_twist_count(),
    {
        self.meta.twist_count()
    }
}

impl Default for BlockList {
    fn default() -> (r: BlockList)
        ensures
            r.is_empty_list(),
            r.canonical(),
    {
        BlockList::empty()
    }
}

} // verus!
