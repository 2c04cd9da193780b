//! Where the pieces held by a list of blocks are: for each piece, the grips
//! that its stickers face.
use vstd::prelude::*;

use super::block::{attitudes_match, has_outer, lay, merged, one_if, outer_count, grip_layer, Block};
use super::block_list::{cell_layer, holds_cell, valid_cell};
use crate::bits::bit8;
use crate::sim::common::{Elem, Piece, Twist};
use crate::sim::common::twist::fixes_grip;

verus! {

/// Stickers of a piece: for each axis, the grip that the piece's sticker of
/// that axis faces, or -1 when the piece has no sticker of that axis.
pub type Stickers = (int, int, int, int);

/// The grip of axis `k` that piece `v` has a sticker on when solved, or -1.
pub open spec fn cell_grip(v: u8, k: int) -> int {
    if bit8(v, (2 * k) as u8) {
        2 * k
    } else if bit8(v, (2 * k + 1) as u8) {
        2 * k + 1
    } else {
        -1
    }
}

/// Number of stickers of piece `v`.
pub open spec fn sticker_count(v: u8) -> int {
    one_if(cell_grip(v, 0) >= 0) + one_if(cell_grip(v, 1) >= 0) + one_if(cell_grip(v, 2) >= 0) + one_if(
        cell_grip(v, 3) >= 0,
    )
}

/// The grip that attitude `a` turns the sticker of axis `k` of piece `v` to.
pub open spec fn sticker(a: Elem, v: u8, k: int) -> int {
    if cell_grip(v, k) >= 0 {
        a.grip_image(cell_grip(v, k))
    } else {
        -1
    }
}

/// Stickers of piece `v` turned by attitude `a`.
pub open spec fn placement(a: Elem, v: u8) -> Stickers {
    (sticker(a, v, 0), sticker(a, v, 1), sticker(a, v, 2), sticker(a, v, 3))
}

/// Stickers of piece `v` when solved.
pub open spec fn home_placement(v: u8) -> Stickers {
    (cell_grip(v, 0), cell_grip(v, 1), cell_grip(v, 2), cell_grip(v, 3))
}

/// Whether block `b` holds piece `v` with its stickers at `p`.
pub open spec fn holds_piece(b: Block, v: u8, p: Stickers) -> bool {
    holds_cell(b, v) && placement(b.spec_attitude(), v) == p
}

/// Whether some block of `s` holds piece `v` with its stickers at `p`.
pub open spec fn places(s: Seq<Block>, v: u8, p: Stickers) -> bool {
    exists|i: int| 0 <= i < s.len() && #[trigger] holds_piece(s[i], v, p)
}

/// Whether two lists of blocks hold the same pieces in the same places.
pub open spec fn same_pieces(s: Seq<Block>, t: Seq<Block>) -> bool {
    forall|v: u8, p: Stickers| #[trigger] places(s, v, p) == places(t, v, p)
}

/// Whether every center (a piece with one sticker) held by `s` is solved.
/// Twists never move centers.
pub open spec fn centers_home(s: Seq<Block>) -> bool {
    forall|i: int, v: u8|
        0 <= i < s.len() && #[trigger] holds_cell(s[i], v) && sticker_count(v) == 1 ==> placement(
            s[i].spec_attitude(),
            v,
        ) == home_placement(v)
}

/// Whether a twist on grip `g` moves a piece with stickers at `p`: one of
/// its stickers faces `g`.
pub open spec fn twist_moves(p: Stickers, g: int) -> bool {
    p.0 == g || p.1 == g || p.2 == g || p.3 == g
}

/// A sticker facing `x` turned by `e`.
pub open spec fn turned(e: Elem, x: int) -> int {
    if x >= 0 {
        e.grip_image(x)
    } else {
        -1
    }
}

/// Stickers at `p` after the twist `tw`.
pub open spec fn twisted_placement(p: Stickers, tw: Twist) -> Stickers {
    if twist_moves(p, tw.grip.spec_id() as int) {
        (turned(tw.transform, p.0), turned(tw.transform, p.1), turned(tw.transform, p.2), turned(tw.transform, p.3))
    } else {
        p
    }
}

/// Whether `r` holds the pieces of `s`, each moved by the twist `tw`.
pub open spec fn twisted_pieces(s: Seq<Block>, r: Seq<Block>, tw: Twist) -> bool {
    forall|v: u8, p: Stickers|
        #[trigger] places(r, v, p) == exists|q: Stickers| #[trigger] places(s, v, q) && p == twisted_placement(q, tw)
}

/// Whether block `y` holds only pieces of block `x`, each with its stickers
/// where the twist `tw` leaves them.
pub open spec fn twisted_part(x: Block, y: Block, tw: Twist) -> bool {
    forall|v: u8|
        #[trigger] holds_cell(y, v) ==> holds_cell(x, v) && placement(y.spec_attitude(), v) == twisted_placement(
            placement(x.spec_attitude(), v),
            tw,
        )
}

/// A grip of a piece's axis is on that axis.
proof fn lemma_cell_grip(v: u8, k: int)
    requires
        0 <= k < 4,
    ensures
        cell_grip(v, k) >= 0 ==> cell_grip(v, k) / 2 == k && 0 <= cell_grip(v, k) < 8,
        cell_grip(v, k) >= 0 <==> cell_layer(v, k) != 1,
        cell_grip(v, k) >= 0 ==> grip_layer(cell_grip(v, k)) == cell_layer(v, k),
{
}

/// A piece held by a block has its stickers on the block's outer axes.
proof fn lemma_stickers_on_outer(b: Block, v: u8, k: int)
    requires
        0 <= k < 4,
        holds_cell(b, v),
        cell_grip(v, k) >= 0,
    ensures
        has_outer(b.spec_layers(), k),
{
    lemma_cell_grip(v, k);
    assert(lay(b.spec_layers(), k, cell_layer(v, k)));
}

/// Turning by a product turns by each factor.
pub proof fn lemma_placement_product(e: Elem, a: Elem, v: u8)
    requires
        e.spec_id() < 192,
        a.spec_id() < 192,
    ensures
        placement(e.product(a), v) == (
            turned(e, placement(a, v).0),
            turned(e, placement(a, v).1),
            turned(e, placement(a, v).2),
            turned(e, placement(a, v).3),
        ),
{
    lemma_cell_grip(v, 0);
    lemma_cell_grip(v, 1);
    lemma_cell_grip(v, 2);
    lemma_cell_grip(v, 3);
    if cell_grip(v, 0) >= 0 {
        Elem::lemma_action(e, a, cell_grip(v, 0));
        Elem::lemma_action(a, a, cell_grip(v, 0));
    }
    if cell_grip(v, 1) >= 0 {
        Elem::lemma_action(e, a, cell_grip(v, 1));
        Elem::lemma_action(a, a, cell_grip(v, 1));
    }
    if cell_grip(v, 2) >= 0 {
        Elem::lemma_action(e, a, cell_grip(v, 2));
        Elem::lemma_action(a, a, cell_grip(v, 2));
    }
    if cell_grip(v, 3) >= 0 {
        Elem::lemma_action(e, a, cell_grip(v, 3));
        Elem::lemma_action(a, a, cell_grip(v, 3));
    }
}

/// A twist on `grip` moves a piece of a block with attitude `att` exactly
/// when the piece lies, in the block's solved frame, in the layer of the grip
/// that the attitude sends to `grip`.
pub proof fn lemma_split_moves(att: Elem, v: u8, grip: int)
    requires
        att.spec_id() < 192,
        0 <= grip < 8,
    ensures
        ({
            let g = att.inverse().grip_image(grip);
            twist_moves(placement(att, v), grip) == (cell_layer(v, g / 2) == grip_layer(g))
        }),
{
    Elem::lemma_valid(att, att);
    Elem::lemma_action(att.inverse(), att, grip);
    Elem::lemma_action(att, att, grip);
    let g = att.inverse().grip_image(grip);
    assert(0 <= g < 8);
    assert(att.grip_image(g) == grip);
    lemma_cell_grip(v, 0);
    lemma_cell_grip(v, 1);
    lemma_cell_grip(v, 2);
    lemma_cell_grip(v, 3);
    let a = g / 2;
    if cell_layer(v, a) == grip_layer(g) {
        assert(cell_grip(v, a) == g);
        assert(sticker(att, v, a) == grip);
    } else {
        assert forall|k: int| 0 <= k < 4 implies sticker(att, v, k) != grip by {
            if cell_grip(v, k) >= 0 {
                Elem::lemma_action(att, att, cell_grip(v, k));
                if att.grip_image(cell_grip(v, k)) == grip {
                    assert(att.inverse().grip_image(att.grip_image(cell_grip(v, k))) == cell_grip(v, k));
                    assert(cell_grip(v, k) == g);
                }
            }
        }
        assert(sticker(att, v, 0) != grip);
        assert(sticker(att, v, 1) != grip);
        assert(sticker(att, v, 2) != grip);
        assert(sticker(att, v, 3) != grip);
    }
}

/// A merged block keeps the stickers of the pieces of both blocks, when the
/// body's centers are solved.
pub proof fn lemma_merged_placement(b: Block, h: Block)
    requires
        merged(b, h) != Block::spec_empty(),
        b.spec_attitude().spec_id() < 192,
        h.spec_attitude().spec_id() < 192,
        forall|v: u8| #[trigger] holds_cell(b, v) && sticker_count(v) == 1 ==> placement(b.spec_attitude(), v)
            == home_placement(v),
    ensures
        attitudes_match(b, h),
        forall|v: u8| #[trigger] holds_cell(b, v) ==> placement(h.spec_attitude(), v) == placement(b.spec_attitude(), v),
{
    let bo = b.spec_attitude();
    let ho = h.spec_attitude();
    let lb = b.spec_layers();
    Elem::lemma_valid(bo, ho);
    let d = bo.inverse().product(ho);
    Elem::lemma_valid(bo.inverse(), ho);
    assert forall|v: u8| #[trigger] holds_cell(b, v) implies placement(ho, v) == placement(bo, v) by {
        lemma_cell_grip(v, 0);
        lemma_cell_grip(v, 1);
        lemma_cell_grip(v, 2);
        lemma_cell_grip(v, 3);
        assert forall|k: int| 0 <= k < 4 implies sticker(ho, v, k) == sticker(bo, v, k) by {
            let c = cell_grip(v, k);
            if c >= 0 && bo != ho {
                lemma_stickers_on_outer(b, v, k);
                let base = 2 * k;
                Elem::lemma_action(ho, ho, base);
                Elem::lemma_action(bo, bo, base);
                Elem::lemma_action(bo, bo, c);
                Elem::lemma_action(ho, ho, c);
                if outer_count(lb) == 1 {
                    assert(ho.grip_image(base) == base);
                    assert(ho.grip_image(c) == c);
                    assert forall|j: int| 0 <= j < 4 && j != k implies cell_grip(v, j) < 0 by {
                        if cell_grip(v, j) >= 0 {
                            lemma_stickers_on_outer(b, v, j);
                        }
                    }
                    assert(sticker_count(v) == 1);
                    assert(placement(bo, v) == home_placement(v));
                } else if outer_count(lb) == 2 {
                    Elem::lemma_action(bo.inverse(), ho, base);
                    Elem::lemma_action(bo.inverse(), ho, c);
                    Elem::lemma_action(d, d, base);
                    assert(d.grip_image(base) == base);
                    assert(d.grip_image(c) == c);
                    assert(bo.inverse().grip_image(ho.grip_image(c)) == c);
                    Elem::lemma_action(bo, bo, ho.grip_image(c));
                    assert(bo.grip_image(bo.inverse().grip_image(ho.grip_image(c))) == ho.grip_image(c));
                } else {
                    assert(outer_count(lb) == 0);
                    assert(has_outer(lb, k));
                }
            }
        }
    }
}

/// Lists with the same nonempty blocks hold the same pieces in the same
/// places, and the centers held by the second are those of the first.
pub proof fn lemma_pieces_same_nonempty(s: Seq<Block>, t: Seq<Block>)
    requires
        forall|x: Block| x != Block::spec_empty() ==> (#[trigger] s.contains(x) ==> t.contains(x)),
    ensures
        forall|v: u8, p: Stickers| #[trigger] places(s, v, p) ==> places(t, v, p),
        centers_home(t) ==> centers_home(s),
{
    assert forall|v: u8, p: Stickers| #[trigger] places(s, v, p) implies places(t, v, p) by {
        let i = choose|i: int| 0 <= i < s.len() && #[trigger] holds_piece(s[i], v, p);
        assert(s.contains(s[i]));
        let j = choose|j: int| 0 <= j < t.len() && t[j] == s[i];
        assert(holds_piece(t[j], v, p));
    }
    if centers_home(t) {
        assert forall|i: int, v: u8|
            0 <= i < s.len() && #[trigger] holds_cell(s[i], v) && sticker_count(v) == 1 implies placement(
            s[i].spec_attitude(),
            v,
        ) == home_placement(v) by {
            assert(s.contains(s[i]));
            let j = choose|j: int| 0 <= j < t.len() && t[j] == s[i];
            assert(holds_cell(t[j], v));
        }
    }
}

/// A solved center that a twist moves is on the twist's grip, so a twist
/// that fixes its grip leaves it solved.
pub proof fn lemma_home_center_fixed(v: u8, tw: Twist)
    requires
        sticker_count(v) == 1,
        twist_moves(home_placement(v), tw.grip.spec_id() as int),
        fixes_grip(tw.transform, tw.grip),
    ensures
        twisted_placement(home_placement(v), tw) == home_placement(v),
{
    let g = tw.grip.spec_id() as int;
    lemma_cell_grip(v, 0);
    lemma_cell_grip(v, 1);
    lemma_cell_grip(v, 2);
    lemma_cell_grip(v, 3);
    assert(tw.transform.grip_image(g) == g);
}

/// Stickers of piece `v`, from solved, after the twists `tws` in order.
pub open spec fn setup_placement(tws: Seq<Twist>, v: u8) -> Stickers
    decreases tws.len(),
{
    if tws.len() == 0 {
        home_placement(v)
    } else {
        twisted_placement(setup_placement(tws.drop_last(), v), tws.last())
    }
}

/// Whether the active grips of `pc` are the grips that the stickers of
/// piece `v` face.
pub open spec fn piece_matches(pc: Piece, v: u8) -> bool {
    &&& pc.attitude.spec_id() < 192
    &&& forall|g: int| 0 <= g < 8 ==> #[trigger] pc.grips.has(g) == twist_moves(placement(pc.attitude, v), g)
}

/// Twists that fix their grips leave a solved center solved.
pub proof fn lemma_setup_center(tws: Seq<Twist>, v: u8)
    requires
        sticker_count(v) == 1,
        forall|i: int| 0 <= i < tws.len() ==> fixes_grip(#[trigger] tws[i].transform, tws[i].grip),
    ensures
        setup_placement(tws, v) == home_placement(v),
    decreases tws.len(),
{
    if tws.len() > 0 {
        lemma_setup_center(tws.drop_last(), v);
        let tw = tws.last();
        assert(fixes_grip(tws[tws.len() - 1].transform, tws[tws.len() - 1].grip));
        if twist_moves(home_placement(v), tw.grip.spec_id() as int) {
            lemma_home_center_fixed(v, tw);
        }
    }
}

/// Pieces whose solved positions lie in the same layers have the same
/// stickers.
pub proof fn lemma_same_layers_placement(v: u8, w: u8)
    requires
        forall|a: int| 0 <= a < 4 ==> #[trigger] cell_layer(v, a) == cell_layer(w, a),
    ensures
        forall|a: Elem| #[trigger] placement(a, v) == placement(a, w),
        home_placement(v) == home_placement(w),
        sticker_count(v) == sticker_count(w),
{
    assert(cell_layer(v, 0) == cell_layer(w, 0));
    assert(cell_layer(v, 1) == cell_layer(w, 1));
    assert(cell_layer(v, 2) == cell_layer(w, 2));
    assert(cell_layer(v, 3) == cell_layer(w, 3));
    lemma_cell_grip(v, 0);
    lemma_cell_grip(v, 1);
    lemma_cell_grip(v, 2);
    lemma_cell_grip(v, 3);
    lemma_cell_grip(w, 0);
    lemma_cell_grip(w, 1);
    lemma_cell_grip(w, 2);
    lemma_cell_grip(w, 3);
    assert(cell_grip(v, 0) == cell_grip(w, 0));
    assert(cell_grip(v, 1) == cell_grip(w, 1));
    assert(cell_grip(v, 2) == cell_grip(w, 2));
    assert(cell_grip(v, 3) == cell_grip(w, 3));
}

/// The identity leaves the stickers of a piece where they are when solved.
pub proof fn lemma_placement_ident(v: u8)
    ensures
        placement(Elem::with_id(0), v) == home_placement(v),
{
    let e = Elem::with_id(0);
    Elem::lemma_with_id(0);
    lemma_cell_grip(v, 0);
    lemma_cell_grip(v, 1);
    lemma_cell_grip(v, 2);
    lemma_cell_grip(v, 3);
    if cell_grip(v, 0) >= 0 {
        Elem::lemma_ident_action(e, cell_grip(v, 0));
    }
    if cell_grip(v, 1) >= 0 {
        Elem::lemma_ident_action(e, cell_grip(v, 1));
    }
    if cell_grip(v, 2) >= 0 {
        Elem::lemma_ident_action(e, cell_grip(v, 2));
    }
    if cell_grip(v, 3) >= 0 {
        Elem::lemma_ident_action(e, cell_grip(v, 3));
    }
}

/// A solved piece made of the grips of a valid piece `v` matches it.
pub proof fn lemma_solved_piece_matches(pc: Piece, v: u8)
    requires
        pc.attitude.spec_id() == 0,
        forall|g: int| 0 <= g < 8 ==> #[trigger] pc.grips.has(g) == bit8(v, g as u8),
        forall|a: int| 0 <= a < 4 ==> !(#[trigger] bit8(v, (2 * a) as u8) && bit8(v, (2 * a + 1) as u8)),
    ensures
        piece_matches(pc, v),
        placement(pc.attitude, v) == home_placement(v),
{
    Elem::lemma_id_eq(pc.attitude, Elem::with_id(0));
    Elem::lemma_with_id(0);
    lemma_placement_ident(v);
    lemma_cell_grip(v, 0);
    lemma_cell_grip(v, 1);
    lemma_cell_grip(v, 2);
    lemma_cell_grip(v, 3);
    assert forall|g: int| 0 <= g < 8 implies #[trigger] pc.grips.has(g) == twist_moves(placement(pc.attitude, v), g) by {
        let k = g / 2;
        assert(!(bit8(v, (2 * k) as u8) && bit8(v, (2 * k + 1) as u8)));
        if g % 2 == 0 {
            assert((2 * k) as u8 == g as u8);
        } else {
            assert((2 * k + 1) as u8 == g as u8);
        }
    }
}

/// A twist moves a matching piece as it moves the piece's stickers.
pub proof fn lemma_twist_piece(pc: Piece, tw: Twist, v: u8)
    requires
        piece_matches(pc, v),
        tw.transform.spec_id() < 192,
        0 <= tw.grip.spec_id() < 8,
    ensures
        piece_matches(pc.twisted_by(tw), v),
        placement(pc.twisted_by(tw).attitude, v) == twisted_placement(placement(pc.attitude, v), tw),
{
    let a = pc.attitude;
    let t = tw.transform;
    let p = placement(a, v);
    if pc.grips.has(tw.grip.spec_id() as int) {
        lemma_placement_product(t, a, v);
        Elem::lemma_valid(t, a);
        pc.grips.lemma_moved_by(t);
        let q = pc.twisted_by(tw);
        assert forall|g: int| 0 <= g < 8 implies #[trigger] q.grips.has(g) == twist_moves(placement(q.attitude, v), g) by {
            Elem::lemma_action(t, t, g);
            Elem::lemma_valid(t, t);
            Elem::lemma_action(t.inverse(), t, g);
            let h = t.inverse().grip_image(g);
            assert(0 <= h < 8);
            assert(t.grip_image(h) == g);
            assert(q.grips.has(t.grip_image(h)) == pc.grips.has(h));
            assert(pc.grips.has(h) == twist_moves(p, h));
            lemma_cell_grip(v, 0);
            lemma_cell_grip(v, 1);
            lemma_cell_grip(v, 2);
            lemma_cell_grip(v, 3);
            assert forall|x: int| -1 <= x < 8 implies (turned(t, x) == g) == (x == h) by {
                if x >= 0 {
                    Elem::lemma_action(t, t, x);
                    if t.grip_image(x) == g {
                        assert(t.inverse().grip_image(t.grip_image(x)) == x);
                    }
                }
            }
            assert(-1 <= p.0 < 8 && -1 <= p.1 < 8 && -1 <= p.2 < 8 && -1 <= p.3 < 8) by {
                if cell_grip(v, 0) >= 0 {
                    Elem::lemma_action(a, a, cell_grip(v, 0));
                }
                if cell_grip(v, 1) >= 0 {
                    Elem::lemma_action(a, a, cell_grip(v, 1));
                }
                if cell_grip(v, 2) >= 0 {
                    Elem::lemma_action(a, a, cell_grip(v, 2));
                }
                if cell_grip(v, 3) >= 0 {
                    Elem::lemma_action(a, a, cell_grip(v, 3));
                }
            }
        }
    }
}

/// Whether every twist of `tws` fixes its grip.
pub open spec fn twists_valid(tws: Seq<Twist>) -> bool {
    forall|i: int| 0 <= i < tws.len() ==> fixes_grip(#[trigger] tws[i].transform, tws[i].grip)
}

/// A twist followed by its inverse gives each sticker back its grip.
proof fn lemma_twisted_placement_undone(q: Stickers, tw: Twist)
    requires
        tw.transform.spec_id() < 192,
        0 <= tw.grip.spec_id() < 8,
        fixes_grip(tw.transform, tw.grip),
        -1 <= q.0 < 8,
        -1 <= q.1 < 8,
        -1 <= q.2 < 8,
        -1 <= q.3 < 8,
    ensures
        twisted_placement(twisted_placement(q, tw), Twist { grip: tw.grip, transform: tw.transform.inverse() })
            == q,
{
    let t = tw.transform;
    let g = tw.grip.spec_id() as int;
    Elem::lemma_valid(t, t);
    Elem::lemma_action(t, t, g);
    if twist_moves(q, g) {
        assert forall|x: int| -1 <= x < 8 implies turned(t.inverse(), turned(t, x)) == x by {
            if x >= 0 {
                Elem::lemma_action(t, t, x);
            }
        }
        let m = twisted_placement(q, tw);
        assert(twist_moves(m, g)) by {
            assert(t.grip_image(g) == g);
        }
    }
}

/// Stickers of pieces held by blocks face grips.
proof fn lemma_placement_range(a: Elem, v: u8)
    requires
        a.spec_id() < 192,
    ensures
        -1 <= placement(a, v).0 < 8,
        -1 <= placement(a, v).1 < 8,
        -1 <= placement(a, v).2 < 8,
        -1 <= placement(a, v).3 < 8,
{
    lemma_cell_grip(v, 0);
    lemma_cell_grip(v, 1);
    lemma_cell_grip(v, 2);
    lemma_cell_grip(v, 3);
    if cell_grip(v, 0) >= 0 {
        Elem::lemma_action(a, a, cell_grip(v, 0));
    }
    if cell_grip(v, 1) >= 0 {
        Elem::lemma_action(a, a, cell_grip(v, 1));
    }
    if cell_grip(v, 2) >= 0 {
        Elem::lemma_action(a, a, cell_grip(v, 2));
    }
    if cell_grip(v, 3) >= 0 {
        Elem::lemma_action(a, a, cell_grip(v, 3));
    }
}

/// A twist followed by its inverse leaves every piece where it was.
pub proof fn lemma_twist_undone(s: Seq<Block>, r: Seq<Block>, r2: Seq<Block>, tw: Twist)
    requires
        forall|i: int| 0 <= i < s.len() ==> (#[trigger] s[i]).spec_attitude().spec_id() < 192,
        tw.transform.spec_id() < 192,
        0 <= tw.grip.spec_id() < 8,
        fixes_grip(tw.transform, tw.grip),
        twisted_pieces(s, r, tw),
        twisted_pieces(r, r2, Twist { grip: tw.grip, transform: tw.transform.inverse() }),
    ensures
        same_pieces(s, r2),
{
    let inv = Twist { grip: tw.grip, transform: tw.transform.inverse() };
    assert forall|v: u8, p: Stickers| #[trigger] places(s, v, p) == places(r2, v, p) by {
        if places(s, v, p) {
            let i = choose|i: int| 0 <= i < s.len() && #[trigger] holds_piece(s[i], v, p);
            lemma_placement_range(s[i].spec_attitude(), v);
            lemma_twisted_placement_undone(p, tw);
            let q = twisted_placement(p, tw);
            assert(places(r, v, q));
            assert(places(r2, v, twisted_placement(q, inv)));
        }
        if places(r2, v, p) {
            let q = choose|q: Stickers| #[trigger] places(r, v, q) && p == twisted_placement(q, inv);
            let q0 = choose|q0: Stickers| #[trigger] places(s, v, q0) && q == twisted_placement(q0, tw);
            let i = choose|i: int| 0 <= i < s.len() && #[trigger] holds_piece(s[i], v, q0);
            lemma_placement_range(s[i].spec_attitude(), v);
            lemma_twisted_placement_undone(q0, tw);
        }
    }
}

/// Stickers at `q` after the twists `tws` in order.
pub open spec fn moved_placement(q: Stickers, tws: Seq<Twist>) -> Stickers
    decreases tws.len(),
{
    if tws.len() == 0 {
        q
    } else {
        twisted_placement(moved_placement(q, tws.drop_last()), tws.last())
    }
}

/// Whether `r` holds the pieces of `s`, each moved by the twists `tws` in
/// order.
pub open spec fn pieces_moved(s: Seq<Block>, r: Seq<Block>, tws: Seq<Twist>) -> bool {
    forall|v: u8, p: Stickers|
        #[trigger] places(r, v, p) == exists|q: Stickers| #[trigger] places(s, v, q) && p == moved_placement(q, tws)
}

/// Twisting by one twist and then by a list is twisting by the longer list.
proof fn lemma_moved_placement_prepend(q: Stickers, t: Twist, tws: Seq<Twist>)
    ensures
        moved_placement(twisted_placement(q, t), tws) == moved_placement(q, seq![t] + tws),
    decreases tws.len(),
{
    if tws.len() > 0 {
        lemma_moved_placement_prepend(q, t, tws.drop_last());
        assert((seq![t] + tws).drop_last() == seq![t] + tws.drop_last());
        assert((seq![t] + tws).last() == tws.last());
    } else {
        assert(seq![t] + tws == seq![t]);
        assert(seq![t].drop_last() == Seq::<Twist>::empty());
        assert(moved_placement(q, Seq::<Twist>::empty()) == q);
        assert(moved_placement(twisted_placement(q, t), tws) == twisted_placement(q, t));
        assert(seq![t].last() == t);
        assert(moved_placement(q, seq![t]) == twisted_placement(moved_placement(q, seq![t].drop_last()), t));
    }
}

/// No twists leave the pieces where they are.
pub proof fn lemma_pieces_moved_none(s: Seq<Block>)
    ensures
        pieces_moved(s, s, seq![]),
{
    assert forall|v: u8, p: Stickers| #[trigger] places(s, v, p) == exists|q: Stickers|
        #[trigger] places(s, v, q) && p == moved_placement(q, seq![]) by {
        if places(s, v, p) {
            assert(p == moved_placement(p, seq![]));
        }
    }
}

/// A twist and then a list of twists move the pieces as the longer list.
pub proof fn lemma_pieces_moved_prepend(s: Seq<Block>, m: Seq<Block>, r: Seq<Block>, t: Twist, tws: Seq<Twist>)
    requires
        twisted_pieces(s, m, t),
        pieces_moved(m, r, tws),
    ensures
        pieces_moved(s, r, seq![t] + tws),
{
    let all = seq![t] + tws;
    assert forall|v: u8, p: Stickers| #[trigger] places(r, v, p) == exists|q: Stickers|
        #[trigger] places(s, v, q) && p == moved_placement(q, all) by {
        if places(r, v, p) {
            let q1 = choose|q1: Stickers| #[trigger] places(m, v, q1) && p == moved_placement(q1, tws);
            let q0 = choose|q0: Stickers| #[trigger] places(s, v, q0) && q1 == twisted_placement(q0, t);
            lemma_moved_placement_prepend(q0, t, tws);
            assert(places(s, v, q0) && p == moved_placement(q0, all));
        }
        if exists|q: Stickers| #[trigger] places(s, v, q) && p == moved_placement(q, all) {
            let q0 = choose|q0: Stickers| #[trigger] places(s, v, q0) && p == moved_placement(q0, all);
            lemma_moved_placement_prepend(q0, t, tws);
            let q1 = twisted_placement(q0, t);
            assert(places(m, v, q1));
            assert(places(m, v, q1) && p == moved_placement(q1, tws));
        }
    }
}

/// Whether `s` holds every piece where the twists `moves`, from solved, put
/// it, and holds its centers solved.
pub open spec fn pieces_after(s: Seq<Block>, moves: Seq<Twist>) -> bool {
    &&& centers_home(s)
    &&& forall|v: u8, p: Stickers| valid_cell(v) && #[trigger] places(s, v, p) ==> p == setup_placement(moves, v)
}

/// Twists that fix their grips, one list after another, fix their grips.
pub proof fn lemma_twists_valid_append(a: Seq<Twist>, b: Seq<Twist>)
    requires
        twists_valid(a),
        twists_valid(b),
    ensures
        twists_valid(a + b),
{
    assert forall|i: int| 0 <= i < (a + b).len() implies fixes_grip(#[trigger] (a + b)[i].transform, (a + b)[i].grip) by {
        if i < a.len() {
            assert((a + b)[i] == a[i]);
        } else {
            assert((a + b)[i] == b[i - a.len()]);
        }
    }
}

/// Twisting from solved by `ms` and then by `tws` is twisting from solved by
/// both.
pub proof fn lemma_setup_then_moved(ms: Seq<Twist>, tws: Seq<Twist>, v: u8)
    ensures
        moved_placement(setup_placement(ms, v), tws) == setup_placement(ms + tws, v),
    decreases tws.len(),
{
    if tws.len() == 0 {
        assert(ms + tws =~= ms);
    } else {
        lemma_setup_then_moved(ms, tws.drop_last(), v);
        assert((ms + tws).drop_last() =~= ms + tws.drop_last());
        assert((ms + tws).last() == tws.last());
    }
}

/// Pieces held where `moves` put them, then moved by `tws`, are held where
/// `moves` and then `tws` put them.
pub proof fn lemma_pieces_after_moved(a: Seq<Block>, b: Seq<Block>, moves: Seq<Twist>, tws: Seq<Twist>)
    requires
        pieces_after(a, moves),
        centers_home(b),
        pieces_moved(a, b, tws),
    ensures
        pieces_after(b, moves + tws),
{
    assert forall|v: u8, p: Stickers| valid_cell(v) && #[trigger] places(b, v, p) implies p == setup_placement(
        moves + tws,
        v,
    ) by {
        let q = choose|q: Stickers| #[trigger] places(a, v, q) && p == moved_placement(q, tws);
        lemma_setup_then_moved(moves, tws, v);
    }
}

} // verus!
