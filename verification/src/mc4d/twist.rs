//! Twists as a Magic Cube 4D log file writes them.
use vstd::prelude::*;

use crate::sim::common::element::{Elem, TransformByElem};
use crate::sim::common::grip::{opposite_id, Grip};
use crate::sim::common::twist::Twist;
use crate::util::stackvec::StackVec;
use crate::util::text::{
    decimal,
    is_digit,
    lemma_decimal_reads_back,
    lemma_parse_i8_signed_decimal,
    lemma_parse_unsigned_decimal,
    parse_i8,
    parse_i8_exec,
    parse_unsigned,
    parse_unsigned_exec,
    push_decimal,
    push_signed_decimal,
    signed_decimal,
};

verus! {

broadcast use {Elem::lemma_with_id, Grip::lemma_with_id, Elem::lemma_id_eq, Grip::lemma_id_eq};

/// Twist as a log file writes it: a sticker of the face that turns (which
/// sets the axis and direction), how many times to turn, and which layers
/// turn (bit 0 the face's layer, bit 1 the middle, bit 2 the opposite
/// layer).
#[derive(Debug, Copy, Clone, PartialEq, Eq, Hash, Structural)]
pub struct Mc4dTwist {
    /// Number of the sticker.
    pub sticker: usize,
    /// How many times to turn; negative for the other direction.
    pub multiplier: i8,
    /// Layers that turn.
    pub layer_mask: u8,
}

/// Twist of some layers of the puzzle.
#[derive(Debug, Default, Copy, Clone, PartialEq, Eq, Hash, Structural)]
pub struct LayeredTwist {
    /// Twist of the face's layer.
    pub twist: Twist,
    /// Layers that turn (bit 0 the face's layer, bit 1 the middle, bit 2 the
    /// opposite layer).
    pub layer_mask: u8,
}

/// `e` composed with itself `n` times.
pub open spec fn elem_power(e: Elem, n: nat) -> Elem
    decreases n,
{
    if n == 0 {
        Elem::with_id(0)
    } else {
        elem_power(e, (n - 1) as nat).product(e)
    }
}

/// Absolute value of a multiplier.
pub open spec fn multiplier_abs(m: i8) -> nat {
    if m < 0 {
        (-(m as int)) as nat
    } else {
        m as nat
    }
}

/// The layered twist that a log file twist stands for, given the twist `t`
/// of its sticker.
pub open spec fn layered_twist_of(m: Mc4dTwist, t: Twist) -> LayeredTwist {
    let base = if m.multiplier < 0 {
        t.transform.inverse()
    } else {
        t.transform
    };
    LayeredTwist {
        twist: Twist { grip: t.grip, transform: elem_power(base, multiplier_abs(m.multiplier)) },
        layer_mask: m.layer_mask,
    }
}

/// The twists of the puzzle that a layered twist amounts to, seen from the
/// orientation `offset`, and the orientation after it. A twist that turns
/// the middle layer turns the whole puzzle, then the other layers back.
pub open spec fn layered_twist_effect(lt: LayeredTwist, offset: Elem) -> (Seq<Twist>, Elem) {
    let middle = lt.layer_mask & 2u8 != 0;
    let new_offset = if middle {
        offset.product(lt.twist.transform.inverse())
    } else {
        offset
    };
    let twist = if middle {
        Twist { grip: lt.twist.grip, transform: lt.twist.transform.inverse() }
    } else {
        lt.twist
    };
    let mask = if middle {
        lt.layer_mask ^ 7u8
    } else {
        lt.layer_mask
    };
    let opposite = Twist { grip: Grip::with_id(opposite_id(twist.grip.spec_id())), transform: twist.transform };
    let own: Seq<Twist> = if mask & 1u8 != 0 {
        seq![twist.transformed_by(new_offset)]
    } else {
        seq![]
    };
    let other: Seq<Twist> = if mask & 4u8 != 0 {
        seq![opposite.transformed_by(new_offset)]
    } else {
        seq![]
    };
    (own + other, new_offset)
}

/// Turning outer layers only keeps the orientation: the first layer is the
/// twist itself and the third the same turn on the opposite grip, each seen
/// from the current orientation, in that order.
pub proof fn lemma_outer_layers_turn(lt: LayeredTwist, offset: Elem)
    requires
        lt.layer_mask & 2u8 == 0,
    ensures
        ({
            let own = lt.twist.transformed_by(offset);
            let other = Twist { grip: Grip::with_id(opposite_id(lt.twist.grip.spec_id())), transform: lt.twist.transform }.transformed_by(offset);
            &&& layered_twist_effect(lt, offset).1 == offset
            &&& lt.layer_mask == 1 ==> layered_twist_effect(lt, offset).0 == seq![own]
            &&& lt.layer_mask == 4 ==> layered_twist_effect(lt, offset).0 == seq![other]
            &&& lt.layer_mask == 5 ==> layered_twist_effect(lt, offset).0 == seq![own, other]
            &&& lt.layer_mask == 0 ==> layered_twist_effect(lt, offset).0.len() == 0
        }),
{
    let m = lt.layer_mask;
    assert((m == 1u8 ==> m & 1u8 != 0u8 && m & 4u8 == 0u8) && (m == 4u8 ==> m & 1u8 == 0u8 && m & 4u8 != 0u8) && (m
        == 5u8 ==> m & 1u8 != 0u8 && m & 4u8 != 0u8) && (m == 0u8 ==> m & 1u8 == 0u8 && m & 4u8 == 0u8)) by (bit_vector);
}

/// Turning layers that include the middle one turns the whole puzzle by the
/// twist and then the other layers back: it gives the puzzle twists of the
/// inverse twist on the other layers, seen from the orientation turned by the
/// inverse. A middle slice alone turns both outer layers back, and all three
/// layers only turn the orientation.
pub proof fn lemma_middle_layer_turns_puzzle(lt: LayeredTwist, offset: Elem)
    requires
        lt.layer_mask & 2u8 != 0,
    ensures
        ({
            let back = Twist { grip: lt.twist.grip, transform: lt.twist.transform.inverse() };
            let turned = offset.product(lt.twist.transform.inverse());
            &&& layered_twist_effect(lt, offset) == layered_twist_effect(
                LayeredTwist { twist: back, layer_mask: lt.layer_mask ^ 7u8 },
                turned,
            )
            &&& (lt.layer_mask ^ 7u8) & 2u8 == 0
            &&& layered_twist_effect(lt, offset).1 == turned
            &&& lt.layer_mask == 2 ==> layered_twist_effect(lt, offset).0 == seq![
                back.transformed_by(turned),
                Twist { grip: Grip::with_id(opposite_id(lt.twist.grip.spec_id())), transform: back.transform }.transformed_by(turned),
            ]
            &&& lt.layer_mask == 7 ==> layered_twist_effect(lt, offset).0.len() == 0
        }),
{
    let m = lt.layer_mask;
    assert((m ^ 7u8) & 2u8 == 0u8 && (m == 2u8 ==> (m ^ 7u8) & 1u8 != 0u8 && (m ^ 7u8) & 4u8 != 0u8) && (m == 7u8 ==> (
    m ^ 7u8) & 1u8 == 0u8 && (m ^ 7u8) & 4u8 == 0u8)) by (bit_vector)
        requires
            m & 2u8 != 0u8,
    ;
}

/// The last sticker below `n` whose twist is `t`.
pub open spec fn last_sticker_of(order: Seq<Option<Twist>>, t: Twist, n: nat) -> Option<int>
    decreases n,
{
    if n == 0 {
        None
    } else if order[n - 1] == Some(t) {
        Some(n - 1)
    } else {
        last_sticker_of(order, t, (n - 1) as nat)
    }
}

/// Whether `t` is the twist of sticker `i` done twice.
pub open spec fn is_double_of(order: Seq<Option<Twist>>, i: int, t: Twist) -> bool {
    order[i] matches Some(s) && t == (Twist { grip: s.grip, transform: s.transform.product(s.transform) })
}

/// The first sticker below `n` whose twist done twice is `t`.
pub open spec fn first_double_of(order: Seq<Option<Twist>>, t: Twist, n: nat) -> Option<int>
    decreases n,
{
    if n == 0 {
        None
    } else {
        match first_double_of(order, t, (n - 1) as nat) {
            Some(i) => Some(i),
            None => if is_double_of(order, n - 1, t) {
                Some(n - 1)
            } else {
                None
            },
        }
    }
}

/// How a log file writes the twist `t`: by the last sticker whose twist it
/// is, once, or else by the first sticker whose twist done twice it is,
/// twice.
pub open spec fn mc4d_twist_for(order: Seq<Option<Twist>>, t: Twist) -> Option<Mc4dTwist> {
    match last_sticker_of(order, t, order.len()) {
        Some(i) => Some(Mc4dTwist { sticker: i as usize, multiplier: 1, layer_mask: 1 }),
        None => match first_double_of(order, t, order.len()) {
            Some(i) => Some(Mc4dTwist { sticker: i as usize, multiplier: 2, layer_mask: 1 }),
            None => None,
        },
    }
}

/// Index of the first comma at or after `p`, or the length of `s`.
pub open spec fn comma_at_or_after(s: Seq<u8>, p: int) -> int
    decreases s.len() - p,
{
    if p < 0 || p >= s.len() {
        s.len() as int
    } else if s[p] == 44 {
        p
    } else {
        comma_at_or_after(s, p + 1)
    }
}

/// A log file twist read from its text `sticker,multiplier,layers`: exactly
/// three comma-separated numbers.
pub open spec fn parse_mc4d_twist(s: Seq<u8>) -> Option<Mc4dTwist> {
    let c1 = comma_at_or_after(s, 0);
    let c2 = comma_at_or_after(s, c1 + 1);
    let c3 = comma_at_or_after(s, c2 + 1);
    if c1 < s.len() && c2 < s.len() && c3 == s.len() {
        match (
            parse_unsigned(s.subrange(0, c1), usize::MAX as nat),
            parse_i8(s.subrange(c1 + 1, c2)),
            parse_unsigned(s.subrange(c2 + 1, s.len() as int), 255),
        ) {
            (Some(a), Some(b), Some(c)) => Some(
                Mc4dTwist { sticker: a as usize, multiplier: b as i8, layer_mask: c as u8 },
            ),
            _ => None,
        }
    } else {
        None
    }
}

/// Text of a log file twist: `sticker,multiplier,layers`.
pub open spec fn mc4d_twist_text(m: Mc4dTwist) -> Seq<u8> {
    decimal(m.sticker as nat) + seq![44u8] + signed_decimal(m.multiplier as int) + seq![44u8] + decimal(
        m.layer_mask as nat,
    )
}

/// Index of the first comma at or after `p`, or the length of `s`.
fn find_comma(s: &[u8], p: usize) -> (r: usize)
    requires
        p <= s.len(),
    ensures
        r == comma_at_or_after(s@, p as int),
        p <= r <= s.len(),
{
    let mut e = p;
    while e < s.len() && s[e] != 44
        invariant
            p <= e <= s.len(),
            comma_at_or_after(s@, p as int) == comma_at_or_after(s@, e as int),
        decreases s.len() - e,
    {
        e = e + 1;
    }
    e
}

impl Mc4dTwist {
    /// Constructs a log file twist.
    pub fn new(sticker: usize, multiplier: i8, layer_mask: u8) -> (r: Mc4dTwist)
        ensures
            r == (Mc4dTwist { sticker, multiplier, layer_mask }),
    {
        Mc4dTwist { sticker, multiplier, layer_mask }
    }

    /// Reads a log file twist from its text `sticker,multiplier,layers`.
    pub fn from_bytes(s: &[u8]) -> (r: Option<Mc4dTwist>)
        ensures
            r == parse_mc4d_twist(s@),
    {
        let c1 = find_comma(s, 0);
        if c1 == s.len() {
            return None;
        }
        let c2 = find_comma(s, c1 + 1);
        if c2 == s.len() {
            return None;
        }
        let c3 = find_comma(s, c2 + 1);
        if c3 != s.len() {
            return None;
        }
        let a = parse_unsigned_exec(vstd::slice::slice_subrange(s, 0, c1), usize::MAX as u64);
        let b = parse_i8_exec(vstd::slice::slice_subrange(s, c1 + 1, c2));
        let c = parse_unsigned_exec(vstd::slice::slice_subrange(s, c2 + 1, s.len()), 255);
        match (a, b, c) {
            (Some(a), Some(b), Some(c)) => Some(Mc4dTwist { sticker: a as usize, multiplier: b, layer_mask: c as u8 }),
            _ => None,
        }
    }

    /// Appends the text of the twist: `sticker,multiplier,layers`.
    pub fn write_to(self, out: &mut Vec<u8>)
        ensures
            final(out)@ == old(out)@ + mc4d_twist_text(self),
    {
        push_decimal(out, self.sticker as u64);
        out.push(44);
        push_signed_decimal(out, self.multiplier);
        out.push(44);
        push_decimal(out, self.layer_mask as u64);
        proof {
            let t = mc4d_twist_text(self);
            assert(final(out)@ =~= old(out)@ + t);
        }
    }

    /// The layered twist that the twist stands for, given the twists of the
    /// stickers (see [`super::order::mc4d_twist_order`]).
    pub fn to_layered_twist(self, order: &Vec<Option<Twist>>) -> (r: LayeredTwist)
        requires
            self.sticker < order.len(),
            order[self.sticker as int] is Some,
        ensures
            r == layered_twist_of(self, order[self.sticker as int]->0),
    {
        let t = order[self.sticker].unwrap();
        let base = if self.multiplier < 0 {
            t.transform.inv()
        } else {
            t.transform
        };
        let count: u8 = if self.multiplier < 0 {
            (-(self.multiplier as i16)) as u8
        } else {
            self.multiplier as u8
        };
        let mut transform = Elem::new(0);
        let mut k: u8 = 0;
        while k < count
            invariant
                k <= count,
                transform == elem_power(base, k as nat),
            decreases count - k,
        {
            transform = transform * base;
            k = k + 1;
        }
        LayeredTwist { twist: Twist { grip: t.grip, transform }, layer_mask: self.layer_mask }
    }
}

impl LayeredTwist {
    /// The twists of the puzzle that the layered twist amounts to, seen from
    /// the orientation `puzzle_offset`, which it updates: a twist that turns
    /// the middle layer turns the whole puzzle, then the other layers back.
    pub fn to_twists(self, puzzle_offset: &mut Elem) -> (r: StackVec<Twist, 2>)
        ensures
            (r@, *final(puzzle_offset)) == layered_twist_effect(self, *old(puzzle_offset)),
    {
        let mut twist = self.twist;
        let mut layer_mask = self.layer_mask;
        let middle_slice = layer_mask & 2 != 0;
        if middle_slice {
            *puzzle_offset = *puzzle_offset * self.twist.transform.inv();
            twist = Twist { grip: twist.grip, transform: twist.transform.inv() };
            layer_mask = layer_mask ^ 7;
        }
        let offset = *puzzle_offset;
        let mut ret: StackVec<Twist, 2> = StackVec::new();
        if layer_mask & 1 != 0 {
            ret = match ret.push(offset.transform(twist)) {
                Some(v) => v,
                None => StackVec::new(),
            };
        }
        if layer_mask & 4 != 0 {
            let twist_on_opposite = Twist { grip: twist.grip.opposite(), transform: twist.transform };
            proof {
                let og = Grip::with_id(opposite_id(twist.grip.spec_id()));
                assert(og.spec_id() == opposite_id(twist.grip.spec_id()));
                assert(twist_on_opposite.grip.spec_id() == og.spec_id());
                assert(twist_on_opposite.grip == og);
            }
            ret = match ret.push(offset.transform(twist_on_opposite)) {
                Some(v) => v,
                None => StackVec::new(),
            };
        }
        ret
    }
}

/// How a log file writes the twist `t`, given the twists of the stickers.
pub fn mc4d_twist_for_exec(order: &Vec<Option<Twist>>, t: Twist) -> (r: Option<Mc4dTwist>)
    ensures
        r == mc4d_twist_for(order@, t),
{
    let mut n = order.len();
    while n > 0
        invariant
            n <= order.len(),
            last_sticker_of(order@, t, order.len() as nat) == last_sticker_of(order@, t, n as nat),
        decreases n,
    {
        let i = n - 1;
        if order[i] == Some(t) {
            return Some(Mc4dTwist { sticker: i, multiplier: 1, layer_mask: 1 });
        }
        n = i;
    }
    let mut i: usize = 0;
    while i < order.len()
        invariant
            i <= order.len(),
            last_sticker_of(order@, t, order.len() as nat) is None,
            first_double_of(order@, t, i as nat) is None,
        decreases order.len() - i,
    {
        match order[i] {
            Some(s) => {
                let double = Twist { grip: s.grip, transform: s.transform * s.transform };
                if double == t {
                    proof {
                        assert(is_double_of(order@, i as int, t));
                        lemma_first_double_stays(order@, t, (i + 1) as nat, order.len() as nat);
                    }
                    return Some(Mc4dTwist { sticker: i, multiplier: 2, layer_mask: 1 });
                }
            },
            None => {},
        }
        i = i + 1;
    }
    None
}

/// Once a sticker is found, later bounds find the same one.
proof fn lemma_first_double_stays(order: Seq<Option<Twist>>, t: Twist, n: nat, m: nat)
    requires
        n <= m,
        first_double_of(order, t, n) is Some,
    ensures
        first_double_of(order, t, m) == first_double_of(order, t, n),
    decreases m - n,
{
    if n < m {
        lemma_first_double_stays(order, t, n, (m - 1) as nat);
    }
}

/// The first comma at or after `p` is at `q` when there is none between.
proof fn lemma_comma_at(s: Seq<u8>, p: int, q: int)
    requires
        0 <= p <= q <= s.len(),
        forall|i: int| p <= i < q ==> s[i] != 44,
        q == s.len() || s[q] == 44,
    ensures
        comma_at_or_after(s, p) == q,
    decreases q - p,
{
    if p < q {
        lemma_comma_at(s, p + 1, q);
    }
}

/// A log file twist reads back as written.
pub proof fn lemma_mc4d_twist_text_reads_back(m: Mc4dTwist)
    ensures
        parse_mc4d_twist(mc4d_twist_text(m)) == Some(m),
{
    let a = decimal(m.sticker as nat);
    let b = signed_decimal(m.multiplier as int);
    let c = decimal(m.layer_mask as nat);
    let t = mc4d_twist_text(m);
    lemma_decimal_reads_back(m.sticker as nat);
    lemma_decimal_reads_back(m.layer_mask as nat);
    lemma_decimal_reads_back(multiplier_abs(m.multiplier));
    assert(t == a + seq![44u8] + b + seq![44u8] + c);
    let c1 = a.len() as int;
    let c2 = c1 + 1 + b.len();
    assert forall|i: int| 0 <= i < c1 implies t[i] != 44 by {
        assert(t[i] == a[i]);
        assert(is_digit(a[i]));
    }
    assert(t[c1] == 44);
    lemma_comma_at(t, 0, c1);
    assert forall|i: int| c1 + 1 <= i < c2 implies t[i] != 44 by {
        assert(t[i] == b[i - c1 - 1]);
        if m.multiplier < 0 {
            let d = decimal(multiplier_abs(m.multiplier));
            if i > c1 + 1 {
                assert(b[i - c1 - 1] == d[i - c1 - 2]);
                assert(is_digit(d[i - c1 - 2]));
            }
        } else {
            assert(is_digit(b[i - c1 - 1]));
        }
    }
    assert(t[c2] == 44);
    lemma_comma_at(t, c1 + 1, c2);
    assert forall|i: int| c2 + 1 <= i < t.len() implies t[i] != 44 by {
        assert(t[i] == c[i - c2 - 1]);
        assert(is_digit(c[i - c2 - 1]));
    }
    lemma_comma_at(t, c2 + 1, t.len() as int);
    assert(t.subrange(0, c1) == a);
    assert(t.subrange(c1 + 1, c2) == b);
    assert(t.subrange(c2 + 1, t.len() as int) == c);
    lemma_parse_unsigned_decimal(m.sticker as nat, usize::MAX as nat);
    lemma_parse_unsigned_decimal(m.layer_mask as nat, 255);
    lemma_parse_i8_signed_decimal(m.multiplier);
}

} // verus!
