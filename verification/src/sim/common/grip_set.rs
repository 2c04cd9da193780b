use vstd::prelude::*;

use crate::bits::{bit8, count8, lemma_bit8_all, lemma_bit8_eq, lemma_bit8_shift, lemma_members8, members8};

use super::axis::Axis;
use super::element::Elem;
use super::grip::{opposite_id, Grip};

verus! {

/// Grip set (8 bits)
#[derive(Debug, Default, Copy, Clone, PartialEq, Eq, Hash, PartialOrd, Ord, Structural)]
pub struct GripSet(pub(crate) u8);

/// Swapping the bits of each pair swaps each grip with its opposite.
proof fn lemma_opposite_bits(x: u8, g: u8)
    by (bit_vector)
    requires
        g < 8,
    ensures
        bit8((x & 0x55) << 1u8 | (x & 0xAA) >> 1u8, g) == bit8(x, opposite_id(g)),
{
}

impl GripSet {
    /// The bitmask of the set.
    pub closed spec fn spec_bits(self) -> u8 {
        self.0
    }

    /// The opposite grip set.
    pub closed spec fn spec_opposites(self) -> GripSet {
        GripSet((self.0 & 0x55) << 1u8 | (self.0 & 0xAA) >> 1u8)
    }

    /// Sets with the same bits are equal.
    pub proof fn lemma_bits_eq(a: GripSet, b: GripSet)
        requires
            a.spec_bits() == b.spec_bits(),
        ensures
            a == b,
    {
    }

    /// The set with the given bits.
    pub closed spec fn of_bits(bits: u8) -> GripSet {
        GripSet(bits)
    }

    /// The bits of the set with the given bits.
    pub proof fn lemma_of_bits(bits: u8)
        ensures
            GripSet::of_bits(bits).spec_bits() == bits,
    {
    }

    /// Whether grip `g` is in the set.
    pub open spec fn has(self, g: int) -> bool {
        0 <= g < 8 && bit8(self.spec_bits(), g as u8)
    }

    /// The grips in the set, in increasing order.
    pub open spec fn members(self) -> Seq<int> {
        members8(self.spec_bits(), 8)
    }

    /// The number of grips in the set.
    pub open spec fn count(self) -> nat {
        count8(self.spec_bits(), 8)
    }

    /// Sets with the same members are equal.
    pub proof fn lemma_ext(a: GripSet, b: GripSet)
        requires
            forall|g: int| 0 <= g < 8 ==> a.has(g) == b.has(g),
        ensures
            a == b,
    {
        assert forall|i: u8| i < 8 implies bit8(a.0, i) == bit8(b.0, i) by {
            assert(a.has(i as int) == b.has(i as int));
        }
        lemma_bit8_eq(a.0, b.0);
    }

    /// Facts about the members of a set.
    pub proof fn lemma_members(self)
        ensures
            self.members().len() == self.count(),
            self.count() <= 8,
            forall|i: int| 0 <= i < self.members().len() ==> 0 <= #[trigger] self.members()[i] < 8,
            forall|i: int, j: int|
                0 <= i < j < self.members().len() ==> self.members()[i] < self.members()[j],
            forall|g: int| 0 <= g < 8 ==> (self.has(g) <==> self.members().contains(g)),
    {
        lemma_members8(self.0, 8);
        crate::bits::lemma_count8(self.0, 8);
    }

    /// Set containing no grips
    pub fn empty() -> (r: GripSet)
        ensures
            r.spec_bits() == 0,
            forall|g: int| !r.has(g),
    {
        proof {
            lemma_bit8_all();
        }
        GripSet(0)
    }

    /// Set containing all grips
    pub fn all() -> (r: GripSet)
        ensures
            forall|g: int| 0 <= g < 8 ==> r.has(g),
    {
        proof {
            lemma_bit8_all();
        }
        GripSet(0xFF)
    }

    /// Constructs an grip set from a bitmask.
    pub fn from_bits(bits: u8) -> (r: GripSet)
        ensures
            r.spec_bits() == bits,
    {
        GripSet(bits)
    }

    /// Returns the bitmask of the grip set.
    pub fn bits(self) -> (r: u8)
        ensures
            r == self.spec_bits(),
    {
        self.0
    }

    /// Returns whether a grip is in the set.
    pub fn contains(self, grip: Grip) -> (r: bool)
        ensures
            r == self.has(grip.spec_id() as int),
    {
        proof {
            lemma_bit8_all();
        }
        self.0 & (1u8 << grip.id()) != 0
    }

    /// Returns the grips in the set, in increasing order.
    pub fn iter(self) -> (r: Vec<Grip>)
        ensures
            r@.len() == self.members().len(),
            forall|i: int| 0 <= i < r.len() ==> (#[trigger] r[i]).spec_id() == self.members()[i],
    {
        let mut r: Vec<Grip> = Vec::new();
        let mut g: u8 = 0;
        while g < 8
            invariant
                g <= 8,
                r@.len() == members8(self.0, g as nat).len(),
                forall|i: int| 0 <= i < r.len() ==> (#[trigger] r[i]).spec_id() == members8(self.0, g as nat)[i],
            decreases 8 - g,
        {
            let grip = Grip::new(g);
            if self.contains(grip) {
                r.push(grip);
            }
            g = g + 1;
        }
        r
    }

    /// Returns the number of grips in the set.
    pub fn len(self) -> (r: u32)
        ensures
            r == self.count(),
    {
        let mut n: u32 = 0;
        let mut g: u8 = 0;
        while g < 8
            invariant
                g <= 8,
                n == count8(self.0, g as nat),
                n <= g,
            decreases 8 - g,
        {
            if self.contains(Grip::new(g)) {
                n = n + 1;
            }
            g = g + 1;
        }
        n
    }

    /// Returns whether the grip set is empty.
    pub fn is_empty(self) -> (r: bool)
        ensures
            r == (forall|g: int| !self.has(g)),
    {
        proof {
            lemma_bit8_all();
            if self.0 != 0 {
                if forall|g: int| !self.has(g) {
                    assert forall|i: u8| i < 8 implies bit8(self.0, i) == bit8(0u8, i) by {
                        assert(!self.has(i as int));
                    }
                    lemma_bit8_eq(self.0, 0);
                }
            }
        }
        self.0 == 0
    }

    /// Returns the opposite grip set.
    ///
    /// Think of this as a central inversion of the grip set.
    pub fn opposites(self) -> (r: GripSet)
        ensures
            r == self.spec_opposites(),
            forall|g: int| 0 <= g < 8 ==> #[trigger] r.has(g) == self.has(opposite_id(g as u8) as int),
    {
        let x = self.0;
        let r = (x & 0x55) << 1u8 | (x & 0xAA) >> 1u8;
        proof {
            assert forall|g: int| 0 <= g < 8 implies #[trigger] bit8(r, g as u8) == bit8(x, opposite_id(g as u8)) by {
                lemma_opposite_bits(x, g as u8);
            }
        }
        GripSet(r)
    }

    /// Returns the only grip in the set, or `None` if there is not exactly one
    /// grip in the set.
    pub fn exactly_one(self) -> (r: Option<Grip>)
        ensures
            r is Some <==> self.count() == 1,
            r matches Some(g) ==> g.spec_id() == self.members()[0],
    {
        let v = self.iter();
        proof {
            self.lemma_members();
        }
        if v.len() == 1 {
            Some(v[0])
        } else {
            None
        }
    }

    /// Returns the only two grips in the set, or `None` if there are not
    /// exactly two grips in the set.
    pub fn exactly_two(self) -> (r: Option<[Grip; 2]>)
        ensures
            r is Some <==> self.count() == 2,
            r matches Some(gs) ==> gs[0].spec_id() == self.members()[0] && gs[1].spec_id()
                == self.members()[1],
    {
        let v = self.iter();
        proof {
            self.lemma_members();
        }
        if v.len() == 2 {
            Some([v[0], v[1]])
        } else {
            None
        }
    }

    /// Returns the only grip in the set.
    pub fn unwrap_one(self) -> (g: Grip)
        requires
            self.count() == 1,
        ensures
            g.spec_id() == self.members()[0],
    {
        self.exactly_one().unwrap()
    }

    /// Returns the only two grips in the set.
    pub fn unwrap_two(self) -> (gs: [Grip; 2])
        requires
            self.count() == 2,
        ensures
            gs[0].spec_id() == self.members()[0],
            gs[1].spec_id() == self.members()[1],
    {
        self.exactly_two().unwrap()
    }

    /// Constructs a grip set containing the two grips on an axis.
    pub fn from_axis(axis: Axis) -> (r: GripSet)
        ensures
            forall|g: int| #[trigger] r.has(g) <==> 0 <= g < 8 && g / 2 == axis.spec_id(),
    {
        let a = axis.id();
        let r = GripSet(3u8 << (2 * a));
        proof {
            assert forall|g: int| #[trigger] r.has(g) <==> 0 <= g < 8 && g / 2 == axis.spec_id() by {
                if 0 <= g < 8 {
                    lemma_axis_bits(a, g as u8);
                }
            }
        }
        r
    }

    /// Constructs a grip set containing a single grip.
    pub fn from_grip(grip: Grip) -> (r: GripSet)
        ensures
            r.spec_bits() == 1u8 << grip.spec_id(),
            forall|g: int| #[trigger] r.has(g) <==> g == grip.spec_id(),
    {
        proof {
            lemma_bit8_all();
        }
        GripSet(1u8 << grip.id())
    }

    /// Constructs a grip set containing the given grips.
    pub fn from_grips(grips: &[Grip]) -> (r: GripSet)
        ensures
            forall|g: int| #[trigger] r.has(g) <==> exists|i: int| 0 <= i < grips.len() && grips[i].spec_id() == g,
    {
        let mut r = GripSet::empty();
        let mut i: usize = 0;
        while i < grips.len()
            invariant
                i <= grips.len(),
                forall|g: int| #[trigger] r.has(g) <==> exists|j: int| 0 <= j < i && grips[j].spec_id() == g,
            decreases grips.len() - i,
        {
            let old_r = r;
            r = r | GripSet::from_grip(grips[i]);
            proof {
                assert forall|g: int| #[trigger] r.has(g) <==> exists|j: int| 0 <= j < i + 1 && grips[j].spec_id() == g by {
                    if r.has(g) && !old_r.has(g) {
                        assert(grips[i as int].spec_id() == g);
                    }
                    if exists|j: int| 0 <= j < i + 1 && grips[j].spec_id() == g {
                        let j = choose|j: int| 0 <= j < i + 1 && grips[j].spec_id() == g;
                        if j < i {
                            assert(old_r.has(g));
                        }
                    }
                }
            }
            i = i + 1;
        }
        r
    }
}

/// The bits of an axis's grip pair.
proof fn lemma_axis_bits(a: u8, g: u8)
    by (bit_vector)
    requires
        a < 4,
        g < 8,
    ensures
        bit8(3u8 << (2 * a), g) == (g / 2 == a),
{
}

impl std::ops::BitOr for GripSet {
    type Output = GripSet;

    fn bitor(self, rhs: GripSet) -> (r: GripSet)
        ensures
            r == self.union(rhs),
            forall|g: int| #[trigger] r.has(g) == (self.has(g) || rhs.has(g)),
    {
        proof {
            lemma_bit8_all();
        }
        GripSet(self.0 | rhs.0)
    }
}

impl vstd::std_specs::ops::BitOrSpecImpl for GripSet {
    open spec fn obeys_bitor_spec() -> bool {
        true
    }

    open spec fn bitor_req(self, rhs: GripSet) -> bool {
        true
    }

    open spec fn bitor_spec(self, rhs: GripSet) -> GripSet {
        self.union(rhs)
    }
}

impl std::ops::BitAnd for GripSet {
    type Output = GripSet;

    fn bitand(self, rhs: GripSet) -> (r: GripSet)
        ensures
            r == self.intersect(rhs),
            forall|g: int| #[trigger] r.has(g) == (self.has(g) && rhs.has(g)),
    {
        proof {
            lemma_bit8_all();
        }
        GripSet(self.0 & rhs.0)
    }
}

impl vstd::std_specs::ops::BitAndSpecImpl for GripSet {
    open spec fn obeys_bitand_spec() -> bool {
        true
    }

    open spec fn bitand_req(self, rhs: GripSet) -> bool {
        true
    }

    open spec fn bitand_spec(self, rhs: GripSet) -> GripSet {
        self.intersect(rhs)
    }
}

impl std::ops::BitXor for GripSet {
    type Output = GripSet;

    fn bitxor(self, rhs: GripSet) -> (r: GripSet)
        ensures
            r == self.sym_diff(rhs),
            forall|g: int| #[trigger] r.has(g) == (self.has(g) != rhs.has(g)),
    {
        proof {
            lemma_bit8_all();
        }
        GripSet(self.0 ^ rhs.0)
    }
}

impl vstd::std_specs::ops::BitXorSpecImpl for GripSet {
    open spec fn obeys_bitxor_spec() -> bool {
        true
    }

    open spec fn bitxor_req(self, rhs: GripSet) -> bool {
        true
    }

    open spec fn bitxor_spec(self, rhs: GripSet) -> GripSet {
        self.sym_diff(rhs)
    }
}

impl std::ops::Not for GripSet {
    type Output = GripSet;

    fn not(self) -> (r: GripSet)
        ensures
            r == self.complement(),
            forall|g: int| 0 <= g < 8 ==> #[trigger] r.has(g) == !self.has(g),
    {
        proof {
            lemma_bit8_all();
        }
        GripSet(self.0 ^ 0xFF)
    }
}

impl vstd::std_specs::ops::NotSpecImpl for GripSet {
    open spec fn obeys_not_spec() -> bool {
        true
    }

    open spec fn not_req(self) -> bool {
        true
    }

    open spec fn not_spec(self) -> GripSet {
        self.complement()
    }
}

impl GripSet {
    /// Union of two sets.
    pub closed spec fn union(self, rhs: GripSet) -> GripSet {
        GripSet(self.0 | rhs.0)
    }

    /// The union holds the grips of both sets.
    pub proof fn lemma_union_has(a: GripSet, b: GripSet)
        ensures
            forall|g: int| #[trigger] a.union(b).has(g) == (a.has(g) || b.has(g)),
    {
        lemma_bit8_all();
    }

    /// Intersection of two sets.
    pub closed spec fn intersect(self, rhs: GripSet) -> GripSet {
        GripSet(self.0 & rhs.0)
    }

    /// Symmetric difference of two sets.
    pub closed spec fn sym_diff(self, rhs: GripSet) -> GripSet {
        GripSet(self.0 ^ rhs.0)
    }

    /// Complement of a set.
    pub closed spec fn complement(self) -> GripSet {
        GripSet(self.0 ^ 0xFF)
    }
}

/// Bitmask of the images under `e` of the grips among the first `n` in `x`.
spec fn moved_bits(x: u8, e: Elem, n: nat) -> u8
    decreases n,
{
    if n == 0 {
        0
    } else if bit8(x, (n - 1) as u8) {
        moved_bits(x, e, (n - 1) as nat) | (1u8 << (e.grip_image(n - 1) as u8))
    } else {
        moved_bits(x, e, (n - 1) as nat)
    }
}

/// The bits of the image of the first `n` grips of `x` under `e`.
proof fn lemma_moved_bits(x: u8, e: Elem, n: nat, h: u8)
    requires
        n <= 8,
        h < 8,
        e.spec_id() < 192,
    ensures
        bit8(moved_bits(x, e, n), h) == exists|g: int| 0 <= g < n && bit8(x, g as u8) && #[trigger] e.grip_image(g) == h,
    decreases n,
{
    crate::bits::lemma_bit8_ops(0, 0, h);
    if n > 0 {
        lemma_moved_bits(x, e, (n - 1) as nat, h);
        let m = n - 1;
        let prev = moved_bits(x, e, (n - 1) as nat);
        Elem::lemma_action(e, e, m);
        if bit8(x, m as u8) {
            let img = e.grip_image(m);
            crate::bits::lemma_bit8_ops(prev, 1u8 << (img as u8), h);
            crate::bits::lemma_bit8_one(img as u8, h);
            if e.grip_image(m) == h {
                assert(bit8(x, m as u8) && e.grip_image(m) == h);
            }
        }
        if exists|g: int| 0 <= g < n && bit8(x, g as u8) && #[trigger] e.grip_image(g) == h {
            let g = choose|g: int| 0 <= g < n && bit8(x, g as u8) && #[trigger] e.grip_image(g) == h;
            if g < m {
                assert(exists|g2: int| 0 <= g2 < m && bit8(x, g2 as u8) && #[trigger] e.grip_image(g2) == h);
            }
        }
    }
}

impl GripSet {
    /// The image of the set under an element.
    pub closed spec fn moved_by(self, e: Elem) -> GripSet {
        GripSet(moved_bits(self.0, e, 8))
    }

    /// A grip is in the image of a set exactly when its preimage is in the
    /// set.
    pub proof fn lemma_moved_by(self, e: Elem)
        requires
            e.spec_id() < 192,
        ensures
            forall|g: int| 0 <= g < 8 ==> #[trigger] self.moved_by(e).has(e.grip_image(g)) == self.has(g),
    {
        assert forall|g: int| 0 <= g < 8 implies #[trigger] self.moved_by(e).has(e.grip_image(g)) == self.has(g) by {
            Elem::lemma_action(e, e, g);
            let h = e.grip_image(g);
            lemma_moved_bits(self.0, e, 8, h as u8);
            if exists|g2: int| 0 <= g2 < 8 && bit8(self.0, g2 as u8) && #[trigger] e.grip_image(g2) == h {
                let g2 = choose|g2: int| 0 <= g2 < 8 && bit8(self.0, g2 as u8) && #[trigger] e.grip_image(g2) == h;
                Elem::lemma_action(e, e, g2);
                assert(e.inverse().grip_image(e.grip_image(g2)) == g2);
            }
            if self.has(g) {
                assert(bit8(self.0, g as u8) && e.grip_image(g) == h);
            }
        }
    }
}

impl vstd::std_specs::ops::MulSpecImpl<GripSet> for Elem {
    open spec fn obeys_mul_spec() -> bool {
        true
    }

    open spec fn mul_req(self, rhs: GripSet) -> bool {
        true
    }

    open spec fn mul_spec(self, rhs: GripSet) -> GripSet {
        rhs.moved_by(self)
    }
}

impl std::ops::Mul<GripSet> for Elem {
    type Output = GripSet;

    fn mul(self, rhs: GripSet) -> (r: GripSet)
        ensures
            r == rhs.moved_by(self),
            forall|g: int| 0 <= g < 8 ==> #[trigger] r.has(self.grip_image(g)) == rhs.has(g),
    {
        let mut r = GripSet::empty();
        let mut i: u8 = 0;
        let inv = self.inv();
        let _ = self.id();
        proof {
            Elem::lemma_bijection(self);
        }
        while i < 8
            invariant
                i <= 8,
                inv == self.inverse(),
                forall|g: int|
                    0 <= g < 8 ==> 0 <= #[trigger] self.grip_image(g) < 8 && inv.grip_image(
                        self.grip_image(g),
                    ) == g,
                forall|h: int|
                    0 <= h < 8 ==> 0 <= #[trigger] inv.grip_image(h) < 8 && self.grip_image(
                        inv.grip_image(h),
                    ) == h,
                forall|h: int|
                    0 <= h < 8 ==> #[trigger] r.has(h) == (inv.grip_image(h) < i && rhs.has(
                        inv.grip_image(h),
                    )),
                r.0 == moved_bits(rhs.0, self, i as nat),
            decreases 8 - i,
        {
            let g = Grip::new(i);
            let ghost old_r = r;
            if rhs.contains(g) {
                let image = self * g;
                let single = GripSet::from_grip(image);
                r = r | single;
                proof {
                    assert forall|h: int| 0 <= h < 8 implies #[trigger] r.has(h) == (
                    inv.grip_image(h) < i + 1 && rhs.has(inv.grip_image(h))) by {
                        assert(r.has(h) == (old_r.has(h) || single.has(h)));
                        if h == image.spec_id() {
                            assert(inv.grip_image(h) == i);
                        } else {
                            assert(self.grip_image(inv.grip_image(h)) == h);
                            assert(inv.grip_image(h) != i);
                        }
                    }
                }
            }
            i = i + 1;
        }
        r
    }
}

} // verus!
