use vstd::prelude::*;

use crate::bits::{bit8, count8, lemma_bit8_all, lemma_bit8_eq, lemma_bit8_low4, lemma_members8, members8};

use super::axis::Axis;
use super::element::Elem;

verus! {

/// Axis set (4 bits)
#[derive(Debug, Default, Copy, Clone, PartialEq, Eq, Hash, PartialOrd, Ord, Structural)]
pub struct AxisSet(pub(crate) u8);

/// Bitmask of the images under `e` of the axes among the first `n` in `x`.
spec fn moved_axis_bits(x: u8, e: Elem, n: nat) -> u8
    decreases n,
{
    if n == 0 {
        0
    } else if bit8(x, (n - 1) as u8) {
        moved_axis_bits(x, e, (n - 1) as nat) | (1u8 << ((e.grip_image(2 * (n - 1)) / 2) as u8))
    } else {
        moved_axis_bits(x, e, (n - 1) as nat)
    }
}

impl AxisSet {
    #[verifier::type_invariant]
    spec fn wf(self) -> bool {
        self.0 < 16
    }

    /// The bitmask of the set.
    pub closed spec fn spec_bits(self) -> u8 {
        self.0
    }

    /// Whether axis `a` is in the set.
    pub open spec fn has(self, a: int) -> bool {
        0 <= a < 4 && bit8(self.spec_bits(), a as u8)
    }

    /// The axes in the set, in increasing order.
    pub open spec fn members(self) -> Seq<int> {
        members8(self.spec_bits(), 4)
    }

    /// The number of axes in the set.
    pub open spec fn count(self) -> nat {
        count8(self.spec_bits(), 4)
    }

    /// Union of two sets.
    pub closed spec fn union(self, rhs: AxisSet) -> AxisSet {
        AxisSet(self.0 | rhs.0)
    }

    /// Intersection of two sets.
    pub closed spec fn intersect(self, rhs: AxisSet) -> AxisSet {
        AxisSet(self.0 & rhs.0)
    }

    /// Symmetric difference of two sets.
    pub closed spec fn sym_diff(self, rhs: AxisSet) -> AxisSet {
        AxisSet(self.0 ^ rhs.0)
    }

    /// Complement of a set.
    pub closed spec fn complement(self) -> AxisSet {
        AxisSet(self.0 ^ 0xF)
    }

    /// The image of the set under an element.
    pub closed spec fn moved_by(self, e: Elem) -> AxisSet {
        AxisSet(moved_axis_bits(self.0, e, 4))
    }

    proof fn lemma_bits(x: u8)
        ensures
            x < 16 <==> forall|i: u8| 4 <= i < 8 ==> !bit8(x, i),
    {
        lemma_bit8_low4(x);
    }

    /// Facts about the members of a set.
    pub proof fn lemma_members(self)
        ensures
            self.members().len() == self.count(),
            self.count() <= 4,
            forall|i: int| 0 <= i < self.members().len() ==> 0 <= #[trigger] self.members()[i] < 4,
            forall|i: int, j: int|
                0 <= i < j < self.members().len() ==> self.members()[i] < self.members()[j],
            forall|a: int| 0 <= a < 4 ==> (self.has(a) <==> self.members().contains(a)),
    {
        lemma_members8(self.0, 4);
        crate::bits::lemma_count8(self.0, 4);
    }

    /// Set containing no axes
    pub fn empty() -> (r: AxisSet)
        ensures
            r.spec_bits() == 0,
            forall|a: int| !r.has(a),
    {
        proof {
            lemma_bit8_all();
        }
        AxisSet(0)
    }

    /// Set containing all axes
    pub fn all() -> (r: AxisSet)
        ensures
            forall|a: int| 0 <= a < 4 ==> r.has(a),
    {
        proof {
            lemma_bit8_all();
            lemma_axis_set_bits(0xF, 0xF);
        }
        AxisSet(0xF)
    }

    /// Constructs an axis set from a bitmask.
    pub fn from_bits(bits: u8) -> (r: AxisSet)
        requires
            bits <= 0xF,
        ensures
            r.spec_bits() == bits,
    {
        AxisSet(bits)
    }

    /// Returns the bitmask of the axis set.
    pub fn bits(self) -> (r: u8)
        ensures
            r == self.spec_bits(),
            r < 16,
    {
        proof {
            use_type_invariant(self);
        }
        self.0
    }

    /// Returns whether an axis is in the set.
    pub fn contains(self, axis: Axis) -> (r: bool)
        ensures
            r == self.has(axis.spec_id() as int),
    {
        proof {
            lemma_bit8_all();
        }
        self.0 & (1u8 << axis.id()) != 0
    }

    /// Returns the axes in the set, in increasing order.
    pub fn iter(self) -> (r: Vec<Axis>)
        ensures
            r@.len() == self.members().len(),
            forall|i: int| 0 <= i < r.len() ==> (#[trigger] r[i]).spec_id() == self.members()[i],
    {
        let mut r: Vec<Axis> = Vec::new();
        let mut a: u8 = 0;
        while a < 4
            invariant
                a <= 4,
                r@.len() == members8(self.0, a as nat).len(),
                forall|i: int| 0 <= i < r.len() ==> (#[trigger] r[i]).spec_id() == members8(self.0, a as nat)[i],
            decreases 4 - a,
        {
            let axis = Axis::new(a);
            if self.contains(axis) {
                r.push(axis);
            }
            a = a + 1;
        }
        r
    }

    /// Returns the number of axes in the set.
    pub fn len(self) -> (r: u32)
        ensures
            r == self.count(),
    {
        let mut n: u32 = 0;
        let mut a: u8 = 0;
        while a < 4
            invariant
                a <= 4,
                n == count8(self.0, a as nat),
                n <= a,
            decreases 4 - a,
        {
            if self.contains(Axis::new(a)) {
                n = n + 1;
            }
            a = a + 1;
        }
        n
    }

    /// Returns whether the axis set is empty.
    pub fn is_empty(self) -> (r: bool)
        ensures
            r == (forall|a: int| !self.has(a)),
    {
        proof {
            use_type_invariant(self);
            lemma_bit8_all();
            AxisSet::lemma_bits(self.0);
            if self.0 != 0 {
                if forall|a: int| !self.has(a) {
                    assert forall|i: u8| i < 8 implies bit8(self.0, i) == bit8(0u8, i) by {
                        if i < 4 {
                            assert(!self.has(i as int));
                        }
                    }
                    lemma_bit8_eq(self.0, 0);
                }
            }
        }
        self.0 == 0
    }

    /// Returns the only axis in the set, or `None` if there is not exactly one
    /// axis in the set.
    pub fn exactly_one(self) -> (r: Option<Axis>)
        ensures
            r is Some <==> self.count() == 1,
            r matches Some(a) ==> a.spec_id() == self.members()[0],
    {
        let v = self.iter();
        proof {
            self.lemma_members();
        }
        if v.len() == 1 {
            Some(v[0])
        } else {
            None
        }
    }

    /// Returns the only axis in the set.
    pub fn unwrap_one(self) -> (a: Axis)
        requires
            self.count() == 1,
        ensures
            a.spec_id() == self.members()[0],
    {
        self.exactly_one().unwrap()
    }

    /// Constructs an axis set containing a single axis.
    pub fn from_axis(axis: Axis) -> (r: AxisSet)
        ensures
            r.spec_bits() == 1u8 << axis.spec_id(),
            forall|a: int| #[trigger] r.has(a) <==> a == axis.spec_id(),
    {
        let id = axis.id();
        proof {
            lemma_bit8_all();
            lemma_axis_set_bits(id, 0);
        }
        AxisSet(1u8 << id)
    }

    /// Constructs an axis set containing the given axes.
    pub fn from_axes(axes: &[Axis]) -> (r: AxisSet)
        ensures
            forall|a: int| #[trigger] r.has(a) <==> exists|i: int| 0 <= i < axes.len() && axes[i].spec_id() == a,
    {
        let mut r = AxisSet::empty();
        let mut i: usize = 0;
        while i < axes.len()
            invariant
                i <= axes.len(),
                forall|a: int| #[trigger] r.has(a) <==> exists|j: int| 0 <= j < i && axes[j].spec_id() == a,
            decreases axes.len() - i,
        {
            let old_r = r;
            r = r | AxisSet::from_axis(axes[i]);
            proof {
                assert forall|a: int| #[trigger] r.has(a) <==> exists|j: int| 0 <= j < i + 1 && axes[j].spec_id() == a by {
                    if r.has(a) && !old_r.has(a) {
                        assert(axes[i as int].spec_id() == a);
                    }
                    if exists|j: int| 0 <= j < i + 1 && axes[j].spec_id() == a {
                        let j = choose|j: int| 0 <= j < i + 1 && axes[j].spec_id() == a;
                        if j < i {
                            assert(old_r.has(a));
                        }
                    }
                }
            }
            i = i + 1;
        }
        r
    }
}

/// Bitwise operations keep axis sets below 16.
proof fn lemma_axis_set_bits(x: u8, y: u8)
    by (bit_vector)
    requires
        x < 16,
        y < 16,
    ensures
        x | y < 16,
        x & y < 16,
        x ^ y < 16,
        x ^ 0xFu8 < 16,
        (1u8 << (x & 3u8)) < 16,
        x < 4 ==> (1u8 << x) < 16,
        bit8(0xFu8, 0) && bit8(0xFu8, 1) && bit8(0xFu8, 2) && bit8(0xFu8, 3),
{
}

impl std::ops::BitOr for AxisSet {
    type Output = AxisSet;

    fn bitor(self, rhs: AxisSet) -> (r: AxisSet)
        ensures
            r == self.union(rhs),
            forall|a: int| #[trigger] r.has(a) == (self.has(a) || rhs.has(a)),
    {
        proof {
            use_type_invariant(self);
            use_type_invariant(rhs);
            lemma_bit8_all();
            lemma_axis_set_bits(self.0, rhs.0);
        }
        AxisSet(self.0 | rhs.0)
    }
}

impl vstd::std_specs::ops::BitOrSpecImpl for AxisSet {
    open spec fn obeys_bitor_spec() -> bool {
        true
    }

    open spec fn bitor_req(self, rhs: AxisSet) -> bool {
        true
    }

    open spec fn bitor_spec(self, rhs: AxisSet) -> AxisSet {
        self.union(rhs)
    }
}

impl std::ops::BitAnd for AxisSet {
    type Output = AxisSet;

    fn bitand(self, rhs: AxisSet) -> (r: AxisSet)
        ensures
            r == self.intersect(rhs),
            forall|a: int| #[trigger] r.has(a) == (self.has(a) && rhs.has(a)),
    {
        proof {
            use_type_invariant(self);
            use_type_invariant(rhs);
            lemma_bit8_all();
            lemma_axis_set_bits(self.0, rhs.0);
        }
        AxisSet(self.0 & rhs.0)
    }
}

impl vstd::std_specs::ops::BitAndSpecImpl for AxisSet {
    open spec fn obeys_bitand_spec() -> bool {
        true
    }

    open spec fn bitand_req(self, rhs: AxisSet) -> bool {
        true
    }

    open spec fn bitand_spec(self, rhs: AxisSet) -> AxisSet {
        self.intersect(rhs)
    }
}

impl std::ops::BitXor for AxisSet {
    type Output = AxisSet;

    fn bitxor(self, rhs: AxisSet) -> (r: AxisSet)
        ensures
            r == self.sym_diff(rhs),
            forall|a: int| #[trigger] r.has(a) == (self.has(a) != rhs.has(a)),
    {
        proof {
            use_type_invariant(self);
            use_type_invariant(rhs);
            lemma_bit8_all();
            lemma_axis_set_bits(self.0, rhs.0);
        }
        AxisSet(self.0 ^ rhs.0)
    }
}

impl vstd::std_specs::ops::BitXorSpecImpl for AxisSet {
    open spec fn obeys_bitxor_spec() -> bool {
        true
    }

    open spec fn bitxor_req(self, rhs: AxisSet) -> bool {
        true
    }

    open spec fn bitxor_spec(self, rhs: AxisSet) -> AxisSet {
        self.sym_diff(rhs)
    }
}

impl std::ops::Not for AxisSet {
    type Output = AxisSet;

    fn not(self) -> (r: AxisSet)
        ensures
            r == self.complement(),
            forall|a: int| 0 <= a < 4 ==> #[trigger] r.has(a) == !self.has(a),
    {
        proof {
            use_type_invariant(self);
            lemma_bit8_all();
            lemma_axis_set_bits(self.0, 0);
        }
        AxisSet(self.0 ^ 0xF)
    }
}

impl vstd::std_specs::ops::NotSpecImpl for AxisSet {
    open spec fn obeys_not_spec() -> bool {
        true
    }

    open spec fn not_req(self) -> bool {
        true
    }

    open spec fn not_spec(self) -> AxisSet {
        self.complement()
    }
}

impl vstd::std_specs::ops::MulSpecImpl<AxisSet> for Elem {
    open spec fn obeys_mul_spec() -> bool {
        true
    }

    open spec fn mul_req(self, rhs: AxisSet) -> bool {
        true
    }

    open spec fn mul_spec(self, rhs: AxisSet) -> AxisSet {
        rhs.moved_by(self)
    }
}

impl std::ops::Mul<AxisSet> for Elem {
    type Output = AxisSet;

    fn mul(self, rhs: AxisSet) -> (r: AxisSet)
        ensures
            r == rhs.moved_by(self),
            forall|a: int| 0 <= a < 4 ==> #[trigger] r.has(self.grip_image(2 * a) / 2) == rhs.has(a),
    {
        let mut r = AxisSet::empty();
        let mut i: u8 = 0;
        let inv = self.inv();
        let _ = self.id();
        proof {
            Elem::lemma_bijection(self);
            assert forall|a: int| 0 <= a < 4 implies 0 <= #[trigger] self.grip_image(2 * a) / 2 < 4
                && inv.grip_image(2 * (self.grip_image(2 * a) / 2)) / 2 == a by {
                Elem::lemma_action(self, self, 2 * a);
                Elem::lemma_action(inv, self, self.grip_image(2 * a));
                Elem::lemma_action(inv, self, self.grip_image(2 * a) - self.grip_image(2 * a) % 2);
            }
            assert forall|b: int| 0 <= b < 4 implies 0 <= #[trigger] inv.grip_image(2 * b) / 2 < 4
                && self.grip_image(2 * (inv.grip_image(2 * b) / 2)) / 2 == b by {
                Elem::lemma_action(inv, self, 2 * b);
                Elem::lemma_action(self, self, inv.grip_image(2 * b));
                Elem::lemma_action(self, self, inv.grip_image(2 * b) - inv.grip_image(2 * b) % 2);
            }
        }
        while i < 4
            invariant
                i <= 4,
                inv == self.inverse(),
                forall|a: int|
                    0 <= a < 4 ==> 0 <= #[trigger] self.grip_image(2 * a) / 2 < 4 && inv.grip_image(
                        2 * (self.grip_image(2 * a) / 2),
                    ) / 2 == a,
                forall|b: int|
                    0 <= b < 4 ==> 0 <= #[trigger] inv.grip_image(2 * b) / 2 < 4 && self.grip_image(
                        2 * (inv.grip_image(2 * b) / 2),
                    ) / 2 == b,
                forall|b: int|
                    0 <= b < 4 ==> #[trigger] r.has(b) == (inv.grip_image(2 * b) / 2 < i && rhs.has(
                        inv.grip_image(2 * b) / 2,
                    )),
                r.0 == moved_axis_bits(rhs.0, self, i as nat),
            decreases 4 - i,
        {
            let axis = Axis::new(i);
            let ghost old_r = r;
            if rhs.contains(axis) {
                let image = self * axis;
                let single = AxisSet::from_axis(image);
                r = r | single;
                proof {
                    assert forall|b: int| 0 <= b < 4 implies #[trigger] r.has(b) == (
                    inv.grip_image(2 * b) / 2 < i + 1 && rhs.has(inv.grip_image(2 * b) / 2)) by {
                        assert(r.has(b) == (old_r.has(b) || single.has(b)));
                        if b == image.spec_id() {
                            assert(inv.grip_image(2 * b) / 2 == i);
                        } else {
                            assert(self.grip_image(2 * (inv.grip_image(2 * b) / 2)) / 2 == b);
                            assert(inv.grip_image(2 * b) / 2 != i);
                        }
                    }
                }
            }
            i = i + 1;
        }
        r
    }
}

} // verus!
