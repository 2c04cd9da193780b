//! Layer masks of blocks, packed per axis.
use vstd::prelude::*;

use std::ops::Not;

use vstd::std_specs::bits::u16_trailing_zeros;

use crate::sim::common::elements::{self, fixes_plane};
use crate::sim::common::grip::opposite_id;
use crate::sim::common::{axes, Axis, Elem, Grip, GripSet};

verus! {

/// Status of a grip on a block.
#[derive(Debug, Copy, Clone, PartialEq, Eq, Hash, Structural)]
pub enum GripStatus {
    /// Only the grip's own layer is present on its axis.
    Active,
    /// The grip's own layer and the middle layer are present.
    Blocked,
    /// The grip's own layer is absent.
    Inactive,
}

/// The three layer bits of axis `a` (bit 0 for the positive layer, 1 for the
/// middle layer, 2 for the negative layer).
pub open spec fn axis_bits(x: u16, a: int) -> u16 {
    (x >> ((4 * a) as u16)) & 7u16
}

/// The lowest 3 bits in reverse order.
pub open spec fn rev3(v: u16) -> u16 {
    ((v & 1u16) << 2u16) | (v & 2u16) | ((v >> 2u16) & 1u16)
}

/// The layer bits of the axis of grip `g`, seen from `g`: bit 0 for the
/// layer of `g`, bit 2 for the layer of its opposite.
pub open spec fn grip_bits(x: u16, g: int) -> u16 {
    if g % 2 == 0 {
        axis_bits(x, g / 2)
    } else {
        rev3(axis_bits(x, g / 2))
    }
}

/// The bit of the layer of grip `g`.
pub open spec fn active_mask(g: int) -> u16 {
    1u16 << ((2 * g) as u16)
}

/// The bits of the other layers of the axis of grip `g`.
pub open spec fn inactive_mask(g: int) -> u16 {
    (7u16 << ((4 * (g / 2)) as u16)) ^ active_mask(g)
}

/// The layer bits of `x` moved by `e`, for the first `n` axes.
pub open spec fn moved_bits(e: Elem, x: u16, n: nat) -> u16
    decreases n,
{
    if n == 0 {
        0
    } else {
        moved_bits(e, x, (n - 1) as nat) | (grip_bits(x, e.inverse().grip_image(2 * (n - 1))) << ((4 * (n
            - 1)) as u16))
    }
}

/// Whether the status of a grip with layer bits `v` is defined: some layer
/// is present, and the present layers are connected.
pub open spec fn status_defined(v: u16) -> bool {
    v != 0 && v != 5
}

/// Layer bits are below 8.
proof fn lemma_axis_bits(x: u16, a: u16)
    by (bit_vector)
    requires
        a < 4,
    ensures
        (x >> (4 * a)) & 7u16 < 8,
        ((x >> (4 * a)) & 7u16) & 7u16 == (x >> (4 * a)) & 7u16,
{
}

/// Reversing 3 bits twice gives them back.
proof fn lemma_rev3(v: u16)
    by (bit_vector)
    requires
        v < 8,
    ensures
        rev3(v) < 8,
        rev3(rev3(v)) == v,
        rev3(v) & 2u16 == v & 2u16,
        (rev3(v) & 1u16 != 0) == (v & 4u16 != 0),
        (rev3(v) & 4u16 != 0) == (v & 1u16 != 0),
{
}

/// Four groups of layer bits packed into one value.
pub open spec fn pack4(v0: u16, v1: u16, v2: u16, v3: u16) -> u16 {
    (((0u16 | (v0 << 0u16)) | (v1 << 4u16)) | (v2 << 8u16)) | (v3 << 12u16)
}

/// Packing four groups of 3 bits and reading them back.
proof fn lemma_pack(v0: u16, v1: u16, v2: u16, v3: u16)
    by (bit_vector)
    requires
        v0 < 8,
        v1 < 8,
        v2 < 8,
        v3 < 8,
    ensures
        pack4(v0, v1, v2, v3) & 0x8888u16 == 0,
        (pack4(v0, v1, v2, v3) >> 0u16) & 7u16 == v0,
        (pack4(v0, v1, v2, v3) >> 4u16) & 7u16 == v1,
        (pack4(v0, v1, v2, v3) >> 8u16) & 7u16 == v2,
        (pack4(v0, v1, v2, v3) >> 12u16) & 7u16 == v3,
{
}

/// A value without stray bits is made of its four groups of layer bits.
proof fn lemma_unpack(x: u16)
    by (bit_vector)
    requires
        x & 0x8888u16 == 0,
    ensures
        x == pack4((x >> 0u16) & 7u16, (x >> 4u16) & 7u16, (x >> 8u16) & 7u16, (x >> 12u16) & 7u16),
{
}

/// The layer bits of the four axes, with the shifts written out.
proof fn lemma_axis_bits_lit(x: u16)
    ensures
        axis_bits(x, 0) == (x >> 0u16) & 7u16,
        axis_bits(x, 1) == (x >> 4u16) & 7u16,
        axis_bits(x, 2) == (x >> 8u16) & 7u16,
        axis_bits(x, 3) == (x >> 12u16) & 7u16,
{
    assert((4 * 0int) as u16 == 0u16);
    assert((4 * 1int) as u16 == 4u16);
    assert((4 * 2int) as u16 == 8u16);
    assert((4 * 3int) as u16 == 12u16);
}

/// Moved layer bits, with the recursion written out.
proof fn lemma_moved_unfold(e: Elem, x: u16)
    ensures
        moved_bits(e, x, 4) == pack4(
            grip_bits(x, e.inverse().grip_image(0)),
            grip_bits(x, e.inverse().grip_image(2)),
            grip_bits(x, e.inverse().grip_image(4)),
            grip_bits(x, e.inverse().grip_image(6)),
        ),
{
    reveal_with_fuel(moved_bits, 5);
    assert((4 * 0int) as u16 == 0u16);
    assert((4 * 1int) as u16 == 4u16);
    assert((4 * 2int) as u16 == 8u16);
    assert((4 * 3int) as u16 == 12u16);
}

/// An axis with no layer is detected by folding the layer bits together.
proof fn lemma_empty_axis(x: u16)
    by (bit_vector)
    ensures
        ((x | (x >> 1u16) | (x >> 2u16)) & 0x1111u16 != 0x1111u16) == (axis_bits(x, 0) == 0 || axis_bits(x, 1) == 0
            || axis_bits(x, 2) == 0 || axis_bits(x, 3) == 0),
{
}

/// Layer mask of a block: three bits per axis, `0www_0zzz_0yyy_0xxx`.
#[derive(Debug, Default, Copy, Clone, PartialEq, Eq, Hash, Structural)]
pub struct PackedLayers(pub(crate) u16);

impl PackedLayers {
    /// The packed bits.
    pub closed spec fn spec_bits(self) -> u16 {
        self.0
    }

    /// The empty mask.
    pub fn empty() -> (r: PackedLayers)
        ensures
            r.spec_bits() == 0,
    {
        PackedLayers(0)
    }

    /// The core of a 3D puzzle: the middle layers, and all of W.
    pub fn core_3d() -> (r: PackedLayers)
        ensures
            r.spec_bits() == 0x7222,
    {
        PackedLayers(0x7222)
    }

    /// The core of a 4D puzzle: the middle layers.
    pub fn core_4d() -> (r: PackedLayers)
        ensures
            r.spec_bits() == 0x2222,
    {
        PackedLayers(0x2222)
    }

    /// All layers.
    pub fn all() -> (r: PackedLayers)
        ensures
            r.spec_bits() == 0x7777,
    {
        PackedLayers(0x7777)
    }

    /// Returns the packed bits.
    pub fn to_u16(self) -> (r: u16)
        ensures
            r == self.spec_bits(),
    {
        self.0
    }

    /// Constructs a mask from packed bits.
    pub fn from_u16(i: u16) -> (r: PackedLayers)
        ensures
            r.spec_bits() == i,
    {
        PackedLayers(i)
    }

    /// Returns the layer bits of an axis.
    fn bits_for_axis(self, axis: usize) -> (r: u8)
        requires
            axis < 4,
        ensures
            r == axis_bits(self.spec_bits(), axis as int),
            r < 8,
    {
        proof {
            lemma_axis_bits(self.0, axis as u16);
        }
        ((self.0 >> ((axis as u16) * 4)) & 0b111) as u8
    }

    /// Returns the layer bits of the axis of a grip, seen from the grip.
    fn bits_for_grip(self, g: Grip) -> (r: u8)
        ensures
            r == grip_bits(self.spec_bits(), g.spec_id() as int),
            r < 8,
    {
        let bits = self.bits_for_axis((g.id() / 2) as usize);
        if g.id() % 2 == 0 {
            bits
        } else {
            proof {
                lemma_rev3(bits as u16);
            }
            rev3_exec(bits)
        }
    }

    /// Returns `Some(self)` unless no layer of the axis is present.
    fn if_nonempty_on_axis(self, axis: usize) -> (r: Option<PackedLayers>)
        requires
            axis < 4,
        ensures
            r == (if axis_bits(self.spec_bits(), axis as int) == 0 {
                None
            } else {
                Some(self)
            }),
    {
        if self.is_empty_on_axis(axis) {
            None
        } else {
            Some(self)
        }
    }

    /// Returns whether no layer of the axis is present.
    fn is_empty_on_axis(self, axis: usize) -> (r: bool)
        requires
            axis < 4,
        ensures
            r == (axis_bits(self.spec_bits(), axis as int) == 0),
    {
        self.bits_for_axis(axis) == 0
    }

    /// Returns whether some axis has no layer.
    pub fn is_empty_on_any_axis(self) -> (r: bool)
        ensures
            r == (axis_bits(self.spec_bits(), 0) == 0 || axis_bits(self.spec_bits(), 1) == 0 || axis_bits(
                self.spec_bits(),
                2,
            ) == 0 || axis_bits(self.spec_bits(), 3) == 0),
    {
        let bits = self.0;
        proof {
            lemma_empty_axis(bits);
        }
        (bits | (bits >> 1u16) | (bits >> 2u16)) & 0x1111u16 != 0x1111u16
    }

    /// Returns whether all three layers of the axis are present.
    pub fn is_fully_blocked_on_axis(self, axis: usize) -> (r: bool)
        requires
            axis < 4,
        ensures
            r == (axis_bits(self.spec_bits(), axis as int) == 7),
    {
        self.bits_for_axis(axis) == 0b111
    }

    /// Returns whether the middle layer of the axis is present.
    pub fn has_middle_slice_on_axis(self, axis: usize) -> (r: bool)
        requires
            axis < 4,
        ensures
            r == (axis_bits(self.spec_bits(), axis as int) & 2 != 0),
    {
        self.bits_for_axis(axis) & 0b010 != 0
    }

    /// Returns whether an outer layer of the axis is present, so that one of
    /// its grips is blocked or active.
    pub fn is_axis_blocked(self, axis: usize) -> (r: bool)
        requires
            axis < 4,
        ensures
            r == (axis_bits(self.spec_bits(), axis as int) & 5 != 0),
    {
        self.bits_for_axis(axis) & 0b101 != 0
    }

    /// Returns the mask with bit `4 * a` set for each axis `a` with an outer
    /// layer.
    pub fn blocked_axes_mask(self) -> (r: u16)
        ensures
            r == (self.spec_bits() | (self.spec_bits() >> 2u16)) & 0x1111u16,
    {
        let bits = self.0;
        (bits | (bits >> 2u16)) & 0x1111u16
    }

    /// Returns the attitudes that cannot be told apart on a block with these
    /// layers: for one axis with an outer layer, the elements fixing it; for
    /// two, the elements fixing both; otherwise `None`.
    pub fn indistinguishable_subgroup(self) -> (r: Option<Vec<Elem>>)
        ensures
            ({
                let m = (self.spec_bits() | (self.spec_bits() >> 2u16)) & 0x1111u16;
                let n = (if m & 1 != 0 { 1int } else { 0 }) + (if m & 0x10 != 0 { 1int } else { 0 }) + (if m & 0x100
                    != 0 { 1int } else { 0 }) + (if m & 0x1000 != 0 { 1int } else { 0 });
                let u = if m & 1 != 0 { 0int } else if m & 0x10 != 0 { 1 } else if m & 0x100 != 0 { 2 } else { 3 };
                let v = if m & 0x1000 != 0 { 3int } else if m & 0x100 != 0 { 2 } else if m & 0x10 != 0 { 1 } else { 0 };
                &&& r is Some <==> (n == 1 || n == 2)
                &&& r matches Some(elems) ==> forall|e: Elem|
                    e.spec_id() < 192 ==> (elems@.contains(e) <==> fixes_plane(e, u, v))
            }),
    {
        let m = self.blocked_axes_mask();
        let x = m & 1 != 0;
        let y = m & 0x10 != 0;
        let z = m & 0x100 != 0;
        let w = m & 0x1000 != 0;
        let n = (x as u8) + (y as u8) + (z as u8) + (w as u8);
        if n != 1 && n != 2 {
            return None;
        }
        let first = if x {
            axes::X()
        } else if y {
            axes::Y()
        } else if z {
            axes::Z()
        } else {
            axes::W()
        };
        let last = if w {
            axes::W()
        } else if z {
            axes::Z()
        } else if y {
            axes::Y()
        } else {
            axes::X()
        };
        Some(elements::plane_stabilizer(first, last))
    }

    /// Keeps, on the axis of `g`, only the layer of `g`; returns `None` if
    /// that leaves the axis empty.
    pub fn restrict_to_active_grip(self, g: Grip) -> (r: Option<PackedLayers>)
        ensures
            ({
                let y = self.spec_bits() & !inactive_mask(g.spec_id() as int);
                &&& r is None <==> axis_bits(y, g.spec_id() as int / 2) == 0
                &&& r matches Some(p) ==> p.spec_bits() == y
            }),
    {
        let gid = g.id();
        let mask = inactive_grip_mask(g);
        PackedLayers(self.0 & !mask).if_nonempty_on_axis((gid / 2) as usize)
    }

    /// Drops, on the axis of `g`, the layer of `g`; returns `None` if that
    /// leaves the axis empty.
    pub fn restrict_to_inactive_grip(self, g: Grip) -> (r: Option<PackedLayers>)
        ensures
            ({
                let y = self.spec_bits() & !active_mask(g.spec_id() as int);
                &&& r is None <==> axis_bits(y, g.spec_id() as int / 2) == 0
                &&& r matches Some(p) ==> p.spec_bits() == y
            }),
    {
        let gid = g.id();
        let mask = active_grip_mask(g);
        PackedLayers(self.0 & !mask).if_nonempty_on_axis((gid / 2) as usize)
    }

    /// Adds the layer of `g`; if the opposite grip was active, its whole
    /// axis instead.
    pub fn expand_to_active_grip(self, g: Grip) -> (r: PackedLayers)
        requires
            status_defined(grip_bits(self.spec_bits(), opposite_id(g.spec_id()) as int)),
        ensures
            r.spec_bits() == self.spec_bits() | (if grip_bits(self.spec_bits(), opposite_id(g.spec_id()) as int) == 1 {
                inactive_mask(opposite_id(g.spec_id()) as int)
            } else {
                active_mask(g.spec_id() as int)
            }),
    {
        let opposite = g.opposite();
        let add = match self.grip_status(opposite) {
            GripStatus::Active => inactive_grip_mask(opposite),
            _ => active_grip_mask(g),
        };
        PackedLayers(self.0 | add)
    }

    /// Returns `[inside, outside]`: the parts of the mask that a twist on `g`
    /// moves and leaves.
    pub fn split(self, g: Grip) -> (r: [Option<PackedLayers>; 2])
        ensures
            ({
                let y = self.spec_bits() & !inactive_mask(g.spec_id() as int);
                &&& r[0] is None <==> axis_bits(y, g.spec_id() as int / 2) == 0
                &&& r[0] matches Some(p) ==> p.spec_bits() == y
            }),
            ({
                let y = self.spec_bits() & !active_mask(g.spec_id() as int);
                &&& r[1] is None <==> axis_bits(y, g.spec_id() as int / 2) == 0
                &&& r[1] matches Some(p) ==> p.spec_bits() == y
            }),
    {
        [self.restrict_to_active_grip(g), self.restrict_to_inactive_grip(g)]
    }

    /// Returns whether every layer of this mask is in `other`.
    pub fn is_subset_of(self, other: PackedLayers) -> (r: bool)
        ensures
            r == (self.spec_bits() & !other.spec_bits() == 0),
    {
        self.0 & !other.0 == 0
    }

    /// Merges the masks if possible: they must differ on one axis only, the
    /// lowest where they differ, where their layers must not overlap and must
    /// be connected. Returns the merged mask and that axis.
    pub fn try_merge_with(self, other: PackedLayers) -> (r: Option<(PackedLayers, usize)>)
        requires
            self.spec_bits() != other.spec_bits(),
        ensures
            ({
                let x = self.spec_bits();
                let y = other.spec_bits();
                let a = u16_trailing_zeros(x ^ y) / 4;
                let lb = axis_bits(x, a as int);
                let rb = axis_bits(y, a as int);
                &&& r is Some <==> ((a == 3 || (x ^ y) >> ((4 * (a + 1)) as u16) == 0) && lb & rb == 0 && lb | rb
                    != 5)
                &&& r matches Some(m) ==> m.0.spec_bits() == x | y && m.1 == a
            }),
    {
        let lhs = self.0;
        let rhs = other.0;
        let layer_difference = lhs ^ rhs;
        proof {
            vstd::std_specs::bits::axiom_u16_trailing_zeros(layer_difference);
            assert(layer_difference != 0) by (bit_vector)
                requires
                    lhs != rhs,
                    layer_difference == lhs ^ rhs,
            ;
        }
        let merge_axis = (layer_difference.trailing_zeros() / 4) as usize;
        let above = if merge_axis == 3 {
            0
        } else {
            layer_difference >> ((merge_axis as u16 + 1) * 4)
        };
        if above != 0 {
            return None;  // multiple axes have different layers
        }
        let lhs_axis_bits = self.bits_for_axis(merge_axis);
        let rhs_axis_bits = other.bits_for_axis(merge_axis);
        if lhs_axis_bits & rhs_axis_bits != 0 {
            return None;  // the masks overlap
        }
        if lhs_axis_bits | rhs_axis_bits == 0b101 {
            return None;  // disconnected blocks are not allowed
        }
        Some((PackedLayers(lhs | rhs), merge_axis))
    }

    /// Returns the positive grips of the axes on which the masks differ.
    pub fn separating_axes(self, other: PackedLayers) -> (r: GripSet)
        ensures
            forall|h: int| #[trigger] r.has(h) == (0 <= h < 8 && h % 2 == 0 && axis_bits(self.spec_bits() ^ other.spec_bits(), h / 2) != 0),
    {
        let diff = self ^ other;
        let mut ret = GripSet::empty();
        let mut a: u8 = 0;
        while a < 4
            invariant
                a <= 4,
                diff.spec_bits() == self.spec_bits() ^ other.spec_bits(),
                forall|h: int| #[trigger] ret.has(h) == (0 <= h < 2 * a && h % 2 == 0 && axis_bits(diff.spec_bits(), h / 2) != 0),
            decreases 4 - a,
        {
            let g = Grip::new(2 * a);
            if diff.bits_for_grip(g) != 0 {
                ret = ret | GripSet::from_grip(g);
            }
            a = a + 1;
        }
        ret
    }

    /// Returns the number of active grips: the outer layers present on an
    /// axis without its middle layer.
    pub fn active_grip_count(self) -> (r: u32)
        ensures
            r == active_count(self.spec_bits(), 4),
    {
        let mut n: u32 = 0;
        let mut a: usize = 0;
        while a < 4
            invariant
                a <= 4,
                n == active_count(self.spec_bits(), a as nat),
                n <= 2 * a,
            decreases 4 - a,
        {
            let v = self.bits_for_axis(a);
            if v & 0b010 == 0 {
                if v & 0b001 != 0 {
                    n = n + 1;
                }
                if v & 0b100 != 0 {
                    n = n + 1;
                }
            }
            a = a + 1;
        }
        n
    }

    /// Returns the status of a grip.
    pub fn grip_status(self, g: Grip) -> (r: GripStatus)
        requires
            status_defined(grip_bits(self.spec_bits(), g.spec_id() as int)),
        ensures
            ({
                let v = grip_bits(self.spec_bits(), g.spec_id() as int);
                &&& (r == GripStatus::Active) == (v == 1)
                &&& (r == GripStatus::Blocked) == (v == 3 || v == 7)
                &&& (r == GripStatus::Inactive) == (v == 2 || v == 4 || v == 6)
            }),
    {
        let v = self.bits_for_grip(g);
        if v == 0b001 {
            GripStatus::Active
        } else if v == 0b011 || v == 0b111 {
            GripStatus::Blocked
        } else {
            GripStatus::Inactive
        }
    }
}

/// Number of active grips on the first `n` axes.
pub open spec fn active_count(x: u16, n: nat) -> int
    decreases n,
{
    if n == 0 {
        0
    } else {
        let v = axis_bits(x, n - 1);
        active_count(x, (n - 1) as nat) + if v & 2 == 0 {
            (if v & 1 != 0 { 1int } else { 0 }) + (if v & 4 != 0 { 1int } else { 0 })
        } else {
            0
        }
    }
}

/// Reverses the lowest 3 bits of a byte.
fn rev3_exec(x: u8) -> (r: u8)
    requires
        x < 8,
    ensures
        r == rev3(x as u16),
        r < 8,
{
    proof {
        lemma_rev3(x as u16);
        assert(((x & 1u8) << 2u8) | (x & 2u8) | ((x >> 2u8) & 1u8) == rev3(x as u16)) by (bit_vector)
            requires
                x < 8,
        ;
    }
    ((x & 1) << 2) | (x & 2) | ((x >> 2) & 1)
}

/// The bit of the layer of grip `g`.
fn active_grip_mask(g: Grip) -> (r: u16)
    ensures
        r == active_mask(g.spec_id() as int),
{
    1u16 << ((g.id() as u16) * 2)
}

/// The bits of the other layers of the axis of grip `g`.
fn inactive_grip_mask(g: Grip) -> (r: u16)
    ensures
        r == inactive_mask(g.spec_id() as int),
{
    (0b0111u16 << ((g.id() / 2) as u16 * 4)) ^ active_grip_mask(g)
}

impl std::ops::BitOr for PackedLayers {
    type Output = PackedLayers;

    fn bitor(self, rhs: PackedLayers) -> (r: PackedLayers)
        ensures
            r.spec_bits() == self.spec_bits() | rhs.spec_bits(),
    {
        PackedLayers(self.0 | rhs.0)
    }
}

impl vstd::std_specs::ops::BitOrSpecImpl for PackedLayers {
    open spec fn obeys_bitor_spec() -> bool {
        false
    }

    open spec fn bitor_req(self, rhs: PackedLayers) -> bool {
        true
    }

    open spec fn bitor_spec(self, rhs: PackedLayers) -> PackedLayers {
        self
    }
}

impl std::ops::BitAnd for PackedLayers {
    type Output = PackedLayers;

    fn bitand(self, rhs: PackedLayers) -> (r: PackedLayers)
        ensures
            r.spec_bits() == self.spec_bits() & rhs.spec_bits(),
    {
        PackedLayers(self.0 & rhs.0)
    }
}

impl vstd::std_specs::ops::BitAndSpecImpl for PackedLayers {
    open spec fn obeys_bitand_spec() -> bool {
        false
    }

    open spec fn bitand_req(self, rhs: PackedLayers) -> bool {
        true
    }

    open spec fn bitand_spec(self, rhs: PackedLayers) -> PackedLayers {
        self
    }
}

impl std::ops::BitXor for PackedLayers {
    type Output = PackedLayers;

    fn bitxor(self, rhs: PackedLayers) -> (r: PackedLayers)
        ensures
            r.spec_bits() == self.spec_bits() ^ rhs.spec_bits(),
    {
        PackedLayers(self.0 ^ rhs.0)
    }
}

impl vstd::std_specs::ops::BitXorSpecImpl for PackedLayers {
    open spec fn obeys_bitxor_spec() -> bool {
        false
    }

    open spec fn bitxor_req(self, rhs: PackedLayers) -> bool {
        true
    }

    open spec fn bitxor_spec(self, rhs: PackedLayers) -> PackedLayers {
        self
    }
}

impl std::ops::Mul<PackedLayers> for Elem {
    type Output = PackedLayers;

    fn mul(self, rhs: PackedLayers) -> (r: PackedLayers)
        ensures
            r.spec_bits() == moved_bits(self, rhs.spec_bits(), 4),
    {
        let inv = self.inv();
        let mut resulting_bits: u16 = 0;
        let mut a: u8 = 0;
        while a < 4
            invariant
                a <= 4,
                inv == self.inverse(),
                resulting_bits == moved_bits(self, rhs.spec_bits(), a as nat),
            decreases 4 - a,
        {
            let g = inv * Grip::new(2 * a);
            let bits = rhs.bits_for_grip(g) as u16;
            assert(g.spec_id() == self.inverse().grip_image(2 * a as int));
            let ghost prev = resulting_bits;
            resulting_bits = resulting_bits | (bits << ((a as u16) * 4));
            assert(moved_bits(self, rhs.spec_bits(), (a + 1) as nat) == moved_bits(self, rhs.spec_bits(), a as nat) | (
            grip_bits(rhs.spec_bits(), self.inverse().grip_image(2 * a as int)) << ((4 * a) as u16)));
            assert(resulting_bits == prev | (grip_bits(rhs.spec_bits(), self.inverse().grip_image(2 * a as int)) << ((4 * a) as u16)));
            a = a + 1;
        }
        PackedLayers(resulting_bits)
    }
}

impl vstd::std_specs::ops::MulSpecImpl<PackedLayers> for Elem {
    open spec fn obeys_mul_spec() -> bool {
        false
    }

    open spec fn mul_req(self, rhs: PackedLayers) -> bool {
        true
    }

    open spec fn mul_spec(self, rhs: PackedLayers) -> PackedLayers {
        rhs
    }
}


} // verus!

verus! {

/// Seen from the opposite grip, the layer bits of an axis are reversed.
proof fn lemma_grip_bits_opposite(x: u16, k: int)
    requires
        0 <= k < 8,
    ensures
        grip_bits(x, opposite_id(k as u8) as int) == rev3(grip_bits(x, k)),
{
    lemma_axis_bits(x, (k / 2) as u16);
    lemma_rev3(axis_bits(x, k / 2));
}

/// Moving layer bits by an element and then by another is moving them by
/// the product.
proof fn lemma_grip_bits_moved(e: Elem, x: u16, h: int)
    requires
        e.spec_id() < 192,
        0 <= h < 8,
    ensures
        grip_bits(moved_bits(e, x, 4), h) == grip_bits(x, e.inverse().grip_image(h)),
{
    let i = e.inverse();
    Elem::lemma_valid(e, e);
    let g0 = i.grip_image(0);
    let g2 = i.grip_image(2);
    let g4 = i.grip_image(4);
    let g6 = i.grip_image(6);
    Elem::lemma_action(i, e, 0);
    Elem::lemma_action(i, e, 2);
    Elem::lemma_action(i, e, 4);
    Elem::lemma_action(i, e, 6);
    let v0 = grip_bits(x, g0);
    let v1 = grip_bits(x, g2);
    let v2 = grip_bits(x, g4);
    let v3 = grip_bits(x, g6);
    lemma_axis_bits(x, (g0 / 2) as u16);
    lemma_axis_bits(x, (g2 / 2) as u16);
    lemma_axis_bits(x, (g4 / 2) as u16);
    lemma_axis_bits(x, (g6 / 2) as u16);
    lemma_rev3(axis_bits(x, g0 / 2));
    lemma_rev3(axis_bits(x, g2 / 2));
    lemma_rev3(axis_bits(x, g4 / 2));
    lemma_rev3(axis_bits(x, g6 / 2));
    lemma_pack(v0, v1, v2, v3);
    lemma_moved_unfold(e, x);
    let y = moved_bits(e, x, 4);
    lemma_axis_bits_lit(y);
    assert(axis_bits(y, 0) == v0);
    assert(axis_bits(y, 1) == v1);
    assert(axis_bits(y, 2) == v2);
    assert(axis_bits(y, 3) == v3);
    let base = h - h % 2;
    Elem::lemma_action(i, e, h);
    if h % 2 == 1 {
        let k = i.grip_image(base);
        assert(0 <= k < 8);
        assert(i.grip_image(h) == opposite_id(k as u8) as int);
        lemma_grip_bits_opposite(x, k);
        lemma_rev3(axis_bits(y, h / 2));
    }
}

/// Moving layer bits by the identity keeps them, when no stray bit is set.
pub proof fn lemma_moved_ident(x: u16)
    requires
        x & 0x8888u16 == 0,
    ensures
        moved_bits(Elem::with_id(0), x, 4) == x,
{
    let e = Elem::with_id(0);
    Elem::lemma_with_id(0);
    Elem::lemma_bijection(e);
    assert forall|g: int| 0 <= g < 8 implies e.inverse().grip_image(g) == g by {
        Elem::lemma_ident_action(e, e.inverse().grip_image(g));
    }
    assert(e.inverse().grip_image(0) == 0);
    assert(e.inverse().grip_image(2) == 2);
    assert(e.inverse().grip_image(4) == 4);
    assert(e.inverse().grip_image(6) == 6);
    lemma_moved_unfold(e, x);
    lemma_axis_bits_lit(x);
    lemma_unpack(x);
}

/// Moving layer bits by `e1` and then by `e2` is moving them by the product
/// `e2 * e1`.
pub proof fn lemma_moved_compose(e1: Elem, e2: Elem, x: u16)
    requires
        e1.spec_id() < 192,
        e2.spec_id() < 192,
    ensures
        moved_bits(e2, moved_bits(e1, x, 4), 4) == moved_bits(e2.product(e1), x, 4),
{
    let p = e2.product(e1);
    Elem::lemma_valid(e2, e1);
    Elem::lemma_valid(e1, e1);
    Elem::lemma_valid(e2, e2);
    let i1 = e1.inverse();
    let i2 = e2.inverse();
    assert forall|g: int| 0 <= g < 8 implies #[trigger] p.inverse().grip_image(g) == i1.grip_image(
        i2.grip_image(g),
    ) by {
        Elem::lemma_valid(p, p);
        Elem::lemma_action(p, p, g);
        let h = p.inverse().grip_image(g);
        Elem::lemma_action(p.inverse(), p, g);
        Elem::lemma_action(e2, e1, h);
        Elem::lemma_action(e1, e1, h);
        let z = e1.grip_image(h);
        Elem::lemma_action(e2, e2, z);
        Elem::lemma_action(e1, e1, h);
    }
    let y = moved_bits(e1, x, 4);
    Elem::lemma_action(i2, e2, 0);
    Elem::lemma_action(i2, e2, 2);
    Elem::lemma_action(i2, e2, 4);
    Elem::lemma_action(i2, e2, 6);
    lemma_grip_bits_moved(e1, x, i2.grip_image(0));
    lemma_grip_bits_moved(e1, x, i2.grip_image(2));
    lemma_grip_bits_moved(e1, x, i2.grip_image(4));
    lemma_grip_bits_moved(e1, x, i2.grip_image(6));
    assert(p.inverse().grip_image(0) == i1.grip_image(i2.grip_image(0)));
    assert(p.inverse().grip_image(2) == i1.grip_image(i2.grip_image(2)));
    assert(p.inverse().grip_image(4) == i1.grip_image(i2.grip_image(4)));
    assert(p.inverse().grip_image(6) == i1.grip_image(i2.grip_image(6)));
    lemma_moved_unfold(e2, y);
    lemma_moved_unfold(p, x);
}

} // verus!
