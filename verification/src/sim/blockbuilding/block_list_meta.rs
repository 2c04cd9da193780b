//! Packed metadata of a block list.
use vstd::prelude::*;

use crate::bits::bit8;
use crate::sim::common::{Grip, GripSet};

verus! {

/// Metadata for a block list, packed into a `u32`.
///
/// Bits are assigned as follows:
///
/// - 0..8 = block count
/// - 8..16 = last twisted grip set
/// - 16..32 = twist count (STM)
#[derive(Debug, Default, Clone, Copy, PartialEq, Eq, Hash, Structural)]
pub struct BlockListMeta(pub(crate) u32);

impl BlockListMeta {
    /// The block count.
    pub closed spec fn spec_block_count(self) -> nat {
        (self.0 % 256) as nat
    }

    /// The bits of the set of grips twisted since the last twist on another
    /// axis.
    pub closed spec fn spec_twisted(self) -> u8 {
        ((self.0 / 256) % 256) as u8
    }

    /// Whether grip `g` was twisted since the last twist on another axis.
    pub open spec fn twisted_has(self, g: int) -> bool {
        0 <= g < 8 && bit8(self.spec_twisted(), g as u8)
    }

    /// The twist count.
    pub closed spec fn spec_twist_count(self) -> nat {
        (self.0 / 65536) as nat
    }

    /// The metadata made of the given fields.
    pub closed spec fn with_fields(block_count: nat, twisted: u8, twist_count: nat) -> BlockListMeta {
        BlockListMeta((block_count + 256 * twisted + 65536 * twist_count) as u32)
    }

    /// Reading back the fields of packed metadata.
    pub proof fn lemma_fields(block_count: nat, twisted: u8, twist_count: nat)
        requires
            block_count < 256,
            twist_count < 65536,
        ensures
            BlockListMeta::with_fields(block_count, twisted, twist_count).spec_block_count()
                == block_count,
            BlockListMeta::with_fields(block_count, twisted, twist_count).spec_twisted() == twisted,
            BlockListMeta::with_fields(block_count, twisted, twist_count).spec_twist_count()
                == twist_count,
    {
    }

    /// Metadata is determined by its fields.
    pub proof fn lemma_eq(a: BlockListMeta, b: BlockListMeta)
        requires
            a.spec_block_count() == b.spec_block_count(),
            a.spec_twisted() == b.spec_twisted(),
            a.spec_twist_count() == b.spec_twist_count(),
        ensures
            a == b,
    {
        assert(a.0 == a.0 % 256 + 256 * ((a.0 / 256) % 256) + 65536 * (a.0 / 65536));
        assert(b.0 == b.0 % 256 + 256 * ((b.0 / 256) % 256) + 65536 * (b.0 / 65536));
    }

    /// Metadata with all fields zero.
    pub fn new() -> (m: BlockListMeta)
        ensures
            m.spec_block_count() == 0,
            m.spec_twisted() == 0,
            m.spec_twist_count() == 0,
    {
        BlockListMeta(0)
    }

    fn pack(block_count: u32, twisted: u32, twist_count: u32) -> (m: BlockListMeta)
        requires
            block_count < 256,
            twisted < 256,
            twist_count < 65536,
        ensures
            m == BlockListMeta::with_fields(block_count as nat, twisted as u8, twist_count as nat),
    {
        BlockListMeta(block_count + 256 * twisted + 65536 * twist_count)
    }

    /// Returns the block count.
    pub fn block_count(&self) -> (r: u8)
        ensures
            r == self.spec_block_count(),
    {
        (self.0 % 256) as u8
    }

    /// Returns the set of grips twisted since the last twist on another axis.
    pub fn twisted_grips(&self) -> (r: GripSet)
        ensures
            r.spec_bits() == self.spec_twisted(),
    {
        GripSet::from_bits(((self.0 / 256) % 256) as u8)
    }

    /// Returns the twist count.
    pub fn twist_count(&self) -> (r: u16)
        ensures
            r == self.spec_twist_count(),
    {
        (self.0 / 65536) as u16
    }

    /// Sets the block count, keeping the other fields.
    pub fn set_block_count(&mut self, new_block_count: u8)
        ensures
            final(self).spec_block_count() == new_block_count,
            final(self).spec_twisted() == old(self).spec_twisted(),
            final(self).spec_twist_count() == old(self).spec_twist_count(),
    {
        let twisted = (self.0 / 256) % 256;
        let twist_count = self.0 / 65536;
        *self = BlockListMeta::pack(new_block_count as u32, twisted, twist_count);
    }

    /// Adds one to the block count, which must be below 255, keeping the other
    /// fields.
    pub fn increment_block_count(&mut self)
        requires
            old(self).spec_block_count() < 255,
        ensures
            final(self).spec_block_count() == old(self).spec_block_count() + 1,
            final(self).spec_twisted() == old(self).spec_twisted(),
            final(self).spec_twist_count() == old(self).spec_twist_count(),
    {
        self.0 = self.0 + 1;
    }

    /// Records a twist on `grip`: it counts as a new twist unless `grip` was
    /// already twisted since the last twist on another axis. The twisted set
    /// keeps only the grips on the axis of `grip`, and gains `grip`.
    pub fn count_twist_on_grip(&mut self, grip: Grip)
        requires
            old(self).spec_twist_count() < 65535,
        ensures
            final(self).spec_block_count() == old(self).spec_block_count(),
            final(self).spec_twist_count() == old(self).spec_twist_count() + if old(
                self,
            ).twisted_has(grip.spec_id() as int) {
                0int
            } else {
                1int
            },
            forall|g: int|
                #[trigger] final(self).twisted_has(g) == (g == grip.spec_id() || (old(
                    self,
                ).twisted_has(g) && g / 2 == grip.spec_id() / 2)),
    {
        let block_count = self.0 % 256;
        let twisted = self.twisted_grips();
        let count_twist: bool = !twisted.contains(grip);
        let twist_count = self.0 / 65536 + if count_twist {
            1
        } else {
            0
        };
        let new_twisted = (twisted & GripSet::from_axis(grip.axis())) | GripSet::from_grip(grip);
        *self = BlockListMeta::pack(block_count, new_twisted.bits() as u32, twist_count);
        proof {
            BlockListMeta::lemma_fields(block_count as nat, new_twisted.spec_bits(), twist_count as nat);
            assert forall|g: int| #[trigger] self.twisted_has(g) == new_twisted.has(g) by {}
        }
    }
}

} // verus!
