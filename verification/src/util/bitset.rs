//! Bitsets of fixed sizes.
use vstd::prelude::*;

use crate::bits::{
    bit32, count32, lemma_bit32_all, lemma_bit32_eq, lemma_bit32_test, lemma_members32, members32,
};

verus! {

/// Number of bits set among bits `0..n` of a `u32`, for `n <= 32`, counted
/// one bit at a time.
fn count_low_bits(x: u32, n: u32) -> (r: u32)
    requires
        n <= 32,
    ensures
        r == count32(x, n as nat),
        r <= n,
{
    let mut r: u32 = 0;
    let mut i: u32 = 0;
    while i < n
        invariant
            i <= n <= 32,
            r == count32(x, i as nat),
            r <= i,
        decreases n - i,
    {
        if (x >> i) & 1 == 1 {
            r = r + 1;
        }
        i = i + 1;
    }
    r
}

/// Array of 32 booleans, packed into a `u32`.
#[derive(Debug, Default, Clone, Copy, PartialEq, Eq, Hash, Structural)]
pub struct BitSet32(pub(crate) u32);

impl BitSet32 {
    /// The packed bits.
    pub closed spec fn spec_bits(self) -> u32 {
        self.0
    }

    /// Whether index `i` is in the set.
    pub open spec fn has(self, i: int) -> bool {
        0 <= i < 32 && bit32(self.spec_bits(), i as u32)
    }

    /// The indices in the set, in increasing order.
    pub open spec fn members(self) -> Seq<int> {
        members32(self.spec_bits(), 32)
    }

    /// Facts about the members of a set.
    pub proof fn lemma_members(self)
        ensures
            self.members().len() == count32(self.spec_bits(), 32),
            forall|i: int| 0 <= i < self.members().len() ==> 0 <= #[trigger] self.members()[i] < 32,
            forall|i: int, j: int|
                0 <= i < j < self.members().len() ==> self.members()[i] < self.members()[j],
            forall|k: int| 0 <= k < 32 ==> (self.has(k) <==> self.members().contains(k)),
    {
        lemma_members32(self.0, 32);
    }

    /// Sets with the same members are equal.
    pub proof fn lemma_ext(a: BitSet32, b: BitSet32)
        requires
            forall|i: int| 0 <= i < 32 ==> a.has(i) == b.has(i),
        ensures
            a == b,
    {
        assert forall|i: u32| i < 32 implies bit32(a.0, i) == bit32(b.0, i) by {
            assert(a.has(i as int) == b.has(i as int));
        }
        lemma_bit32_eq(a.0, b.0);
    }

    /// Empty bitset
    pub fn empty() -> (r: BitSet32)
        ensures
            forall|i: int| !r.has(i),
            r.spec_bits() == 0,
    {
        proof {
            lemma_bit32_all();
        }
        BitSet32(0)
    }

    /// Returns whether the bitset is empty.
    pub fn is_empty(&self) -> (r: bool)
        ensures
            r == (forall|i: int| !self.has(i)),
    {
        proof {
            lemma_bit32_all();
            lemma_bit32_eq(self.0, 0);
            if self.0 != 0 {
                let i = choose|i: u32| i < 32 && bit32(self.0, i);
                assert(self.has(i as int));
            }
        }
        self.0 == 0
    }

    /// Returns a bit from the bitset.
    pub fn get(&self, index: u8) -> (r: bool)
        requires
            index < 32,
        ensures
            r == self.has(index as int),
    {
        proof {
            lemma_bit32_test(self.0, index as u32);
        }
        self.0 & (1u32 << index) != 0
    }

    /// Sets a bit to 1 in the bitset.
    pub fn set(&mut self, index: u8)
        requires
            index < 32,
        ensures
            forall|i: int| #[trigger] final(self).has(i) == (old(self).has(i) || i == index),
    {
        proof {
            lemma_bit32_all();
        }
        self.0 = self.0 | (1u32 << index);
    }

    /// Clears a bit to 0 in the bitset.
    pub fn clear(&mut self, index: u8)
        requires
            index < 32,
        ensures
            forall|i: int| #[trigger] final(self).has(i) == (old(self).has(i) && i != index),
    {
        proof {
            lemma_bit32_all();
        }
        self.0 = self.0 & !(1u32 << (index % 32));
    }

    /// Clears a bit, which must be set.
    pub fn clear_from_1(&mut self, index: u8)
        requires
            index < 32,
            old(self).has(index as int),
        ensures
            forall|i: int| #[trigger] final(self).has(i) == (old(self).has(i) && i != index),
    {
        self.clear(index);
    }

    /// Sets a bit, which must be cleared.
    pub fn set_from_0(&mut self, index: u8)
        requires
            index < 32,
            !old(self).has(index as int),
        ensures
            forall|i: int| #[trigger] final(self).has(i) == (old(self).has(i) || i == index),
    {
        self.set(index);
    }

    /// Returns the number of set bits.
    pub fn count_ones(&self) -> (r: u32)
        ensures
            r == self.members().len(),
    {
        proof {
            self.lemma_members();
        }
        count_low_bits(self.0, 32)
    }

    /// Returns the number of set bits before `index`.
    pub fn bits_before(&mut self, index: u8) -> (r: u8)
        ensures
            *final(self) == *old(self),
            r == count32(old(self).spec_bits(), if index < 32 { index as nat } else { 32 }),
    {
        let n = if index < 32 { index as u32 } else { 32 };
        count_low_bits(self.0, n) as u8
    }

    /// Returns and clears the lowest set index. The set must not be empty.
    pub fn pop_index(&mut self) -> (r: u8)
        requires
            old(self).members().len() > 0,
        ensures
            r == old(self).members()[0],
            final(self).members() == old(self).members().drop_first(),
            forall|i: int| #[trigger] final(self).has(i) == (old(self).has(i) && i != r),
    {
        proof {
            self.lemma_members();
        }
        let v = self.iter();
        let i = v[0];
        assert(i as int == self.members()[0]);
        let ghost old_self = *self;
        self.clear(i);
        proof {
            self.lemma_members();
            old_self.lemma_members();
            lemma_members_drop_first(old_self, *self, i as int);
        }
        i
    }

    /// Returns the set indices, in increasing order.
    pub fn iter(&self) -> (r: Vec<u8>)
        ensures
            r@.len() == self.members().len(),
            forall|i: int| 0 <= i < r.len() ==> r[i] as int == #[trigger] self.members()[i],
    {
        let mut r: Vec<u8> = Vec::new();
        let mut i: u8 = 0;
        while i < 32
            invariant
                i <= 32,
                r@.len() == members32(self.0, i as nat).len(),
                forall|j: int| 0 <= j < r.len() ==> r[j] as int == #[trigger] members32(self.0, i as nat)[j],
            decreases 32 - i,
        {
            if (self.0 >> (i as u32)) & 1 == 1 {
                r.push(i);
            }
            i = i + 1;
        }
        r
    }
}

/// Clearing the lowest member drops it from the members.
proof fn lemma_members_drop_first(a: BitSet32, b: BitSet32, k: int)
    requires
        a.members().len() > 0,
        k == a.members()[0],
        forall|i: int| #[trigger] b.has(i) == (a.has(i) && i != k),
    ensures
        b.members() == a.members().drop_first(),
{
    a.lemma_members();
    b.lemma_members();
    let ma = a.members();
    let mb = b.members();
    let d = ma.drop_first();
    assert forall|i: int| 0 <= i < 32 implies (mb.contains(i) <==> d.contains(i)) by {
        assert(mb.contains(i) <==> b.has(i));
        assert(ma.contains(i) <==> a.has(i));
        if d.contains(i) {
            let j = choose|j: int| 0 <= j < d.len() && d[j] == i;
            assert(ma[j + 1] == i);
            assert(ma[0] < ma[j + 1]);
            assert(ma.contains(i));
            assert(b.has(i));
        }
        if ma.contains(i) && i != k {
            let j = choose|j: int| 0 <= j < ma.len() && ma[j] == i;
            assert(j != 0);
            assert(d[j - 1] == i);
        }
    }
    lemma_sorted_eq(mb, d, 32);
}

/// Two strictly increasing sequences of indices below `n` with the same
/// members are equal.
proof fn lemma_sorted_eq(x: Seq<int>, y: Seq<int>, n: int)
    requires
        forall|i: int, j: int| 0 <= i < j < x.len() ==> x[i] < x[j],
        forall|i: int, j: int| 0 <= i < j < y.len() ==> y[i] < y[j],
        forall|i: int| 0 <= i < x.len() ==> 0 <= #[trigger] x[i] < n,
        forall|i: int| 0 <= i < y.len() ==> 0 <= #[trigger] y[i] < n,
        forall|k: int| 0 <= k < n ==> (x.contains(k) <==> y.contains(k)),
    ensures
        x == y,
    decreases x.len() + y.len(),
{
    if x.len() == 0 {
        if y.len() > 0 {
            assert(y.contains(y[0]));
        }
    } else if y.len() == 0 {
        assert(x.contains(x[0]));
    } else {
        assert(x.contains(x[0]));
        assert(y.contains(y[0]));
        let jx = choose|j: int| 0 <= j < x.len() && x[j] == y[0];
        let jy = choose|j: int| 0 <= j < y.len() && y[j] == x[0];
        assert(x[0] == y[0]);
        let xs = x.drop_first();
        let ys = y.drop_first();
        assert forall|k: int| 0 <= k < n implies (xs.contains(k) <==> ys.contains(k)) by {
            if xs.contains(k) {
                let j = choose|j: int| 0 <= j < xs.len() && xs[j] == k;
                assert(x[j + 1] == k);
                assert(x.contains(k));
                let j2 = choose|j2: int| 0 <= j2 < y.len() && y[j2] == k;
                assert(j2 != 0);
                assert(ys[j2 - 1] == k);
            }
            if ys.contains(k) {
                let j = choose|j: int| 0 <= j < ys.len() && ys[j] == k;
                assert(y[j + 1] == k);
                assert(y.contains(k));
                let j2 = choose|j2: int| 0 <= j2 < x.len() && x[j2] == k;
                assert(j2 != 0);
                assert(xs[j2 - 1] == k);
            }
        }
        lemma_sorted_eq(xs, ys, n);
        assert(x == seq![x[0]] + xs);
        assert(y == seq![y[0]] + ys);
    }
}

/// Array of 96 booleans, packed into 3 `u32`s.
#[derive(Debug, Default, Clone, Copy, PartialEq, Eq, Hash)]
pub struct BitSet96(pub(crate) [u32; 3]);

impl BitSet96 {
    /// The packed word `w` (of 3), holding indices `32 * w .. 32 * w + 32`.
    pub closed spec fn word(self, w: int) -> u32 {
        self.0[w]
    }

    /// Whether index `i` is in the set.
    pub open spec fn has(self, i: int) -> bool {
        0 <= i < 96 && bit32(self.word(i / 32), (i % 32) as u32)
    }

    /// The indices below `n` in the set, in increasing order.
    pub open spec fn members_below(self, n: nat) -> Seq<int>
        decreases n,
    {
        if n == 0 {
            Seq::empty()
        } else if self.has(n - 1) {
            self.members_below((n - 1) as nat).push(n - 1)
        } else {
            self.members_below((n - 1) as nat)
        }
    }

    /// The indices in the set, in increasing order.
    pub open spec fn members(self) -> Seq<int> {
        self.members_below(96)
    }

    /// Facts about the members below `n`.
    pub proof fn lemma_members_below(self, n: nat)
        ensures
            forall|i: int|
                0 <= i < self.members_below(n).len() ==> 0 <= #[trigger] self.members_below(n)[i] < n,
            forall|i: int, j: int|
                0 <= i < j < self.members_below(n).len() ==> self.members_below(n)[i]
                    < self.members_below(n)[j],
            forall|k: int| 0 <= k < n ==> (self.has(k) <==> self.members_below(n).contains(k)),
            forall|k: int| self.members_below(n).contains(k) ==> self.has(k),
            self.members_below(n).len() <= n,
        decreases n,
    {
        if n > 0 {
            self.lemma_members_below((n - 1) as nat);
            let p = self.members_below((n - 1) as nat);
            if self.has(n - 1) {
                assert forall|k: int| 0 <= k < n implies (self.has(k) <==> self.members_below(n).contains(k)) by {
                    if p.contains(k) {
                        let j = choose|j: int| 0 <= j < p.len() && p[j] == k;
                        assert(self.members_below(n)[j] == k);
                    }
                    if k == n - 1 {
                        assert(self.members_below(n)[p.len() as int] == k);
                    }
                    if self.members_below(n).contains(k) && k != n - 1 {
                        let j = choose|j: int| 0 <= j < self.members_below(n).len() && self.members_below(n)[j] == k;
                        assert(j < p.len());
                        assert(p[j] == k);
                    }
                }
                assert forall|k: int| self.members_below(n).contains(k) implies self.has(k) by {
                    let j = choose|j: int| 0 <= j < self.members_below(n).len() && self.members_below(n)[j] == k;
                    if j < p.len() {
                        assert(p[j] == k);
                    }
                }
            }
        }
    }

    /// Sets with the same members are equal.
    pub proof fn lemma_ext(a: BitSet96, b: BitSet96)
        requires
            forall|i: int| 0 <= i < 96 ==> a.has(i) == b.has(i),
        ensures
            a == b,
    {
        assert forall|w: int| 0 <= w < 3 implies a.0[w] == b.0[w] by {
            assert forall|i: u32| i < 32 implies bit32(a.0[w], i) == bit32(b.0[w], i) by {
                let k = 32 * w + i;
                assert(k / 32 == w && k % 32 == i);
                assert(a.has(k) == b.has(k));
            }
            lemma_bit32_eq(a.0[w], b.0[w]);
        }
        assert(a.0 =~= b.0);
    }

    /// Empty bitset
    pub fn empty() -> (r: BitSet96)
        ensures
            forall|i: int| !r.has(i),
    {
        proof {
            lemma_bit32_all();
        }
        let r = BitSet96([0u32; 3]);
        assert forall|i: int| !r.has(i) by {
            if 0 <= i < 96 {
                assert(r.word(i / 32) == 0);
            }
        }
        r
    }

    /// Returns whether the bitset is empty.
    pub fn is_empty(&self) -> (r: bool)
        ensures
            r == (forall|i: int| !self.has(i)),
    {
        proof {
            lemma_bit32_eq(self.0[0], 0);
            lemma_bit32_eq(self.0[1], 0);
            lemma_bit32_eq(self.0[2], 0);
            lemma_bit32_all();
        }
        let r = self.0[0] == 0 && self.0[1] == 0 && self.0[2] == 0;
        proof {
            if r {
                assert forall|i: int| !self.has(i) by {
                    if 0 <= i < 96 {
                        assert(self.word(i / 32) == 0);
                    }
                }
            } else {
                let w: int = if self.0[0] != 0 { 0 } else if self.0[1] != 0 { 1 } else { 2 };
                let b = choose|b: u32| b < 32 && bit32(self.0[w], b);
                let k = 32 * w + b;
                assert(k / 32 == w && k % 32 == b);
                assert(self.has(k));
            }
        }
        r
    }

    /// Returns a bit from the bitset.
    pub fn get(&self, index: u8) -> (r: bool)
        requires
            index < 96,
        ensures
            r == self.has(index as int),
    {
        let w = (index / 32) as usize;
        let b = (index % 32) as u32;
        proof {
            lemma_bit32_test(self.0[w as int], b);
        }
        self.0[w] & (1u32 << b) != 0
    }

    /// Sets a bit to 1 in the bitset.
    pub fn set(&mut self, index: u8)
        requires
            index < 96,
        ensures
            forall|i: int| #[trigger] final(self).has(i) == (old(self).has(i) || i == index),
    {
        proof {
            lemma_bit32_all();
        }
        let w = (index / 32) as usize;
        let b = (index % 32) as u32;
        let v = self.0[w] | (1u32 << b);
        self.0[w] = v;
        proof {
            assert forall|i: int| #[trigger] self.has(i) == (old(self).has(i) || i == index) by {
                if 0 <= i < 96 {
                    assert(0 <= i % 32 < 32);
                    let c = (i % 32) as u32;
                    assert(bit32(old(self).0[w as int] | (1u32 << b), c) == (bit32(old(self).0[w as int], c) || bit32(1u32 << b, c)));
                    assert(bit32(1u32 << b, c) == (c == b));
                    if i / 32 != w {
                        assert(self.word(i / 32) == old(self).word(i / 32));
                    }
                }
            }
        }
    }

    /// Clears a bit to 0 in the bitset.
    pub fn clear(&mut self, index: u8)
        requires
            index < 96,
        ensures
            forall|i: int| #[trigger] final(self).has(i) == (old(self).has(i) && i != index),
    {
        proof {
            lemma_bit32_all();
        }
        let w = (index / 32) as usize;
        let b = (index % 32) as u32;
        let v = self.0[w] & !(1u32 << b);
        self.0[w] = v;
        proof {
            assert forall|i: int| #[trigger] self.has(i) == (old(self).has(i) && i != index) by {
                if 0 <= i < 96 {
                    assert(0 <= i % 32 < 32);
                    let c = (i % 32) as u32;
                    assert(bit32(!(1u32 << b), c) == !bit32(1u32 << b, c));
                    assert(bit32(1u32 << b, c) == (c == b));
                    if i / 32 != w {
                        assert(self.word(i / 32) == old(self).word(i / 32));
                    }
                }
            }
        }
    }

    /// Clears a bit, which must be set.
    pub fn clear_from_1(&mut self, index: u8)
        requires
            index < 96,
            old(self).has(index as int),
        ensures
            forall|i: int| #[trigger] final(self).has(i) == (old(self).has(i) && i != index),
    {
        self.clear(index);
    }

    /// Sets a bit, which must be cleared.
    pub fn set_from_0(&mut self, index: u8)
        requires
            index < 96,
            !old(self).has(index as int),
        ensures
            forall|i: int| #[trigger] final(self).has(i) == (old(self).has(i) || i == index),
    {
        self.set(index);
    }

    /// Number of members below `n`, for `n <= 96`.
    fn count_below(&self, n: u8) -> (r: u8)
        requires
            n <= 96,
        ensures
            r == self.members_below(n as nat).len(),
    {
        let mut r: u8 = 0;
        let mut i: u8 = 0;
        while i < n
            invariant
                i <= n <= 96,
                r == self.members_below(i as nat).len(),
            decreases n - i,
        {
            proof {
                self.lemma_members_below(i as nat);
            }
            if self.get(i) {
                r = r + 1;
            }
            i = i + 1;
        }
        r
    }

    /// Returns the number of set bits.
    pub fn count_ones(&self) -> (r: u32)
        ensures
            r == self.members().len(),
    {
        self.count_below(96) as u32
    }

    /// Returns the number of set bits before `index`.
    pub fn bits_before(&mut self, index: u8) -> (r: u8)
        ensures
            *final(self) == *old(self),
            r == old(self).members_below(if index < 96 { index as nat } else { 96 }).len(),
    {
        let n = if index < 96 { index } else { 96 };
        self.count_below(n)
    }

    /// Returns and clears the lowest set index. The set must not be empty.
    pub fn pop_index(&mut self) -> (r: u8)
        requires
            old(self).members().len() > 0,
        ensures
            r == old(self).members()[0],
            final(self).members() == old(self).members().drop_first(),
            forall|i: int| #[trigger] final(self).has(i) == (old(self).has(i) && i != r),
    {
        proof {
            self.lemma_members_below(96);
        }
        let v = self.iter();
        let i = v[0];
        assert(i as int == self.members()[0]);
        let ghost old_self = *self;
        self.clear(i);
        proof {
            let ma = old_self.members();
            let mb = self.members();
            let d = ma.drop_first();
            self.lemma_members_below(96);
            old_self.lemma_members_below(96);
            assert forall|k: int| 0 <= k < 96 implies (mb.contains(k) <==> d.contains(k)) by {
                if d.contains(k) {
                    let j = choose|j: int| 0 <= j < d.len() && d[j] == k;
                    assert(ma[j + 1] == k);
                    assert(ma[0] < ma[j + 1]);
                    assert(ma.contains(k));
                    assert(old_self.has(k));
                    assert(self.has(k));
                }
                if mb.contains(k) {
                    assert(self.has(k));
                    assert(ma.contains(k));
                    let j = choose|j: int| 0 <= j < ma.len() && ma[j] == k;
                    assert(j != 0);
                    assert(d[j - 1] == k);
                }
            }
            lemma_sorted_eq(mb, d, 96);
        }
        i
    }

    /// Returns the set indices, in increasing order.
    pub fn iter(&self) -> (r: Vec<u8>)
        ensures
            r@.len() == self.members().len(),
            forall|i: int| 0 <= i < r.len() ==> r[i] as int == #[trigger] self.members()[i],
    {
        let mut r: Vec<u8> = Vec::new();
        let mut i: u8 = 0;
        while i < 96
            invariant
                i <= 96,
                r@.len() == self.members_below(i as nat).len(),
                forall|j: int| 0 <= j < r.len() ==> r[j] as int == #[trigger] self.members_below(i as nat)[j],
            decreases 96 - i,
        {
            if self.get(i) {
                r.push(i);
            }
            i = i + 1;
        }
        r
    }
}

} // verus!
