//! Facts about individual bits of fixed-width integers.
//!
//! `bitN(x, i)` is bit `i` of `x`. The lemmas here reduce bitwise operations
//! to boolean operations on single bits, so that the rest of the crate can
//! reason about packed sets one member at a time.
use vstd::prelude::*;

verus! {

/// Bit `i` of a byte.
pub open spec fn bit8(x: u8, i: u8) -> bool {
    (x >> i) & 1u8 == 1u8
}

/// Bit `i` of a `u16`.
pub open spec fn bit16(x: u16, i: u16) -> bool {
    (x >> i) & 1u16 == 1u16
}

/// Bit `i` of a `u32`.
pub open spec fn bit32(x: u32, i: u32) -> bool {
    (x >> i) & 1u32 == 1u32
}

/// Number of bits set among bits `0..n` of a byte.
pub open spec fn count8(x: u8, n: nat) -> nat
    decreases n,
{
    if n == 0 {
        0
    } else {
        count8(x, (n - 1) as nat) + if bit8(x, (n - 1) as u8) {
            1nat
        } else {
            0nat
        }
    }
}

/// Number of bits set among bits `0..n` of a `u16`.
pub open spec fn count16(x: u16, n: nat) -> nat
    decreases n,
{
    if n == 0 {
        0
    } else {
        count16(x, (n - 1) as nat) + if bit16(x, (n - 1) as u16) {
            1nat
        } else {
            0nat
        }
    }
}

/// Number of bits set among bits `0..n` of a `u32`.
pub open spec fn count32(x: u32, n: nat) -> nat
    decreases n,
{
    if n == 0 {
        0
    } else {
        count32(x, (n - 1) as nat) + if bit32(x, (n - 1) as u32) {
            1nat
        } else {
            0nat
        }
    }
}

/// Positions of the set bits among bits `0..n` of a byte, in increasing order.
pub open spec fn members8(x: u8, n: nat) -> Seq<int>
    decreases n,
{
    if n == 0 {
        Seq::empty()
    } else if bit8(x, (n - 1) as u8) {
        members8(x, (n - 1) as nat).push(n - 1)
    } else {
        members8(x, (n - 1) as nat)
    }
}

/// Positions of the set bits among bits `0..n` of a `u32`, in increasing
/// order.
pub open spec fn members32(x: u32, n: nat) -> Seq<int>
    decreases n,
{
    if n == 0 {
        Seq::empty()
    } else if bit32(x, (n - 1) as u32) {
        members32(x, (n - 1) as nat).push(n - 1)
    } else {
        members32(x, (n - 1) as nat)
    }
}

/// The members of a byte are its set bits, in increasing order, and there are
/// as many as it has set bits.
pub proof fn lemma_members8(x: u8, n: nat)
    requires
        n <= 8,
    ensures
        members8(x, n).len() == count8(x, n),
        forall|i: int| 0 <= i < members8(x, n).len() ==> 0 <= #[trigger] members8(x, n)[i] < n,
        forall|i: int, j: int|
            0 <= i < j < members8(x, n).len() ==> members8(x, n)[i] < members8(x, n)[j],
        forall|k: int| 0 <= k < n ==> (bit8(x, k as u8) <==> members8(x, n).contains(k)),
    decreases n,
{
    if n > 0 {
        lemma_members8(x, (n - 1) as nat);
        let m = members8(x, (n - 1) as nat);
        assert forall|k: int| 0 <= k < n implies (bit8(x, k as u8) <==> members8(x, n).contains(k)) by {
            if bit8(x, (n - 1) as u8) {
                if k < n - 1 {
                    if m.contains(k) {
                        let i = choose|i: int| 0 <= i < m.len() && m[i] == k;
                        assert(members8(x, n)[i] == k);
                    }
                    if members8(x, n).contains(k) {
                        let i = choose|i: int| 0 <= i < members8(x, n).len() && members8(x, n)[i] == k;
                        assert(i < m.len());
                        assert(m[i] == k);
                    }
                } else {
                    assert(members8(x, n)[m.len() as int] == k);
                }
            } else {
                if k == n - 1 && members8(x, n).contains(k) {
                    let i = choose|i: int| 0 <= i < m.len() && m[i] == k;
                }
            }
        }
    }
}

/// The members of a `u32` are its set bits, in increasing order.
pub proof fn lemma_members32(x: u32, n: nat)
    requires
        n <= 32,
    ensures
        members32(x, n).len() == count32(x, n),
        forall|i: int| 0 <= i < members32(x, n).len() ==> 0 <= #[trigger] members32(x, n)[i] < n,
        forall|i: int, j: int|
            0 <= i < j < members32(x, n).len() ==> members32(x, n)[i] < members32(x, n)[j],
        forall|k: int| 0 <= k < n ==> (bit32(x, k as u32) <==> members32(x, n).contains(k)),
    decreases n,
{
    if n > 0 {
        lemma_members32(x, (n - 1) as nat);
        let m = members32(x, (n - 1) as nat);
        assert forall|k: int| 0 <= k < n implies (bit32(x, k as u32) <==> members32(x, n).contains(k)) by {
            if bit32(x, (n - 1) as u32) {
                if k < n - 1 {
                    if m.contains(k) {
                        let i = choose|i: int| 0 <= i < m.len() && m[i] == k;
                        assert(members32(x, n)[i] == k);
                    }
                    if members32(x, n).contains(k) {
                        let i = choose|i: int| 0 <= i < members32(x, n).len() && members32(x, n)[i] == k;
                        assert(i < m.len());
                        assert(m[i] == k);
                    }
                } else {
                    assert(members32(x, n)[m.len() as int] == k);
                }
            } else {
                if k == n - 1 && members32(x, n).contains(k) {
                    let i = choose|i: int| 0 <= i < m.len() && m[i] == k;
                }
            }
        }
    }
}

// ---------------------------------------------------------------------------
// Bytes
// ---------------------------------------------------------------------------

/// Bitwise operations on a byte, one bit at a time.
pub proof fn lemma_bit8_ops(x: u8, y: u8, i: u8)
    by (bit_vector)
    requires
        i < 8,
    ensures
        bit8(x | y, i) == (bit8(x, i) || bit8(y, i)),
        bit8(x & y, i) == (bit8(x, i) && bit8(y, i)),
        bit8(x ^ y, i) == (bit8(x, i) != bit8(y, i)),
        bit8(!x, i) == !bit8(x, i),
        !bit8(0u8, i),
        bit8(0xffu8, i),
        (x & (1u8 << i) != 0u8) == bit8(x, i),
{
}

/// A byte with one bit set.
pub proof fn lemma_bit8_one(k: u8, i: u8)
    by (bit_vector)
    requires
        k < 8,
        i < 8,
    ensures
        bit8(1u8 << k, i) == (i == k),
{
}

/// Bits of a shifted byte.
pub proof fn lemma_bit8_shift(x: u8, k: u8, i: u8)
    by (bit_vector)
    requires
        k < 8,
        i < 8,
    ensures
        bit8(x << k, i) == (i >= k && bit8(x, (i - k) as u8)),
        bit8(x >> k, i) == (i + k < 8 && bit8(x, (i + k) as u8)),
{
}

/// A byte is determined by its bits.
pub proof fn lemma_bit8_ext(x: u8, y: u8)
    by (bit_vector)
    requires
        bit8(x, 0) == bit8(y, 0),
        bit8(x, 1) == bit8(y, 1),
        bit8(x, 2) == bit8(y, 2),
        bit8(x, 3) == bit8(y, 3),
        bit8(x, 4) == bit8(y, 4),
        bit8(x, 5) == bit8(y, 5),
        bit8(x, 6) == bit8(y, 6),
        bit8(x, 7) == bit8(y, 7),
    ensures
        x == y,
{
}

/// All bitwise facts about bytes, for every bit position.
pub proof fn lemma_bit8_all()
    ensures
        forall|x: u8, y: u8, i: u8|
            #![trigger bit8(x | y, i)]
            i < 8 ==> bit8(x | y, i) == (bit8(x, i) || bit8(y, i)),
        forall|x: u8, y: u8, i: u8|
            #![trigger bit8(x & y, i)]
            i < 8 ==> bit8(x & y, i) == (bit8(x, i) && bit8(y, i)),
        forall|x: u8, y: u8, i: u8|
            #![trigger bit8(x ^ y, i)]
            i < 8 ==> bit8(x ^ y, i) == (bit8(x, i) != bit8(y, i)),
        forall|x: u8, i: u8| #![trigger bit8(!x, i)] i < 8 ==> bit8(!x, i) == !bit8(x, i),
        forall|i: u8| #![trigger bit8(0u8, i)] i < 8 ==> !bit8(0u8, i),
        forall|i: u8| #![trigger bit8(0xffu8, i)] i < 8 ==> bit8(0xffu8, i),
        forall|k: u8, i: u8| #![trigger bit8(1u8 << k, i)] k < 8 && i < 8 ==> bit8(1u8 << k, i) == (i == k),
        forall|x: u8, k: u8|
            #![trigger x & (1u8 << k)]
            k < 8 ==> (x & (1u8 << k) != 0u8) == bit8(x, k),
{
    assert forall|x: u8, y: u8, i: u8| i < 8 implies bit8(x | y, i) == (bit8(x, i) || bit8(y, i)) by {
        lemma_bit8_ops(x, y, i);
    }
    assert forall|x: u8, y: u8, i: u8| i < 8 implies bit8(x & y, i) == (bit8(x, i) && bit8(y, i)) by {
        lemma_bit8_ops(x, y, i);
    }
    assert forall|x: u8, y: u8, i: u8| i < 8 implies bit8(x ^ y, i) == (bit8(x, i) != bit8(y, i)) by {
        lemma_bit8_ops(x, y, i);
    }
    assert forall|x: u8, i: u8| i < 8 implies bit8(!x, i) == !bit8(x, i) by {
        lemma_bit8_ops(x, x, i);
    }
    assert forall|i: u8| i < 8 implies !bit8(0u8, i) && bit8(0xffu8, i) by {
        lemma_bit8_ops(0, 0, i);
    }
    assert forall|k: u8, i: u8| k < 8 && i < 8 implies bit8(1u8 << k, i) == (i == k) by {
        lemma_bit8_one(k, i);
    }
    assert forall|x: u8, k: u8| k < 8 implies (x & (1u8 << k) != 0u8) == bit8(x, k) by {
        lemma_bit8_ops(x, x, k);
    }
}

/// A byte below 16 has no bits set above bit 3.
pub proof fn lemma_bit8_low4(x: u8)
    by (bit_vector)
    ensures
        x < 16 <==> (!bit8(x, 4) && !bit8(x, 5) && !bit8(x, 6) && !bit8(x, 7)),
{
}

/// Two bytes with the same bits are equal.
pub proof fn lemma_bit8_eq(x: u8, y: u8)
    requires
        forall|i: u8| i < 8 ==> bit8(x, i) == bit8(y, i),
    ensures
        x == y,
{
    assert(bit8(x, 0) == bit8(y, 0));
    assert(bit8(x, 1) == bit8(y, 1));
    assert(bit8(x, 2) == bit8(y, 2));
    assert(bit8(x, 3) == bit8(y, 3));
    assert(bit8(x, 4) == bit8(y, 4));
    assert(bit8(x, 5) == bit8(y, 5));
    assert(bit8(x, 6) == bit8(y, 6));
    assert(bit8(x, 7) == bit8(y, 7));
    lemma_bit8_ext(x, y);
}

/// Counting the set bits of a byte.
pub proof fn lemma_count8(x: u8, n: nat)
    requires
        n <= 8,
    ensures
        count8(x, n) <= n,
        count8(x, n) == 0 <==> forall|i: u8| i < n ==> !bit8(x, i),
    decreases n,
{
    if n > 0 {
        lemma_count8(x, (n - 1) as nat);
        if count8(x, n) == 0 {
            assert forall|i: u8| i < n implies !bit8(x, i) by {
                if i < n - 1 {
                } else {
                    assert(i == n - 1);
                }
            }
        }
    }
}

/// If exactly one bit is set among the first `n`, it is the only one.
pub proof fn lemma_count8_one(x: u8, n: nat, j: u8, k: u8)
    requires
        n <= 8,
        count8(x, n) == 1,
        j < n,
        k < n,
        bit8(x, j),
        bit8(x, k),
    ensures
        j == k,
    decreases n,
{
    lemma_count8(x, (n - 1) as nat);
    if j == n - 1 && k != n - 1 {
        assert(count8(x, (n - 1) as nat) == 0);
        assert(!bit8(x, k));
    } else if k == n - 1 && j != n - 1 {
        assert(count8(x, (n - 1) as nat) == 0);
        assert(!bit8(x, j));
    } else if j != n - 1 && k != n - 1 {
        if bit8(x, (n - 1) as u8) {
            assert(count8(x, (n - 1) as nat) == 0);
            assert(!bit8(x, j));
        } else {
            lemma_count8_one(x, (n - 1) as nat, j, k);
        }
    }
}

/// With one bit set among the first `n`, and no other, the count is one.
pub proof fn lemma_count8_unique(x: u8, n: nat, j: u8)
    requires
        n <= 8,
        j < n,
        bit8(x, j),
        forall|i: u8| i < n && i != j ==> !bit8(x, i),
    ensures
        count8(x, n) == 1,
    decreases n,
{
    if j == n - 1 {
        lemma_count8(x, (n - 1) as nat);
    } else {
        lemma_count8_unique(x, (n - 1) as nat, j);
    }
}

// ---------------------------------------------------------------------------
// 16-bit words
// ---------------------------------------------------------------------------

/// Bitwise operations on a `u16`, one bit at a time.
pub proof fn lemma_bit16_ops(x: u16, y: u16, i: u16)
    by (bit_vector)
    requires
        i < 16,
    ensures
        bit16(x | y, i) == (bit16(x, i) || bit16(y, i)),
        bit16(x & y, i) == (bit16(x, i) && bit16(y, i)),
        bit16(x ^ y, i) == (bit16(x, i) != bit16(y, i)),
        bit16(!x, i) == !bit16(x, i),
        !bit16(0u16, i),
{
}

/// A `u16` with one bit set.
pub proof fn lemma_bit16_one(k: u16, i: u16)
    by (bit_vector)
    requires
        k < 16,
        i < 16,
    ensures
        bit16(1u16 << k, i) == (i == k),
        bit16(0x111u16 << (k % 4), i) == (i % 4 == k % 4 && i < 12),
        bit16(0x010u16 << (k % 4), i) == (i == 4 + k % 4),
{
}

/// A `u16` is determined by its bits.
pub proof fn lemma_bit16_ext(x: u16, y: u16)
    by (bit_vector)
    requires
        bit16(x, 0) == bit16(y, 0),
        bit16(x, 1) == bit16(y, 1),
        bit16(x, 2) == bit16(y, 2),
        bit16(x, 3) == bit16(y, 3),
        bit16(x, 4) == bit16(y, 4),
        bit16(x, 5) == bit16(y, 5),
        bit16(x, 6) == bit16(y, 6),
        bit16(x, 7) == bit16(y, 7),
        bit16(x, 8) == bit16(y, 8),
        bit16(x, 9) == bit16(y, 9),
        bit16(x, 10) == bit16(y, 10),
        bit16(x, 11) == bit16(y, 11),
        bit16(x, 12) == bit16(y, 12),
        bit16(x, 13) == bit16(y, 13),
        bit16(x, 14) == bit16(y, 14),
        bit16(x, 15) == bit16(y, 15),
    ensures
        x == y,
{
}

/// A `u16` below 4096 has no bits set above bit 11.
pub proof fn lemma_bit16_low12(x: u16)
    by (bit_vector)
    ensures
        x < 4096 <==> (!bit16(x, 12) && !bit16(x, 13) && !bit16(x, 14) && !bit16(x, 15)),
{
}

/// All bitwise facts about `u16`s, for every bit position.
pub proof fn lemma_bit16_all()
    ensures
        forall|x: u16, y: u16, i: u16|
            #![trigger bit16(x | y, i)]
            i < 16 ==> bit16(x | y, i) == (bit16(x, i) || bit16(y, i)),
        forall|x: u16, y: u16, i: u16|
            #![trigger bit16(x & y, i)]
            i < 16 ==> bit16(x & y, i) == (bit16(x, i) && bit16(y, i)),
        forall|x: u16, y: u16, i: u16|
            #![trigger bit16(x ^ y, i)]
            i < 16 ==> bit16(x ^ y, i) == (bit16(x, i) != bit16(y, i)),
        forall|x: u16, i: u16| #![trigger bit16(!x, i)] i < 16 ==> bit16(!x, i) == !bit16(x, i),
        forall|i: u16| #![trigger bit16(0u16, i)] i < 16 ==> !bit16(0u16, i),
        forall|k: u16, i: u16|
            #![trigger bit16(1u16 << k, i)]
            k < 16 && i < 16 ==> bit16(1u16 << k, i) == (i == k),
        forall|k: u16, i: u16|
            #![trigger bit16(0x111u16 << k, i)]
            k < 4 && i < 16 ==> bit16(0x111u16 << k, i) == (i % 4 == k && i < 12),
        forall|k: u16, i: u16|
            #![trigger bit16(0x010u16 << k, i)]
            k < 4 && i < 16 ==> bit16(0x010u16 << k, i) == (i == 4 + k),
{
    assert forall|x: u16, y: u16, i: u16| i < 16 implies bit16(x | y, i) == (bit16(x, i) || bit16(y, i)) by {
        lemma_bit16_ops(x, y, i);
    }
    assert forall|x: u16, y: u16, i: u16| i < 16 implies bit16(x & y, i) == (bit16(x, i) && bit16(y, i)) by {
        lemma_bit16_ops(x, y, i);
    }
    assert forall|x: u16, y: u16, i: u16| i < 16 implies bit16(x ^ y, i) == (bit16(x, i) != bit16(y, i)) by {
        lemma_bit16_ops(x, y, i);
    }
    assert forall|x: u16, i: u16| i < 16 implies bit16(!x, i) == !bit16(x, i) by {
        lemma_bit16_ops(x, x, i);
    }
    assert forall|i: u16| i < 16 implies !bit16(0u16, i) by {
        lemma_bit16_ops(0, 0, i);
    }
    assert forall|k: u16, i: u16| k < 16 && i < 16 implies bit16(1u16 << k, i) == (i == k) by {
        lemma_bit16_one(k, i);
    }
    assert forall|k: u16, i: u16| k < 4 && i < 16 implies bit16(0x111u16 << k, i) == (i % 4 == k && i < 12) by {
        lemma_bit16_one(k, i);
    }
    assert forall|k: u16, i: u16| k < 4 && i < 16 implies bit16(0x010u16 << k, i) == (i == 4 + k) by {
        lemma_bit16_one(k, i);
    }
}

/// A `u16` is zero exactly when no bit is set, and below 4096 exactly when no
/// bit above 11 is set.
pub proof fn lemma_bit16_zero(x: u16)
    ensures
        x == 0 <==> forall|i: u16| i < 16 ==> !bit16(x, i),
        x < 4096 <==> forall|i: u16| 12 <= i < 16 ==> !bit16(x, i),
{
    lemma_bit16_all();
    lemma_bit16_low12(x);
    if forall|i: u16| i < 16 ==> !bit16(x, i) {
        lemma_bit16_eq(x, 0);
    }
}

/// Combining values below 4096 bitwise stays below 4096.
pub proof fn lemma_bit16_ops_4096(x: u16, y: u16)
    by (bit_vector)
    requires
        x < 4096,
        y < 4096,
    ensures
        x | y < 4096,
        x & y < 4096,
        x ^ y < 4096,
{
}

/// Two `u16`s with the same bits are equal.
pub proof fn lemma_bit16_eq(x: u16, y: u16)
    requires
        forall|i: u16| i < 16 ==> bit16(x, i) == bit16(y, i),
    ensures
        x == y,
{
    assert(bit16(x, 0) == bit16(y, 0));
    assert(bit16(x, 1) == bit16(y, 1));
    assert(bit16(x, 2) == bit16(y, 2));
    assert(bit16(x, 3) == bit16(y, 3));
    assert(bit16(x, 4) == bit16(y, 4));
    assert(bit16(x, 5) == bit16(y, 5));
    assert(bit16(x, 6) == bit16(y, 6));
    assert(bit16(x, 7) == bit16(y, 7));
    assert(bit16(x, 8) == bit16(y, 8));
    assert(bit16(x, 9) == bit16(y, 9));
    assert(bit16(x, 10) == bit16(y, 10));
    assert(bit16(x, 11) == bit16(y, 11));
    assert(bit16(x, 12) == bit16(y, 12));
    assert(bit16(x, 13) == bit16(y, 13));
    assert(bit16(x, 14) == bit16(y, 14));
    assert(bit16(x, 15) == bit16(y, 15));
    lemma_bit16_ext(x, y);
}

// ---------------------------------------------------------------------------
// 32-bit words
// ---------------------------------------------------------------------------

/// Bitwise operations on a `u32`, one bit at a time.
pub proof fn lemma_bit32_ops(x: u32, y: u32, i: u32)
    by (bit_vector)
    requires
        i < 32,
    ensures
        bit32(x | y, i) == (bit32(x, i) || bit32(y, i)),
        bit32(x & y, i) == (bit32(x, i) && bit32(y, i)),
        bit32(x ^ y, i) == (bit32(x, i) != bit32(y, i)),
        bit32(!x, i) == !bit32(x, i),
        !bit32(0u32, i),
        bit32(0xffff_ffffu32, i),
{
}

/// A `u32` with one bit set.
pub proof fn lemma_bit32_one(k: u32, i: u32)
    by (bit_vector)
    requires
        k < 32,
        i < 32,
    ensures
        bit32(1u32 << k, i) == (i == k),
{
}

/// Testing a bit with a one-bit mask.
pub proof fn lemma_bit32_test(x: u32, k: u32)
    by (bit_vector)
    requires
        k < 32,
    ensures
        (x & (1u32 << k) != 0) == bit32(x, k),
{
}

/// A `u32` is determined by its bits.
pub proof fn lemma_bit32_ext(x: u32, y: u32)
    by (bit_vector)
    requires
        bit32(x, 0) == bit32(y, 0),
        bit32(x, 1) == bit32(y, 1),
        bit32(x, 2) == bit32(y, 2),
        bit32(x, 3) == bit32(y, 3),
        bit32(x, 4) == bit32(y, 4),
        bit32(x, 5) == bit32(y, 5),
        bit32(x, 6) == bit32(y, 6),
        bit32(x, 7) == bit32(y, 7),
        bit32(x, 8) == bit32(y, 8),
        bit32(x, 9) == bit32(y, 9),
        bit32(x, 10) == bit32(y, 10),
        bit32(x, 11) == bit32(y, 11),
        bit32(x, 12) == bit32(y, 12),
        bit32(x, 13) == bit32(y, 13),
        bit32(x, 14) == bit32(y, 14),
        bit32(x, 15) == bit32(y, 15),
        bit32(x, 16) == bit32(y, 16),
        bit32(x, 17) == bit32(y, 17),
        bit32(x, 18) == bit32(y, 18),
        bit32(x, 19) == bit32(y, 19),
        bit32(x, 20) == bit32(y, 20),
        bit32(x, 21) == bit32(y, 21),
        bit32(x, 22) == bit32(y, 22),
        bit32(x, 23) == bit32(y, 23),
        bit32(x, 24) == bit32(y, 24),
        bit32(x, 25) == bit32(y, 25),
        bit32(x, 26) == bit32(y, 26),
        bit32(x, 27) == bit32(y, 27),
        bit32(x, 28) == bit32(y, 28),
        bit32(x, 29) == bit32(y, 29),
        bit32(x, 30) == bit32(y, 30),
        bit32(x, 31) == bit32(y, 31),
    ensures
        x == y,
{
}

/// All bitwise facts about `u32`s, for every bit position.
pub proof fn lemma_bit32_all()
    ensures
        forall|x: u32, y: u32, i: u32|
            #![trigger bit32(x | y, i)]
            i < 32 ==> bit32(x | y, i) == (bit32(x, i) || bit32(y, i)),
        forall|x: u32, y: u32, i: u32|
            #![trigger bit32(x & y, i)]
            i < 32 ==> bit32(x & y, i) == (bit32(x, i) && bit32(y, i)),
        forall|x: u32, y: u32, i: u32|
            #![trigger bit32(x ^ y, i)]
            i < 32 ==> bit32(x ^ y, i) == (bit32(x, i) != bit32(y, i)),
        forall|x: u32, i: u32| #![trigger bit32(!x, i)] i < 32 ==> bit32(!x, i) == !bit32(x, i),
        forall|i: u32| #![trigger bit32(0u32, i)] i < 32 ==> !bit32(0u32, i),
        forall|i: u32| #![trigger bit32(0xffff_ffffu32, i)] i < 32 ==> bit32(0xffff_ffffu32, i),
        forall|k: u32, i: u32|
            #![trigger bit32(1u32 << k, i)]
            k < 32 && i < 32 ==> bit32(1u32 << k, i) == (i == k),
{
    assert forall|x: u32, y: u32, i: u32| i < 32 implies bit32(x | y, i) == (bit32(x, i) || bit32(y, i)) by {
        lemma_bit32_ops(x, y, i);
    }
    assert forall|x: u32, y: u32, i: u32| i < 32 implies bit32(x & y, i) == (bit32(x, i) && bit32(y, i)) by {
        lemma_bit32_ops(x, y, i);
    }
    assert forall|x: u32, y: u32, i: u32| i < 32 implies bit32(x ^ y, i) == (bit32(x, i) != bit32(y, i)) by {
        lemma_bit32_ops(x, y, i);
    }
    assert forall|x: u32, i: u32| i < 32 implies bit32(!x, i) == !bit32(x, i) by {
        lemma_bit32_ops(x, x, i);
    }
    assert forall|i: u32| i < 32 implies !bit32(0u32, i) && bit32(0xffff_ffffu32, i) by {
        lemma_bit32_ops(0, 0, i);
    }
    assert forall|k: u32, i: u32| k < 32 && i < 32 implies bit32(1u32 << k, i) == (i == k) by {
        lemma_bit32_one(k, i);
    }
}

/// Two `u32`s with the same bits are equal, and a `u32` is zero exactly when
/// no bit is set.
pub proof fn lemma_bit32_eq(x: u32, y: u32)
    ensures
        (forall|i: u32| i < 32 ==> bit32(x, i) == bit32(y, i)) ==> x == y,
        x == 0 <==> forall|i: u32| i < 32 ==> !bit32(x, i),
{
    lemma_bit32_all();
    if forall|i: u32| i < 32 ==> bit32(x, i) == bit32(y, i) {
        assert(bit32(x, 0) == bit32(y, 0));
        assert(bit32(x, 1) == bit32(y, 1));
        assert(bit32(x, 2) == bit32(y, 2));
        assert(bit32(x, 3) == bit32(y, 3));
        assert(bit32(x, 4) == bit32(y, 4));
        assert(bit32(x, 5) == bit32(y, 5));
        assert(bit32(x, 6) == bit32(y, 6));
        assert(bit32(x, 7) == bit32(y, 7));
        assert(bit32(x, 8) == bit32(y, 8));
        assert(bit32(x, 9) == bit32(y, 9));
        assert(bit32(x, 10) == bit32(y, 10));
        assert(bit32(x, 11) == bit32(y, 11));
        assert(bit32(x, 12) == bit32(y, 12));
        assert(bit32(x, 13) == bit32(y, 13));
        assert(bit32(x, 14) == bit32(y, 14));
        assert(bit32(x, 15) == bit32(y, 15));
        assert(bit32(x, 16) == bit32(y, 16));
        assert(bit32(x, 17) == bit32(y, 17));
        assert(bit32(x, 18) == bit32(y, 18));
        assert(bit32(x, 19) == bit32(y, 19));
        assert(bit32(x, 20) == bit32(y, 20));
        assert(bit32(x, 21) == bit32(y, 21));
        assert(bit32(x, 22) == bit32(y, 22));
        assert(bit32(x, 23) == bit32(y, 23));
        assert(bit32(x, 24) == bit32(y, 24));
        assert(bit32(x, 25) == bit32(y, 25));
        assert(bit32(x, 26) == bit32(y, 26));
        assert(bit32(x, 27) == bit32(y, 27));
        assert(bit32(x, 28) == bit32(y, 28));
        assert(bit32(x, 29) == bit32(y, 29));
        assert(bit32(x, 30) == bit32(y, 30));
        assert(bit32(x, 31) == bit32(y, 31));
        lemma_bit32_ext(x, y);
    }
    if forall|i: u32| i < 32 ==> !bit32(x, i) {
        assert forall|i: u32| i < 32 implies bit32(x, i) == bit32(0u32, i) by {}
        assert(bit32(x, 0) == bit32(0u32, 0));
        assert(bit32(x, 1) == bit32(0u32, 1));
        assert(bit32(x, 2) == bit32(0u32, 2));
        assert(bit32(x, 3) == bit32(0u32, 3));
        assert(bit32(x, 4) == bit32(0u32, 4));
        assert(bit32(x, 5) == bit32(0u32, 5));
        assert(bit32(x, 6) == bit32(0u32, 6));
        assert(bit32(x, 7) == bit32(0u32, 7));
        assert(bit32(x, 8) == bit32(0u32, 8));
        assert(bit32(x, 9) == bit32(0u32, 9));
        assert(bit32(x, 10) == bit32(0u32, 10));
        assert(bit32(x, 11) == bit32(0u32, 11));
        assert(bit32(x, 12) == bit32(0u32, 12));
        assert(bit32(x, 13) == bit32(0u32, 13));
        assert(bit32(x, 14) == bit32(0u32, 14));
        assert(bit32(x, 15) == bit32(0u32, 15));
        assert(bit32(x, 16) == bit32(0u32, 16));
        assert(bit32(x, 17) == bit32(0u32, 17));
        assert(bit32(x, 18) == bit32(0u32, 18));
        assert(bit32(x, 19) == bit32(0u32, 19));
        assert(bit32(x, 20) == bit32(0u32, 20));
        assert(bit32(x, 21) == bit32(0u32, 21));
        assert(bit32(x, 22) == bit32(0u32, 22));
        assert(bit32(x, 23) == bit32(0u32, 23));
        assert(bit32(x, 24) == bit32(0u32, 24));
        assert(bit32(x, 25) == bit32(0u32, 25));
        assert(bit32(x, 26) == bit32(0u32, 26));
        assert(bit32(x, 27) == bit32(0u32, 27));
        assert(bit32(x, 28) == bit32(0u32, 28));
        assert(bit32(x, 29) == bit32(0u32, 29));
        assert(bit32(x, 30) == bit32(0u32, 30));
        assert(bit32(x, 31) == bit32(0u32, 31));
        lemma_bit32_ext(x, 0);
    }
}

} // verus!
