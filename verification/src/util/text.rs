//! Reading and writing UTF-8 text as bytes: words (split at whitespace
//! characters), lines, decimal numbers.
use vstd::prelude::*;

verus! {

/// Whether `b` is an ASCII whitespace byte (space, tab, line feed, vertical
/// tab, form feed, carriage return).
pub open spec fn is_space(b: u8) -> bool {
    b == 32 || (9 <= b && b <= 13)
}

/// Length of the whitespace character at the start of `s`, UTF-8 encoded,
/// or 0 if `s` does not start with one. The whitespace characters are those
/// of `char::is_whitespace`: the ASCII ones above, U+0085, U+00A0, U+1680,
/// U+2000 to U+200A, U+2028, U+2029, U+202F, U+205F and U+3000.
pub open spec fn space_len(s: Seq<u8>) -> nat {
    if s.len() >= 1 && is_space(s[0]) {
        1
    } else if s.len() >= 2 && s[0] == 0xC2 && (s[1] == 0x85 || s[1] == 0xA0) {
        2
    } else if s.len() >= 3 && s[0] == 0xE1 && s[1] == 0x9A && s[2] == 0x80 {
        3
    } else if s.len() >= 3 && s[0] == 0xE2 && s[1] == 0x80 && ((0x80 <= s[2] && s[2] <= 0x8A) || s[2] == 0xA8
        || s[2] == 0xA9 || s[2] == 0xAF) {
        3
    } else if s.len() >= 3 && s[0] == 0xE2 && s[1] == 0x81 && s[2] == 0x9F {
        3
    } else if s.len() >= 3 && s[0] == 0xE3 && s[1] == 0x80 && s[2] == 0x80 {
        3
    } else {
        0
    }
}

/// Whether `b` is an ASCII digit.
pub open spec fn is_digit(b: u8) -> bool {
    48 <= b && b <= 57
}

/// Length of the run of bytes at the start of `s` before the first
/// whitespace character.
pub open spec fn word_len(s: Seq<u8>) -> nat
    decreases s.len(),
{
    if s.len() == 0 || space_len(s) > 0 {
        0
    } else {
        1 + word_len(s.drop_first())
    }
}

/// The words of `s`: its maximal runs of bytes holding no whitespace
/// character, in order.
pub open spec fn words(s: Seq<u8>) -> Seq<Seq<u8>>
    decreases s.len(),
{
    if s.len() == 0 {
        seq![]
    } else if space_len(s) > 0 {
        words(s.skip(space_len(s) as int))
    } else {
        let n = word_len(s);
        if 0 < n <= s.len() {
            seq![s.take(n as int)] + words(s.skip(n as int))
        } else {
            seq![]
        }
    }
}

/// Index of the first line feed at or after `p`, or the length of `s`.
pub open spec fn line_end(s: Seq<u8>, p: int) -> int
    decreases s.len() - p,
{
    if p < 0 || p >= s.len() {
        s.len() as int
    } else if s[p] == 10 {
        p
    } else {
        line_end(s, p + 1)
    }
}

/// The line starting at `p`: the bytes up to the next line feed, without a
/// carriage return just before the line feed.
pub open spec fn line_at(s: Seq<u8>, p: int) -> Seq<u8> {
    let e = line_end(s, p);
    let raw = s.subrange(p, e);
    if e < s.len() && raw.len() > 0 && raw.last() == 13 {
        raw.drop_last()
    } else {
        raw
    }
}

/// Where the line after the one starting at `p` starts.
pub open spec fn next_line(s: Seq<u8>, p: int) -> int {
    let e = line_end(s, p);
    if e < s.len() {
        e + 1
    } else {
        s.len() as int
    }
}

/// Up to `k` lines starting at `p`, as many as there are.
pub open spec fn lines_from(s: Seq<u8>, p: int, k: nat) -> Seq<Seq<u8>>
    decreases k,
{
    if k == 0 || p >= s.len() {
        seq![]
    } else {
        seq![line_at(s, p)] + lines_from(s, next_line(s, p), (k - 1) as nat)
    }
}

/// Where the text after up to `k` lines starting at `p` starts.
pub open spec fn after_lines(s: Seq<u8>, p: int, k: nat) -> int
    decreases k,
{
    if k == 0 || p >= s.len() {
        p
    } else {
        after_lines(s, next_line(s, p), (k - 1) as nat)
    }
}

/// The pieces of `parts` joined with line feeds between them.
pub open spec fn join_lines(parts: Seq<Seq<u8>>) -> Seq<u8>
    decreases parts.len(),
{
    if parts.len() == 0 {
        seq![]
    } else if parts.len() == 1 {
        parts[0]
    } else {
        join_lines(parts.drop_last()) + seq![10u8] + parts.last()
    }
}

/// Value of a string of decimal digits.
pub open spec fn digits_value(s: Seq<u8>) -> nat
    decreases s.len(),
{
    if s.len() == 0 {
        0
    } else {
        digits_value(s.drop_last()) * 10 + (s.last() - 48) as nat
    }
}

/// Whether `s` is a nonempty string of decimal digits.
pub open spec fn all_digits(s: Seq<u8>) -> bool {
    s.len() > 0 && forall|i: int| 0 <= i < s.len() ==> is_digit(#[trigger] s[i])
}

/// An unsigned integer read as the standard library does: an optional `+`
/// and decimal digits, at most `max`.
pub open spec fn parse_unsigned(s: Seq<u8>, max: nat) -> Option<nat> {
    let d = if s.len() > 0 && s[0] == 43 {
        s.drop_first()
    } else {
        s
    };
    if all_digits(d) && digits_value(d) <= max {
        Some(digits_value(d))
    } else {
        None
    }
}

/// An `i8` read as the standard library does: an optional sign and decimal
/// digits, within the range of `i8`.
pub open spec fn parse_i8(s: Seq<u8>) -> Option<int> {
    if s.len() > 0 && s[0] == 45 {
        let d = s.drop_first();
        if all_digits(d) && digits_value(d) <= 128 {
            Some(-digits_value(d))
        } else {
            None
        }
    } else {
        match parse_unsigned(s, 127) {
            Some(v) => Some(v as int),
            None => None,
        }
    }
}

/// Decimal digits of `n`.
pub open spec fn decimal(n: nat) -> Seq<u8>
    decreases n,
{
    if n < 10 {
        seq![(48 + n) as u8]
    } else {
        decimal(n / 10) + seq![(48 + n % 10) as u8]
    }
}

/// Decimal text of a signed number: a `-` for negative numbers, then the
/// digits of its absolute value.
pub open spec fn signed_decimal(n: int) -> Seq<u8> {
    if n < 0 {
        seq![45u8] + decimal((-n) as nat)
    } else {
        decimal(n as nat)
    }
}

/// Whether `b` is an ASCII whitespace byte.
pub fn is_space_exec(b: u8) -> (r: bool)
    ensures
        r == is_space(b),
{
    b == 32 || (9 <= b && b <= 13)
}

/// Length of the whitespace character starting at `i`, or 0.
pub fn space_len_exec(s: &[u8], i: usize) -> (r: usize)
    requires
        i < s.len(),
    ensures
        r == space_len(s@.skip(i as int)),
        r <= s.len() - i,
{
    let n = s.len() - i;
    let b0 = s[i];
    if is_space_exec(b0) {
        return 1;
    }
    if n >= 2 {
        let b1 = s[i + 1];
        if b0 == 0xC2 && (b1 == 0x85 || b1 == 0xA0) {
            return 2;
        }
        if n >= 3 {
            let b2 = s[i + 2];
            if (b0 == 0xE1 && b1 == 0x9A && b2 == 0x80) || (b0 == 0xE2 && b1 == 0x80 && ((0x80 <= b2 && b2 <= 0x8A)
                || b2 == 0xA8 || b2 == 0xA9 || b2 == 0xAF)) || (b0 == 0xE2 && b1 == 0x81 && b2 == 0x9F) || (b0 == 0xE3
                && b1 == 0x80 && b2 == 0x80) {
                return 3;
            }
        }
    }
    0
}

proof fn lemma_skip_first(s: Seq<u8>, i: int)
    requires
        0 <= i < s.len(),
    ensures
        s.skip(i).drop_first() == s.skip(i + 1),
        s.skip(i)[0] == s[i],
{
    assert(s.skip(i).drop_first() =~= s.skip(i + 1));
}

/// The words of `s`: its maximal runs of bytes holding no whitespace
/// character, in order.
pub fn split_words(s: &[u8]) -> (r: Vec<Vec<u8>>)
    ensures
        r.len() == words(s@).len(),
        forall|k: int| 0 <= k < r.len() ==> (#[trigger] r[k])@ == words(s@)[k],
{
    let mut r: Vec<Vec<u8>> = Vec::new();
    let mut i: usize = 0;
    let ghost mut done: Seq<Seq<u8>> = seq![];
    proof {
        assert(s@.skip(0) =~= s@);
        assert(done + words(s@) =~= words(s@));
    }
    while i < s.len()
        invariant
            i <= s.len(),
            r.len() == done.len(),
            forall|k: int| 0 <= k < r.len() ==> (#[trigger] r[k])@ == done[k],
            words(s@) == done + words(s@.skip(i as int)),
        decreases s.len() - i,
    {
        proof {
            lemma_skip_first(s@, i as int);
        }
        let k = space_len_exec(s, i);
        if k > 0 {
            proof {
                assert(s@.skip(i as int).skip(k as int) =~= s@.skip(i + k));
            }
            i = i + k;
        } else {
            let start = i;
            let mut j: usize = i;
            let mut w: Vec<u8> = Vec::new();
            while j < s.len() && space_len_exec(s, j) == 0
                invariant
                    start <= j <= s.len(),
                    w@ == s@.subrange(start as int, j as int),
                    word_len(s@.skip(start as int)) == (j - start) + word_len(s@.skip(j as int)),
                decreases s.len() - j,
            {
                proof {
                    lemma_skip_first(s@, j as int);
                }
                w.push(s[j]);
                j = j + 1;
            }
            proof {
                let rest = s@.skip(start as int);
                assert(word_len(s@.skip(j as int)) == 0) by {
                    if j < s.len() {
                        lemma_skip_first(s@, j as int);
                    }
                }
                assert(word_len(rest) == j - start);
                assert(rest.take((j - start) as int) == s@.subrange(start as int, j as int));
                assert(rest.skip((j - start) as int) == s@.skip(j as int));
                assert(words(rest) == seq![s@.subrange(start as int, j as int)] + words(s@.skip(j as int)));
                done = done + seq![w@];
                assert(words(s@) == done + words(s@.skip(j as int)));
            }
            r.push(w);
            i = j;
        }
    }
    proof {
        assert(s@.skip(s.len() as int) =~= Seq::<u8>::empty());
        assert(done + words(Seq::<u8>::empty()) == done);
    }
    r
}

/// Index of the first line feed at or after `p`, or the length of `s`.
pub fn find_line_end(s: &[u8], p: usize) -> (r: usize)
    requires
        p <= s.len(),
    ensures
        r == line_end(s@, p as int),
        p <= r <= s.len(),
{
    let mut e = p;
    while e < s.len() && s[e] != 10
        invariant
            p <= e <= s.len(),
            line_end(s@, p as int) == line_end(s@, e as int),
        decreases s.len() - e,
    {
        e = e + 1;
    }
    e
}

/// The line starting at `p`, and where the next one starts.
pub fn read_line(s: &[u8], p: usize) -> (r: (Vec<u8>, usize))
    requires
        p <= s.len(),
    ensures
        r.0@ == line_at(s@, p as int),
        r.1 == next_line(s@, p as int),
        p <= r.1 <= s.len(),
        p < s.len() ==> p < r.1,
{
    let e = find_line_end(s, p);
    let mut stop = e;
    if e < s.len() && e > p && s[e - 1] == 13 {
        stop = e - 1;
    }
    let mut line: Vec<u8> = Vec::new();
    let mut k = p;
    while k < stop
        invariant
            p <= k <= stop,
            stop <= e <= s.len(),
            line@ == s@.subrange(p as int, k as int),
        decreases stop - k,
    {
        line.push(s[k]);
        k = k + 1;
    }
    proof {
        let raw = s@.subrange(p as int, e as int);
        if e < s.len() && raw.len() > 0 && raw.last() == 13 {
            assert(raw.drop_last() == s@.subrange(p as int, stop as int));
        } else {
            assert(raw == s@.subrange(p as int, stop as int));
        }
    }
    let next = if e < s.len() {
        e + 1
    } else {
        s.len()
    };
    (line, next)
}

/// Whether `a` equals the bytes `b`.
pub fn bytes_equal(a: &[u8], b: &[u8]) -> (r: bool)
    ensures
        r == (a@ == b@),
{
    if a.len() != b.len() {
        return false;
    }
    let mut i: usize = 0;
    while i < a.len()
        invariant
            i <= a.len(),
            a.len() == b.len(),
            forall|k: int| 0 <= k < i ==> a@[k] == b@[k],
        decreases a.len() - i,
    {
        if a[i] != b[i] {
            return false;
        }
        i = i + 1;
    }
    proof {
        assert(a@ =~= b@);
    }
    true
}

/// Appends the decimal digits of `n`.
pub fn push_decimal(out: &mut Vec<u8>, n: u64)
    ensures
        final(out)@ == old(out)@ + decimal(n as nat),
    decreases n,
{
    if n >= 10 {
        push_decimal(out, n / 10);
    }
    out.push((48 + n % 10) as u8);
    proof {
        if n >= 10 {
            assert(decimal(n as nat) == decimal((n / 10) as nat) + seq![(48 + n % 10) as u8]);
        }
    }
}

/// Appends the decimal text of a signed number.
pub fn push_signed_decimal(out: &mut Vec<u8>, n: i8)
    ensures
        final(out)@ == old(out)@ + signed_decimal(n as int),
{
    if n < 0 {
        out.push(45);
        let m: u64 = (-(n as i16)) as u64;
        push_decimal(out, m);
        proof {
            assert(old(out)@ + seq![45u8] + decimal(m as nat) == old(out)@ + (seq![45u8] + decimal(m as nat)));
        }
    } else {
        push_decimal(out, n as u64);
    }
}

/// Appends the bytes of `b`.
pub fn push_bytes(out: &mut Vec<u8>, b: &[u8])
    ensures
        final(out)@ == old(out)@ + b@,
{
    let ghost start = out@;
    let mut i: usize = 0;
    while i < b.len()
        invariant
            i <= b.len(),
            out@ == start + b@.subrange(0, i as int),
        decreases b.len() - i,
    {
        out.push(b[i]);
        i = i + 1;
        proof {
            assert(start + b@.subrange(0, i as int) == start + b@.subrange(0, (i - 1) as int) + seq![b@[i - 1]]);
        }
    }
    proof {
        assert(b@.subrange(0, b.len() as int) == b@);
    }
}

/// Digits values grow with the digits read.
proof fn lemma_digits_value_prefix(s: Seq<u8>, k: int)
    requires
        0 <= k <= s.len(),
        forall|i: int| 0 <= i < s.len() ==> is_digit(#[trigger] s[i]),
    ensures
        digits_value(s.take(k)) <= digits_value(s),
    decreases s.len() - k,
{
    if k < s.len() {
        lemma_digits_value_prefix(s, k + 1);
        assert(s.take(k + 1).drop_last() == s.take(k));
    } else {
        assert(s.take(k) == s);
    }
}

/// The value of a nonempty string of decimal digits, if it is at most
/// `max`.
fn parse_digits(d: &[u8], max: u64) -> (r: Option<u64>)
    ensures
        r == (if all_digits(d@) && digits_value(d@) <= max {
            Some(digits_value(d@) as u64)
        } else {
            None::<u64>
        }),
{
    if d.len() == 0 {
        return None;
    }
    let mut i: usize = 0;
    while i < d.len()
        invariant
            i <= d.len(),
            forall|k: int| 0 <= k < i ==> is_digit(#[trigger] d@[k]),
        decreases d.len() - i,
    {
        if !(48 <= d[i] && d[i] <= 57) {
            return None;
        }
        i = i + 1;
    }
    let mut v: u64 = 0;
    let mut j: usize = 0;
    while j < d.len()
        invariant
            j <= d.len(),
            forall|k: int| 0 <= k < d.len() ==> is_digit(#[trigger] d@[k]),
            v as nat == digits_value(d@.take(j as int)),
            v <= max,
        decreases d.len() - j,
    {
        proof {
            assert(is_digit(d@[j as int]));
        }
        let digit = (d[j] - 48) as u64;
        proof {
            assert(d@.take(j + 1).drop_last() == d@.take(j as int));
            assert(digits_value(d@.take(j + 1)) == v * 10 + digit);
        }
        if digit > max || v > (max - digit) / 10 {
            proof {
                if digit <= max {
                    assert(v * 10 + digit > max) by (nonlinear_arith)
                        requires
                            v > (max - digit) / 10,
                            digit <= max,
                    ;
                }
                lemma_digits_value_prefix(d@, j + 1);
            }
            return None;
        }
        proof {
            assert(v * 10 + digit <= max) by (nonlinear_arith)
                requires
                    v <= (max - digit) / 10,
                    digit <= max,
            ;
        }
        v = v * 10 + digit;
        j = j + 1;
    }
    proof {
        assert(d@.take(d.len() as int) == d@);
    }
    Some(v)
}

/// Reads an unsigned integer as the standard library does: an optional `+`
/// and decimal digits, at most `max`.
pub fn parse_unsigned_exec(s: &[u8], max: u64) -> (r: Option<u64>)
    ensures
        r matches Some(v) ==> parse_unsigned(s@, max as nat) == Some(v as nat),
        r is None ==> parse_unsigned(s@, max as nat) is None,
{
    let d = if s.len() > 0 && s[0] == 43 {
        vstd::slice::slice_subrange(s, 1, s.len())
    } else {
        s
    };
    proof {
        if s.len() > 0 && s[0] == 43 {
            assert(d@ == s@.drop_first());
        }
    }
    parse_digits(d, max)
}

/// Reads an `i8` as the standard library does: an optional sign and
/// decimal digits, within the range of `i8`.
pub fn parse_i8_exec(s: &[u8]) -> (r: Option<i8>)
    ensures
        r matches Some(v) ==> parse_i8(s@) == Some(v as int),
        r is None ==> parse_i8(s@) is None,
{
    if s.len() > 0 && s[0] == 45 {
        let d = vstd::slice::slice_subrange(s, 1, s.len());
        proof {
            assert(d@ == s@.drop_first());
        }
        match parse_digits(d, 128) {
            Some(v) => Some((-(v as i16)) as i8),
            None => None,
        }
    } else {
        match parse_unsigned_exec(s, 127) {
            Some(v) => Some(v as i8),
            None => None,
        }
    }
}

/// The decimal text of a number is made of digits, and reads back as the
/// number.
pub proof fn lemma_decimal_reads_back(n: nat)
    ensures
        all_digits(decimal(n)),
        digits_value(decimal(n)) == n,
    decreases n,
{
    let d = decimal(n);
    if n < 10 {
        assert(d.drop_last() =~= Seq::<u8>::empty());
        assert(d.len() == 1);
        assert(d[0] == (48 + n) as u8);
        assert(is_digit(d[0]));
        assert(all_digits(d));
        assert(digits_value(d.drop_last()) == 0);
        assert(d.last() - 48 == n);
    } else {
        lemma_decimal_reads_back(n / 10);
        let h = decimal(n / 10);
        assert(d.drop_last() == h);
        assert(d.last() == (48 + n % 10) as u8);
        assert forall|i: int| 0 <= i < d.len() implies is_digit(#[trigger] d[i]) by {
            if i < h.len() {
                assert(d[i] == h[i]);
                assert(is_digit(h[i]));
            } else {
                assert(d[i] == (48 + n % 10) as u8);
            }
        }
        assert(d.len() > 0);
        assert(all_digits(d));
        assert(digits_value(d) == digits_value(h) * 10 + (d.last() - 48) as nat);
        assert((n / 10) * 10 + n % 10 == n);
    }
}

/// Decimal text reads back as an unsigned number.
pub proof fn lemma_parse_unsigned_decimal(n: nat, max: nat)
    requires
        n <= max,
    ensures
        parse_unsigned(decimal(n), max) == Some(n),
{
    lemma_decimal_reads_back(n);
    assert(is_digit(decimal(n)[0]));
}

/// Signed decimal text reads back as an `i8`.
pub proof fn lemma_parse_i8_signed_decimal(m: i8)
    ensures
        parse_i8(signed_decimal(m as int)) == Some(m as int),
{
    if m < 0 {
        let d = decimal((-m) as nat);
        lemma_decimal_reads_back((-m) as nat);
        assert((seq![45u8] + d).drop_first() == d);
    } else {
        lemma_parse_unsigned_decimal(m as nat, 127);
        lemma_decimal_reads_back(m as nat);
        assert(is_digit(decimal(m as nat)[0]));
    }
}

/// Whether no whitespace character starts in `w`.
pub open spec fn no_space(w: Seq<u8>) -> bool {
    forall|i: int| 0 <= i < w.len() ==> space_len(#[trigger] w.skip(i)) == 0
}

/// Bytes below 128 that are not ASCII whitespace start no whitespace
/// character.
pub proof fn lemma_ascii_no_space(w: Seq<u8>)
    requires
        forall|i: int| 0 <= i < w.len() ==> #[trigger] w[i] < 128 && !is_space(w[i]),
    ensures
        no_space(w),
{
    assert forall|i: int| 0 <= i < w.len() implies space_len(#[trigger] w.skip(i)) == 0 by {
        assert(w.skip(i)[0] == w[i]);
        assert(w[i] < 128 && !is_space(w[i]));
    }
}

/// A whitespace character in a prefix is one in the whole sequence.
proof fn lemma_space_len_prefix(a: Seq<u8>, b: Seq<u8>)
    requires
        a.len() <= b.len(),
        forall|i: int| 0 <= i < a.len() ==> #[trigger] a[i] == b[i],
        space_len(b) == 0,
    ensures
        space_len(a) == 0,
{
    if a.len() >= 1 {
        assert(a[0] == b[0]);
    }
    if a.len() >= 2 {
        assert(a[1] == b[1]);
    }
    if a.len() >= 3 {
        assert(a[2] == b[2]);
    }
}

/// No whitespace character starts in `w` followed by nothing or by a
/// whitespace character: the bytes after `w` are not continuation bytes.
proof fn lemma_space_len_concat(w: Seq<u8>, rest: Seq<u8>)
    requires
        w.len() > 0,
        space_len(w) == 0,
        rest.len() == 0 || space_len(rest) > 0,
    ensures
        space_len(w + rest) == 0,
{
    let u = w + rest;
    assert(u[0] == w[0]);
    if w.len() >= 2 {
        assert(u[1] == w[1]);
    } else if rest.len() > 0 {
        assert(u[1] == rest[0]);
    }
    if w.len() >= 3 {
        assert(u[2] == w[2]);
    } else if w.len() == 2 && rest.len() > 0 {
        assert(u[2] == rest[0]);
    } else if w.len() == 1 && rest.len() > 1 {
        assert(u[2] == rest[1]);
    }
}

/// A run of bytes in which no whitespace character starts is one word long.
proof fn lemma_word_len_of_word(w: Seq<u8>, rest: Seq<u8>)
    requires
        no_space(w),
        rest.len() == 0 || space_len(rest) > 0,
    ensures
        word_len(w + rest) == w.len(),
    decreases w.len(),
{
    if w.len() > 0 {
        assert(w.skip(0) == w);
        assert(space_len(w.skip(0)) == 0);
        lemma_space_len_concat(w, rest);
        assert((w + rest).drop_first() == w.drop_first() + rest);
        let v = w.drop_first();
        assert forall|i: int| 0 <= i < v.len() implies space_len(#[trigger] v.skip(i)) == 0 by {
            assert(v.skip(i) == w.skip(i + 1));
            assert(space_len(w.skip(i + 1)) == 0);
        }
        lemma_word_len_of_word(v, rest);
    } else {
        assert(w + rest == rest);
    }
}

/// A word followed by a space byte: the word, then the words after.
pub proof fn lemma_words_word_then(w: Seq<u8>, sp: u8, rest: Seq<u8>)
    requires
        w.len() > 0,
        no_space(w),
        is_space(sp),
    ensures
        words(w + seq![sp] + rest) == seq![w] + words(rest),
{
    let s = w + seq![sp] + rest;
    assert(s == w + (seq![sp] + rest));
    lemma_word_len_of_word(w, seq![sp] + rest);
    assert(s[0] == w[0]);
    assert(s.take(w.len() as int) == w);
    let t = s.skip(w.len() as int);
    assert(t == seq![sp] + rest);
    assert(t[0] == sp);
    assert(space_len(t) == 1);
    assert(t.skip(1) == rest);
    assert(words(t) == words(rest));
    assert(w.skip(0) == w);
    lemma_space_len_concat(w, seq![sp] + rest);
    assert(space_len(s) == 0);
    assert(word_len(s) == w.len());
    assert(words(s) == seq![s.take(w.len() as int)] + words(t));
}

/// A single word.
pub proof fn lemma_words_word(w: Seq<u8>)
    requires
        w.len() > 0,
        no_space(w),
    ensures
        words(w) == seq![w],
{
    lemma_word_len_of_word(w, Seq::<u8>::empty());
    assert(w + Seq::<u8>::empty() == w);
    assert(w.take(w.len() as int) == w);
    assert(w.skip(w.len() as int) == Seq::<u8>::empty());
    assert(words(Seq::<u8>::empty()) == Seq::<Seq<u8>>::empty());
    assert(w.skip(0) == w);
    assert(space_len(w.skip(0)) == 0);
    assert(words(w) == seq![w.take(w.len() as int)] + words(w.skip(w.len() as int)));
}

/// The first line feed at or after `p` is at `e` when there is none between.
pub proof fn lemma_line_end_at(s: Seq<u8>, p: int, e: int)
    requires
        0 <= p <= e <= s.len(),
        forall|i: int| p <= i < e ==> s[i] != 10,
        e == s.len() || s[e] == 10,
    ensures
        line_end(s, p) == e,
    decreases e - p,
{
    if p < e {
        lemma_line_end_at(s, p + 1, e);
    }
}

/// Decimal text is made of digits.
pub proof fn lemma_decimal_digits(n: nat)
    ensures
        decimal(n).len() > 0,
        forall|i: int| 0 <= i < decimal(n).len() ==> is_digit(#[trigger] decimal(n)[i]),
{
    lemma_decimal_reads_back(n);
}


/// The first word of `s` is within it and has no space.
proof fn lemma_word_len_bytes(s: Seq<u8>)
    ensures
        word_len(s) <= s.len(),
        forall|i: int| 0 <= i < word_len(s) ==> space_len(#[trigger] s.skip(i)) == 0,
    decreases s.len(),
{
    if s.len() > 0 && space_len(s) == 0 {
        lemma_word_len_bytes(s.drop_first());
        assert forall|i: int| 0 <= i < word_len(s) implies space_len(#[trigger] s.skip(i)) == 0 by {
            if i > 0 {
                assert(s.skip(i) == s.drop_first().skip(i - 1));
            } else {
                assert(s.skip(0) == s);
            }
        }
    }
}

/// Every word of `s` is nonempty and has no space.
pub proof fn lemma_words_no_space(s: Seq<u8>)
    ensures
        forall|k: int| 0 <= k < words(s).len() ==> (#[trigger] words(s)[k]).len() > 0 && no_space(words(s)[k]),
    decreases s.len(),
{
    if s.len() == 0 {
    } else if space_len(s) > 0 {
        lemma_words_no_space(s.skip(space_len(s) as int));
        assert(words(s) == words(s.skip(space_len(s) as int)));
    } else {
        let n = word_len(s);
        lemma_word_len_bytes(s);
        assert(n > 0) by {
            assert(word_len(s) == 1 + word_len(s.drop_first()));
        }
        if 0 < n <= s.len() {
            lemma_words_no_space(s.skip(n as int));
            let w = s.take(n as int);
            assert forall|k: int| 0 <= k < words(s).len() implies (#[trigger] words(s)[k]).len() > 0 && no_space(
                words(s)[k],
            ) by {
                if k == 0 {
                    assert(words(s)[0] == w);
                    assert forall|i: int| 0 <= i < w.len() implies space_len(#[trigger] w.skip(i)) == 0 by {
                        assert(space_len(s.skip(i)) == 0);
                        assert forall|j: int| 0 <= j < w.skip(i).len() implies #[trigger] w.skip(i)[j] == s.skip(i)[j] by {
                            assert(w.skip(i)[j] == s[i + j]);
                        }
                        lemma_space_len_prefix(w.skip(i), s.skip(i));
                    }
                    assert(no_space(w));
                } else {
                    assert(words(s)[k] == words(s.skip(n as int))[k - 1]);
                }
            }
        }
    }
}

/// No line feed comes before the end of a line.
proof fn lemma_line_end_bytes(s: Seq<u8>, p: int)
    requires
        0 <= p,
    ensures
        p < s.len() ==> p <= line_end(s, p) <= s.len(),
        forall|i: int| p <= i < line_end(s, p) && i < s.len() ==> s[i] != 10,
    decreases s.len() - p,
{
    if p < s.len() && s[p] != 10 {
        lemma_line_end_bytes(s, p + 1);
        if p + 1 >= s.len() {
            assert(line_end(s, p + 1) == s.len());
        }
        assert(line_end(s, p) == line_end(s, p + 1));
    }
}

/// A line holds no line feed, and the next line starts after it.
pub proof fn lemma_line_no_lf(s: Seq<u8>, p: int)
    requires
        0 <= p < s.len(),
    ensures
        forall|i: int| 0 <= i < line_at(s, p).len() ==> #[trigger] line_at(s, p)[i] != 10,
        next_line(s, p) > p,
{
    lemma_line_end_bytes(s, p);
    let e = line_end(s, p);
    let raw = s.subrange(p, e);
    assert forall|i: int| 0 <= i < line_at(s, p).len() implies #[trigger] line_at(s, p)[i] != 10 by {
        assert(line_at(s, p)[i] == raw[i]);
        assert(raw[i] == s[p + i]);
    }
}

/// Reading `k` lines that end before the end of `s` reads `k` lines, none
/// holding a line feed.
pub proof fn lemma_lines_from_lines(s: Seq<u8>, p: int, k: nat)
    requires
        0 <= p,
        after_lines(s, p, k) < s.len(),
    ensures
        lines_from(s, p, k).len() == k,
        forall|j: int, i: int|
            0 <= j < k && 0 <= i < lines_from(s, p, k)[j].len() ==> #[trigger] lines_from(s, p, k)[j][i] != 10,
    decreases k,
{
    if k > 0 {
        assert(p < s.len());
        lemma_line_no_lf(s, p);
        lemma_lines_from_lines(s, next_line(s, p), (k - 1) as nat);
        let rest = lines_from(s, next_line(s, p), (k - 1) as nat);
        assert(lines_from(s, p, k) == seq![line_at(s, p)] + rest);
        assert forall|j: int, i: int|
            0 <= j < k && 0 <= i < lines_from(s, p, k)[j].len() implies #[trigger] lines_from(s, p, k)[j][i] != 10 by {
            if j > 0 {
                assert(lines_from(s, p, k)[j] == rest[j - 1]);
            }
        }
    }
}

} // verus!
