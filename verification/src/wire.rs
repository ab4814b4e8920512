//! Byte-level building blocks of the wire format: big-endian integer
//! fields, UTF-8 validity, and widening of single-precision float bits to
//! double-precision bits.

use vstd::prelude::*;

verus! {

// ---------------------------------------------------------------------------
// Big-endian integer fields
// ---------------------------------------------------------------------------

/// The two bytes of `n` in most-significant-first order.
pub open spec fn be16(n: int) -> Seq<u8> {
    seq![(n / 0x100 % 0x100) as u8, (n % 0x100) as u8]
}

/// The four bytes of `n` in most-significant-first order.
pub open spec fn be32(n: int) -> Seq<u8> {
    seq![
        (n / 0x1000000 % 0x100) as u8,
        (n / 0x10000 % 0x100) as u8,
        (n / 0x100 % 0x100) as u8,
        (n % 0x100) as u8,
    ]
}

/// The eight bytes of `n` in most-significant-first order.
pub open spec fn be64(n: int) -> Seq<u8> {
    seq![
        (n / 0x100000000000000 % 0x100) as u8,
        (n / 0x1000000000000 % 0x100) as u8,
        (n / 0x10000000000 % 0x100) as u8,
        (n / 0x100000000 % 0x100) as u8,
        (n / 0x1000000 % 0x100) as u8,
        (n / 0x10000 % 0x100) as u8,
        (n / 0x100 % 0x100) as u8,
        (n % 0x100) as u8,
    ]
}

/// The unsigned value read from two big-endian bytes.
pub open spec fn rd16(b0: u8, b1: u8) -> int {
    b0 * 0x100 + b1
}

/// The unsigned value read from four big-endian bytes.
pub open spec fn rd32(b0: u8, b1: u8, b2: u8, b3: u8) -> int {
    ((b0 * 0x100 + b1) * 0x100 + b2) * 0x100 + b3
}

/// The unsigned value read from eight big-endian bytes.
pub open spec fn rd64(b0: u8, b1: u8, b2: u8, b3: u8, b4: u8, b5: u8, b6: u8, b7: u8) -> int {
    ((((((b0 * 0x100 + b1) * 0x100 + b2) * 0x100 + b3) * 0x100 + b4) * 0x100 + b5) * 0x100 + b6)
        * 0x100 + b7
}

/// The two's-complement reading of an unsigned value `raw` of width
/// `2 * half`: values of `half` and above stand for negatives.
pub open spec fn signed_of(raw: int, half: int) -> int {
    if raw >= half {
        raw - 2 * half
    } else {
        raw
    }
}

/// The two's-complement representation of `i` in a width whose sign bit
/// stands at `half` (so the width holds `2 * half` values).
pub open spec fn unsigned_of(i: int, half: int) -> int {
    if i < 0 {
        i + 2 * half
    } else {
        i
    }
}

pub proof fn lemma_rd16_be16(n: int)
    requires
        0 <= n < 0x10000,
    ensures
        rd16(be16(n)[0], be16(n)[1]) == n,
{
}

pub proof fn lemma_rd32_be32(n: int)
    requires
        0 <= n < 0x100000000,
    ensures
        rd32(be32(n)[0], be32(n)[1], be32(n)[2], be32(n)[3]) == n,
{
}

#[verifier::rlimit(100)]
pub proof fn lemma_rd64_be64(n: int)
    requires
        0 <= n < 0x10000000000000000,
    ensures
        rd64(
            be64(n)[0],
            be64(n)[1],
            be64(n)[2],
            be64(n)[3],
            be64(n)[4],
            be64(n)[5],
            be64(n)[6],
            be64(n)[7],
        ) == n,
{
}

/// Appends the two big-endian bytes of `n`.
pub fn push_be16(w: &mut Vec<u8>, n: u16)
    ensures
        final(w)@ == old(w)@ + be16(n as int),
{
    let b0: u8 = (n / 0x100) as u8;
    let b1: u8 = (n % 0x100) as u8;
    w.push(b0);
    w.push(b1);
    proof {
        assert(w@ =~= old(w)@ + be16(n as int));
    }
}

/// Appends the four big-endian bytes of `n`.
pub fn push_be32(w: &mut Vec<u8>, n: u32)
    ensures
        final(w)@ == old(w)@ + be32(n as int),
{
    let b0: u8 = (n / 0x1000000) as u8;
    let b1: u8 = (n / 0x10000 % 0x100) as u8;
    let b2: u8 = (n / 0x100 % 0x100) as u8;
    let b3: u8 = (n % 0x100) as u8;
    w.push(b0);
    w.push(b1);
    w.push(b2);
    w.push(b3);
    proof {
        assert(w@ =~= old(w)@ + be32(n as int));
    }
}

/// Appends the eight big-endian bytes of `n`.
pub fn push_be64(w: &mut Vec<u8>, n: u64)
    ensures
        final(w)@ == old(w)@ + be64(n as int),
{
    let b0: u8 = (n / 0x100000000000000) as u8;
    let b1: u8 = (n / 0x1000000000000 % 0x100) as u8;
    let b2: u8 = (n / 0x10000000000 % 0x100) as u8;
    let b3: u8 = (n / 0x100000000 % 0x100) as u8;
    let b4: u8 = (n / 0x1000000 % 0x100) as u8;
    let b5: u8 = (n / 0x10000 % 0x100) as u8;
    let b6: u8 = (n / 0x100 % 0x100) as u8;
    let b7: u8 = (n % 0x100) as u8;
    w.push(b0);
    w.push(b1);
    w.push(b2);
    w.push(b3);
    w.push(b4);
    w.push(b5);
    w.push(b6);
    w.push(b7);
    proof {
        assert(w@ =~= old(w)@ + be64(n as int));
    }
}

// ---------------------------------------------------------------------------
// UTF-8 validity
// ---------------------------------------------------------------------------

/// Whether `b` is a UTF-8 continuation byte.
pub open spec fn is_cont(b: u8) -> bool {
    0x80 <= b <= 0xBF
}

/// The number of bytes of the well-formed UTF-8 sequence that starts at the
/// head of `s`, or 0 if the head of `s` is not a well-formed sequence.
/// Overlong forms, surrogate code points and code points above 0x10FFFF are
/// excluded, byte for byte as the UTF-8 standard draws its table.
pub open spec fn utf8_step(s: Seq<u8>) -> int {
    if s.len() == 0 {
        0
    } else {
        let b = s[0];
        if b <= 0x7F {
            1
        } else if 0xC2 <= b <= 0xDF {
            if s.len() >= 2 && is_cont(s[1]) {
                2
            } else {
                0
            }
        } else if b == 0xE0 {
            if s.len() >= 3 && 0xA0 <= s[1] <= 0xBF && is_cont(s[2]) {
                3
            } else {
                0
            }
        } else if 0xE1 <= b <= 0xEC || 0xEE <= b <= 0xEF {
            if s.len() >= 3 && is_cont(s[1]) && is_cont(s[2]) {
                3
            } else {
                0
            }
        } else if b == 0xED {
            if s.len() >= 3 && 0x80 <= s[1] <= 0x9F && is_cont(s[2]) {
                3
            } else {
                0
            }
        } else if b == 0xF0 {
            if s.len() >= 4 && 0x90 <= s[1] <= 0xBF && is_cont(s[2]) && is_cont(s[3]) {
                4
            } else {
                0
            }
        } else if 0xF1 <= b <= 0xF3 {
            if s.len() >= 4 && is_cont(s[1]) && is_cont(s[2]) && is_cont(s[3]) {
                4
            } else {
                0
            }
        } else if b == 0xF4 {
            if s.len() >= 4 && 0x80 <= s[1] <= 0x8F && is_cont(s[2]) && is_cont(s[3]) {
                4
            } else {
                0
            }
        } else {
            0
        }
    }
}

/// Whether `s` is well-formed UTF-8 text.
pub open spec fn is_utf8(s: Seq<u8>) -> bool
    decreases s.len(),
{
    if s.len() == 0 {
        true
    } else {
        let step = utf8_step(s);
        step > 0 && is_utf8(s.skip(step))
    }
}

/// A suffix of a suffix is the longer suffix taken at the summed start.
pub proof fn lemma_skip_skip<T>(s: Seq<T>, a: int, b: int)
    requires
        0 <= a,
        0 <= b,
        a + b <= s.len(),
    ensures
        s.skip(a).skip(b) == s.skip(a + b),
{
    assert(s.skip(a).skip(b) =~= s.skip(a + b));
}

/// Reports whether `v` holds well-formed UTF-8 text.
pub fn check_utf8(v: &Vec<u8>) -> (r: bool)
    ensures
        r == is_utf8(v@),
{
    let n = v.len();
    let mut i: usize = 0;
    proof {
        assert(v@.skip(0) =~= v@);
    }
    while i < n
        invariant
            0 <= i <= n,
            n == v@.len(),
            is_utf8(v@) == is_utf8(v@.skip(i as int)),
        decreases n - i,
    {
        let b = v[i];
        let ghost rest = v@.skip(i as int);
        let step: usize = if b <= 0x7F {
            1
        } else if 0xC2 <= b && b <= 0xDF {
            if n - i >= 2 && is_cont_byte(v[i + 1]) {
                2
            } else {
                return false;
            }
        } else if b == 0xE0 {
            if n - i >= 3 && 0xA0 <= v[i + 1] && v[i + 1] <= 0xBF && is_cont_byte(v[i + 2]) {
                3
            } else {
                return false;
            }
        } else if (0xE1 <= b && b <= 0xEC) || (0xEE <= b && b <= 0xEF) {
            if n - i >= 3 && is_cont_byte(v[i + 1]) && is_cont_byte(v[i + 2]) {
                3
            } else {
                return false;
            }
        } else if b == 0xED {
            if n - i >= 3 && 0x80 <= v[i + 1] && v[i + 1] <= 0x9F && is_cont_byte(v[i + 2]) {
                3
            } else {
                return false;
            }
        } else if b == 0xF0 {
            if n - i >= 4 && 0x90 <= v[i + 1] && v[i + 1] <= 0xBF && is_cont_byte(v[i + 2])
                && is_cont_byte(v[i + 3]) {
                4
            } else {
                return false;
            }
        } else if 0xF1 <= b && b <= 0xF3 {
            if n - i >= 4 && is_cont_byte(v[i + 1]) && is_cont_byte(v[i + 2]) && is_cont_byte(
                v[i + 3],
            ) {
                4
            } else {
                return false;
            }
        } else if b == 0xF4 {
            if n - i >= 4 && 0x80 <= v[i + 1] && v[i + 1] <= 0x8F && is_cont_byte(v[i + 2])
                && is_cont_byte(v[i + 3]) {
                4
            } else {
                return false;
            }
        } else {
            return false;
        };
        proof {
            assert(utf8_step(rest) == step);
            lemma_skip_skip(v@, i as int, step as int);
        }
        i = i + step;
    }
    true
}

/// Reports whether `b` is a UTF-8 continuation byte.
fn is_cont_byte(b: u8) -> (r: bool)
    ensures
        r == is_cont(b),
{
    0x80 <= b && b <= 0xBF
}

// ---------------------------------------------------------------------------
// Widening single-precision float bits to double-precision bits
// ---------------------------------------------------------------------------

/// Two to the power `k`.
pub open spec fn pow2(k: nat) -> nat
    decreases k,
{
    if k == 0 {
        1
    } else {
        2 * pow2((k - 1) as nat)
    }
}

/// The position of the highest set bit of `n`, for `n >= 1`.
pub open spec fn log2(n: nat) -> nat
    decreases n,
{
    if n < 2 {
        0
    } else {
        1 + log2(n / 2)
    }
}

/// `pow2` is positive.
pub proof fn lemma_pow2_pos(i: nat)
    ensures
        pow2(i) >= 1,
    decreases i,
{
    if i > 0 {
        lemma_pow2_pos((i - 1) as nat);
    }
}

/// `pow2` never falls.
pub proof fn lemma_pow2_le(i: nat, j: nat)
    requires
        i <= j,
    ensures
        pow2(i) <= pow2(j),
        pow2(i) >= 1,
    decreases j,
{
    lemma_pow2_pos(i);
    if i < j {
        lemma_pow2_le(i, (j - 1) as nat);
    }
}

/// `pow2` turns sums into products.
pub proof fn lemma_pow2_add(i: nat, j: nat)
    ensures
        pow2(i + j) == pow2(i) * pow2(j),
    decreases i,
{
    reveal_with_fuel(pow2, 3);
    if i > 0 {
        lemma_pow2_add((i - 1) as nat, j);
        assert(pow2(i + j) == 2 * pow2(((i - 1) as nat) + j));
        assert(pow2(i) == 2 * pow2((i - 1) as nat));
        assert((2 * pow2((i - 1) as nat)) * pow2(j) == 2 * (pow2((i - 1) as nat) * pow2(j)))
            by (nonlinear_arith);
        assert(pow2(i + j) == 2 * (pow2((i - 1) as nat) * pow2(j)));
        assert(pow2(i) * pow2(j) == (2 * pow2((i - 1) as nat)) * pow2(j)) by (nonlinear_arith)
            requires
                pow2(i) == 2 * pow2((i - 1) as nat),
        ;
        assert(pow2(i + j) == pow2(i) * pow2(j));
    } else {
        assert(pow2(i) == 1);
        assert(pow2(i + j) == pow2(j));
    }
}

/// The highest set bit brackets the value: `2^log2(n) <= n < 2^(log2(n)+1)`.
pub proof fn lemma_log2_bounds(n: nat)
    requires
        n >= 1,
    ensures
        pow2(log2(n)) <= n,
        n < pow2(log2(n) + 1),
    decreases n,
{
    reveal_with_fuel(pow2, 3);
    reveal_with_fuel(log2, 3);
    if n >= 2 {
        lemma_log2_bounds(n / 2);
        assert(log2(n) == 1 + log2(n / 2));
        assert(pow2(log2(n)) == 2 * pow2(log2(n / 2)));
        assert(pow2(log2(n) + 1) == 2 * pow2(log2(n)));
        assert(pow2(log2(n)) == pow2(log2(n / 2) + 1));
        assert(n / 2 + 1 <= pow2(log2(n)));
        assert(2 * (n / 2) <= n < 2 * (n / 2) + 2);
        assert(n < 2 * pow2(log2(n)));
    }
}

/// The double-precision bit pattern that carries the same number as the
/// single-precision bit pattern `b`: the sign is kept, the exponent is
/// re-based from excess-127 to excess-1023, the significand gains 29 low
/// zero bits, a subnormal is normalized, and an infinity or NaN keeps its
/// class and payload.
pub open spec fn widen_f32_bits(b: u32) -> u64 {
    let s = b as int / 0x80000000;
    let e = (b as int / 0x800000) % 0x100;
    let m = b as int % 0x800000;
    if e == 0xFF {
        (s * 0x8000000000000000 + 0x7FF0000000000000 + m * 0x20000000) as u64
    } else if e == 0 && m == 0 {
        (s * 0x8000000000000000) as u64
    } else if e == 0 {
        let k = log2(m as nat) as int;
        (s * 0x8000000000000000 + (k + 874) * 0x10000000000000 + (m * pow2((52 - k) as nat)
            - 0x10000000000000)) as u64
    } else {
        (s * 0x8000000000000000 + (e + 896) * 0x10000000000000 + m * 0x20000000) as u64
    }
}

/// The powers of two that the widening needs, spelled out.
proof fn lemma_pow2_values()
    ensures
        pow2(23) == 0x800000,
        pow2(52) == 0x10000000000000,
        pow2(63) == 0x8000000000000000,
{
    reveal_with_fuel(pow2, 64);
}

/// Two to the power `k`, executably.
fn pow2_u64(k: u64) -> (r: u64)
    requires
        k <= 63,
    ensures
        r as nat == pow2(k as nat),
{
    let mut r: u64 = 1;
    let mut i: u64 = 0;
    while i < k
        invariant
            0 <= i <= k <= 63,
            r as nat == pow2(i as nat),
        decreases k - i,
    {
        proof {
            lemma_pow2_le((i + 1) as nat, 63);
            lemma_pow2_values();
        }
        r = r * 2;
        i = i + 1;
    }
    r
}

/// Widens the single-precision bit pattern `b` to the double-precision bit
/// pattern that carries the same number.
pub fn widen_f32(b: u32) -> (r: u64)
    ensures
        r == widen_f32_bits(b),
{
    let s: u64 = (b / 0x80000000) as u64;
    let e: u64 = ((b / 0x800000) % 0x100) as u64;
    let m: u64 = (b % 0x800000) as u64;
    if e == 0xFF {
        s * 0x8000000000000000 + 0x7FF0000000000000 + m * 0x20000000
    } else if e == 0 && m == 0 {
        s * 0x8000000000000000
    } else if e == 0 {
        proof {
            lemma_log2_bounds(m as nat);
            lemma_pow2_values();
            if log2(m as nat) >= 23 {
                lemma_pow2_le(23, log2(m as nat));
                assert(false);
            }
        }
        let mut k: u64 = 0;
        let mut t: u64 = m;
        while t >= 2
            invariant
                1 <= t <= m,
                log2(m as nat) == k as nat + log2(t as nat),
                log2(m as nat) <= 22,
                k <= 22,
            decreases t,
        {
            t = t / 2;
            k = k + 1;
        }
        proof {
            assert(k as nat == log2(m as nat));
            lemma_log2_bounds(m as nat);
            lemma_pow2_values();
            lemma_pow2_add(k as nat, (52 - k) as nat);
            lemma_pow2_le((52 - k) as nat, 52);
            assert((m as nat) * pow2((52 - k) as nat) >= pow2(k as nat) * pow2(
                (52 - k) as nat,
            )) by (nonlinear_arith)
                requires
                    (m as nat) >= pow2(k as nat),
            ;
            assert((m as nat) * pow2((52 - k) as nat) < (2 * pow2(k as nat)) * pow2(
                (52 - k) as nat,
            )) by (nonlinear_arith)
                requires
                    (m as nat) < 2 * pow2(k as nat),
                    pow2((52 - k) as nat) >= 1,
            ;
            assert((2 * pow2(k as nat)) * pow2((52 - k) as nat) == 2 * (pow2(k as nat) * pow2(
                (52 - k) as nat,
            ))) by (nonlinear_arith);
            assert((2 * pow2(k as nat)) * pow2((52 - k) as nat) == 2 * pow2(52));
        }
        let p: u64 = pow2_u64(52 - k);
        s * 0x8000000000000000 + (k + 874) * 0x10000000000000 + (m * p - 0x10000000000000)
    } else {
        s * 0x8000000000000000 + (e + 896) * 0x10000000000000 + m * 0x20000000
    }
}

} // verus!
