//! Signal values. The library keeps every sample value as the bit pattern of an IEEE-754
//! binary64 number (`u64`); the arithmetic on such values is done by the caller. The
//! library reads two of them itself: the digital levels 0 and 1, and the binary64
//! encoding of the small integers that digital port values are made of.
use vstd::prelude::*;

verus! {

/// Bit pattern of `+0.0`.
pub const ZERO_BITS: u64 = 0;

/// Bit pattern of `-0.0`.
pub const NEG_ZERO_BITS: u64 = 0x8000_0000_0000_0000;

/// Bit pattern of `1.0`.
pub const ONE_BITS: u64 = 0x3FF0_0000_0000_0000;

/// Bit pattern of `1e7` (10 MHz).
pub const TEN_MHZ_BITS: u64 = 0x4163_12D0_0000_0000;

/// `b` encodes zero (either sign).
pub open spec fn bits_is_zero(b: u64) -> bool {
    b == ZERO_BITS || b == NEG_ZERO_BITS
}

/// `b` encodes 1.0.
pub open spec fn bits_is_one(b: u64) -> bool {
    b == ONE_BITS
}

/// `b` encodes a digital level: 0 or 1.
pub open spec fn bits_is_level(b: u64) -> bool {
    bits_is_zero(b) || bits_is_one(b)
}

/// The digital level (0 or 1) that `b` encodes.
pub open spec fn level_of(b: u64) -> nat {
    if bits_is_one(b) {
        1
    } else {
        0
    }
}

pub fn is_level(b: u64) -> (r: bool)
    ensures
        r == bits_is_level(b),
{
    b == ZERO_BITS || b == NEG_ZERO_BITS || b == ONE_BITS
}

pub fn level(b: u64) -> (r: u64)
    ensures
        r == level_of(b),
{
    if b == ONE_BITS {
        1
    } else {
        0
    }
}

/// `2^e`.
pub open spec fn two_pow(e: nat) -> nat
    decreases e,
{
    if e == 0 {
        1
    } else {
        2 * two_pow((e - 1) as nat)
    }
}

/// `floor(log2(n))` for `n >= 1`.
pub open spec fn floor_log2(n: nat) -> nat
    decreases n,
{
    if n <= 1 {
        0
    } else {
        1 + floor_log2(n / 2)
    }
}

/// The IEEE-754 binary64 encoding of the integer `n` (exact for `n < 2^53`): sign 0,
/// biased exponent `1023 + floor(log2 n)`, and the bits of `n` below its leading one,
/// left-aligned in the 52-bit fraction.
pub open spec fn f64_bits_of_nat(n: nat) -> nat {
    if n == 0 {
        0
    } else {
        let e = floor_log2(n);
        ((1023 + e) * two_pow(52) + (n - two_pow(e)) * two_pow((52 - e) as nat)) as nat
    }
}

proof fn lemma_two_pow_52()
    ensures
        two_pow(52) == 0x10_0000_0000_0000,
{
    reveal_with_fuel(two_pow, 53);
}

pub proof fn lemma_two_pow_pos(e: nat)
    ensures
        two_pow(e) >= 1,
    decreases e,
{
    if e > 0 {
        lemma_two_pow_pos((e - 1) as nat);
    }
}

pub proof fn lemma_two_pow_mono(a: nat, b: nat)
    requires
        a <= b,
    ensures
        two_pow(a) <= two_pow(b),
    decreases b,
{
    if a < b {
        lemma_two_pow_mono(a, (b - 1) as nat);
        lemma_two_pow_pos((b - 1) as nat);
    }
}

proof fn lemma_floor_log2(n: nat, e: nat)
    requires
        two_pow(e) <= n < 2 * two_pow(e),
    ensures
        floor_log2(n) == e,
    decreases e,
{
    if e == 0 {
    } else {
        let h = two_pow((e - 1) as nat);
        assert(two_pow(e) == 2 * h);
        assert(h <= n / 2 < 2 * h);
        lemma_floor_log2(n / 2, (e - 1) as nat);
    }
}

/// The binary64 bit pattern of `n` (`n as f64`), for `n < 2^53`.
pub fn f64_bits_from_u64(n: u64) -> (r: u64)
    requires
        n < 0x20_0000_0000_0000,
    ensures
        r == f64_bits_of_nat(n as nat),
{
    if n == 0 {
        return 0;
    }
    // Leading one: p = 2^e <= n < 2p.
    let mut p: u64 = 1;
    let mut e: u64 = 0;
    while p <= n / 2
        invariant
            1 <= p <= n,
            p == two_pow(e as nat),
            e <= 52,
            n < 0x20_0000_0000_0000,
        decreases n - p,
    {
        proof {
            lemma_two_pow_mono((e + 1) as nat, 53);
            reveal_with_fuel(two_pow, 54);
        }
        p = p * 2;
        e = e + 1;
    }
    proof {
        lemma_floor_log2(n as nat, e as nat);
        lemma_two_pow_52();
    }
    // Scale of the fraction: q = 2^(52 - e).
    let mut q: u64 = 1;
    let mut k: u64 = 0;
    proof {
        lemma_two_pow_pos((52 - e) as nat);
        lemma_two_pow_mono((52 - e) as nat, 52);
    }
    while k < 52 - e
        invariant
            k <= 52 - e,
            e <= 52,
            q == two_pow(k as nat),
            q <= two_pow((52 - e) as nat),
            two_pow((52 - e) as nat) <= 0x10_0000_0000_0000,
        decreases 52 - e - k,
    {
        proof {
            lemma_two_pow_mono((k + 1) as nat, (52 - e) as nat);
        }
        q = q * 2;
        k = k + 1;
    }
    proof {
        lemma_two_pow_pos(k as nat);
        assert((n - p) * q < p * q) by (nonlinear_arith)
            requires
                n - p < p,
                q >= 1,
        ;
        assert(p * q == two_pow(52)) by {
            lemma_two_pow_add(e as nat, (52 - e) as nat);
        }
    }
    (1023 + e) * 0x10_0000_0000_0000 + (n - p) * q
}

proof fn lemma_two_pow_add(a: nat, b: nat)
    ensures
        two_pow(a) * two_pow(b) == two_pow(a + b),
    decreases a,
{
    if a == 0 {
        assert(two_pow(0) == 1);
    } else {
        lemma_two_pow_add((a - 1) as nat, b);
        assert(two_pow(a + b) == 2 * two_pow((a - 1 + b) as nat));
        assert(two_pow(a) * two_pow(b) == 2 * (two_pow((a - 1) as nat) * two_pow(b))) by (
        nonlinear_arith)
            requires
                two_pow(a) == 2 * two_pow((a - 1) as nat),
        ;
    }
}

/// `2^e` for a line number `e` below 32.
pub fn line_weight(e: usize) -> (r: u64)
    requires
        e < 32,
    ensures
        r == two_pow(e as nat),
        r <= 0x8000_0000,
{
    let mut p: u64 = 1;
    let mut j: usize = 0;
    proof {
        reveal_with_fuel(two_pow, 32);
    }
    while j < e
        invariant
            j <= e < 32,
            p == two_pow(j as nat),
            two_pow(31) == 0x8000_0000,
        decreases e - j,
    {
        proof {
            lemma_two_pow_mono((j + 1) as nat, 31);
        }
        p = p * 2;
        j = j + 1;
    }
    proof {
        lemma_two_pow_mono(e as nat, 31);
    }
    p
}

} // verus!
