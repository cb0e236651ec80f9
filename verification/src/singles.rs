//! Single-precision numbers, worked out on whole numbers.
//!
//! Sizes and fractions are kept as the bits of single-precision numbers. The
//! bits of a quotient are worked out on whole numbers: scale until the quotient
//! lies between one and two, take 23 binary places and round. Sums and quotients
//! of two sizes are rounded in the same way.
use crate::dto::TilingSize;
use vstd::arithmetic::power2::pow2;
use vstd::prelude::*;

verus! {

// ---------------------------------------------------------------------------
// Quotients
// ---------------------------------------------------------------------------

/// `part`, doubled until it reaches `total`.
pub open spec fn raised(part: nat, total: nat) -> nat
    decreases 2 * total - part,
{
    if part == 0 || part >= total {
        part
    } else {
        raised(2 * part, total)
    }
}

/// How often `part` is doubled until it reaches `total`.
pub open spec fn doublings(part: nat, total: nat) -> nat
    decreases 2 * total - part,
{
    if part == 0 || part >= total {
        0
    } else {
        1 + doublings(2 * part, total)
    }
}

/// `total`, doubled as long as it stays within `part`.
pub open spec fn grown(total: nat, part: nat) -> nat
    decreases part - total,
{
    if total == 0 || 2 * total > part {
        total
    } else {
        grown(2 * total, part)
    }
}

/// How often `total` is doubled as long as it stays within `part`.
pub open spec fn growths(total: nat, part: nat) -> nat
    decreases part - total,
{
    if total == 0 || 2 * total > part {
        0
    } else {
        1 + growths(2 * total, part)
    }
}

/// The quotient rounded to a whole number; of two equally close ones the even.
pub open spec fn rounded_quotient(a: nat, b: nat) -> nat {
    let q = a / b;
    let r = a % b;
    if 2 * r > b || (2 * r == b && q % 2 == 1) {
        q + 1
    } else {
        q
    }
}

/// The leading 24 binary digits of `part / total`, rounded.
pub open spec fn leading_digits(part: nat, total: nat) -> nat {
    rounded_quotient(raised(part, total) * 0x80_0000, grown(total, part))
}

/// The bits of the single-precision number closest to `part / total`.
pub open spec fn closest_bits(part: nat, total: nat) -> nat {
    if part == 0 || total == 0 {
        0
    } else {
        ((126 + growths(total, part) - doublings(part, total)) * 0x80_0000 + leading_digits(
            part,
            total,
        )) as nat
    }
}

/// The size closest to `part / total`.
pub open spec fn closest(part: nat, total: nat) -> TilingSize {
    TilingSize { bits: closest_bits(part, total) as u32 }
}

/// Numbers are scaled below this bound.
pub const LIMIT: u128 = 0x100_0000_0000_0000_0000_0000_0000_0000;

proof fn lemma_limit()
    ensures
        LIMIT == pow2(120),
{
    vstd::arithmetic::power2::lemma2_to64();
    vstd::arithmetic::power2::lemma2_to64_rest();
    vstd::arithmetic::power2::lemma_pow2_adds(60, 60);
}

/// Scaling by doubling is scaling by a power of two, and the scaled quotient
/// lies between one and two.
pub proof fn lemma_raised(part: nat, total: nat)
    requires
        0 < part,
    ensures
        raised(part, total) == part * pow2(doublings(part, total)),
        part < total ==> total <= raised(part, total) < 2 * total,
        part >= total ==> raised(part, total) == part && doublings(part, total) == 0,
    decreases 2 * total - part,
{
    vstd::arithmetic::power2::lemma2_to64();
    if part < total {
        lemma_raised(2 * part, total);
        let n = doublings(2 * part, total);
        vstd::arithmetic::power2::lemma_pow2_unfold(n + 1);
        assert((2 * part) * pow2(n) == part * (2 * pow2(n))) by (nonlinear_arith);
    } else {
        assert(part * 1 == part);
    }
}

pub proof fn lemma_grown(total: nat, part: nat)
    requires
        0 < total,
    ensures
        grown(total, part) == total * pow2(growths(total, part)),
        grown(total, part) >= total,
        total <= part ==> grown(total, part) <= part < 2 * grown(total, part),
        part < total ==> grown(total, part) == total && growths(total, part) == 0,
    decreases part - total,
{
    vstd::arithmetic::power2::lemma2_to64();
    if 2 * total <= part {
        lemma_grown(2 * total, part);
        let n = growths(2 * total, part);
        vstd::arithmetic::power2::lemma_pow2_unfold(n + 1);
        assert((2 * total) * pow2(n) == total * (2 * pow2(n))) by (nonlinear_arith);
    } else {
        assert(total * 1 == total);
    }
}

/// A number below the limit is reached by few doublings.
proof fn lemma_few(start: nat, n: nat)
    requires
        0 < start,
        start * pow2(n) < 2 * LIMIT,
    ensures
        n <= 120,
{
    lemma_limit();
    if n > 120 {
        vstd::arithmetic::power2::lemma_pow2_unfold(121);
        if n > 121 {
            vstd::arithmetic::power2::lemma_pow2_strictly_increases(121, n);
        }
        assert(start * pow2(n) >= pow2(n)) by (nonlinear_arith)
            requires
                start >= 1,
        ;
    }
}

pub proof fn lemma_digits(part: nat, total: nat)
    requires
        0 < part,
        0 < total,
    ensures
        0x80_0000 <= leading_digits(part, total) <= 0x100_0000,
{
    lemma_raised(part, total);
    lemma_grown(total, part);
    let a = raised(part, total);
    let b = grown(total, part);
    let s = a * 0x80_0000;
    assert(b <= a < 2 * b);
    vstd::arithmetic::div_mod::lemma_fundamental_div_mod(s as int, b as int);
    let q = (s / b) as int;
    let r = (s % b) as int;
    assert(0x80_0000 <= q < 0x100_0000) by (nonlinear_arith)
        requires
            s == b * q + r,
            0 <= r < b,
            b * 0x80_0000 <= s < b * 0x100_0000,
    ;
}

/// Works out the bits of `part / total`.
pub fn closest_single(part: u128, total: u128) -> (r: TilingSize)
    requires
        0 < total < LIMIT,
        part < LIMIT,
    ensures
        r == closest(part as nat, total as nat),
        r.bits == closest_bits(part as nat, total as nat),
        r.bits < 0x7f80_0000,
{
    if part == 0 {
        return TilingSize { bits: 0 };
    }
    let ghost p = part as nat;
    let ghost t = total as nat;
    let mut a: u128 = part;
    let mut k: u32 = 0;
    proof {
        lemma_raised(p, t);
        lemma_grown(t, p);
        lemma_few(p, doublings(p, t));
        lemma_few(t, growths(t, p));
        lemma_digits(p, t);
    }
    while a < total
        invariant
            0 < a,
            p == part,
            t == total,
            total < LIMIT,
            a < 2 * LIMIT,
            doublings(p, t) <= 120,
            raised(p, t) == raised(a as nat, t),
            doublings(p, t) == k + doublings(a as nat, t),
        decreases 2 * total - a,
    {
        a = 2 * a;
        k = k + 1;
    }
    let mut b: u128 = total;
    let mut j: u32 = 0;
    while 2 * b <= part
        invariant
            0 < b,
            p == part,
            t == total,
            part < LIMIT,
            b < LIMIT,
            growths(t, p) <= 120,
            grown(t, p) == grown(b as nat, p),
            growths(t, p) == j + growths(b as nat, p),
        decreases part - b,
    {
        b = 2 * b;
        j = j + 1;
    }
    assert(b <= a < 2 * b);
    let mut q: u32 = 1;
    let mut r: u128 = a - b;
    let mut i: u32 = 0;
    let ghost mut s: nat = a as nat;
    proof {
        vstd::arithmetic::power2::lemma2_to64();
        assert(s == 1 * b + r);
    }
    while i < 23
        invariant
            i <= 23,
            0 < b < LIMIT,
            r < b,
            s == q * b + r,
            s == a * pow2(i as nat),
            pow2(i as nat) <= q < 2 * pow2(i as nat),
        decreases 23 - i,
    {
        proof {
            vstd::arithmetic::power2::lemma2_to64();
            vstd::arithmetic::power2::lemma_pow2_strictly_increases(i as nat, 23);
            vstd::arithmetic::power2::lemma_pow2_unfold((i + 1) as nat);
            let w = pow2(i as nat);
            assert(2 * (a * w) == a * (2 * w)) by (nonlinear_arith);
            assert((2 * q) * b + 2 * r == 2 * (q * b + r)) by (nonlinear_arith);
            assert((2 * q + 1) * b + (2 * r - b) == 2 * (q * b + r)) by (nonlinear_arith);
            s = 2 * s;
        }
        r = 2 * r;
        q = 2 * q;
        if r >= b {
            r = r - b;
            q = q + 1;
        }
        i = i + 1;
    }
    proof {
        vstd::arithmetic::power2::lemma2_to64();
        vstd::arithmetic::div_mod::lemma_fundamental_div_mod_converse(
            s as int,
            b as int,
            q as int,
            r as int,
        );
    }
    let m: u32 = if 2 * r > b || (2 * r == b && q % 2 == 1) {
        q + 1
    } else {
        q
    };
    assert(m == leading_digits(p, t));
    TilingSize { bits: (126 + j - k) * 0x80_0000 + m }
}

/// The size closest to `part / total` differs from it by at most half a unit in
/// its last place: with the quotient scaled to lie between one and two, its
/// leading digits are off by at most one half.
pub proof fn law_closest_is_close(part: nat, total: nat)
    requires
        0 < part,
        0 < total,
    ensures
        ({
            let a = part * pow2(doublings(part, total));
            let b = total * pow2(growths(total, part));
            &&& b <= a < 2 * b
            &&& -b <= 2 * (leading_digits(part, total) * b - a * 0x80_0000) <= b
        }),
{
    lemma_raised(part, total);
    lemma_grown(total, part);
    let b = grown(total, part);
    let s = raised(part, total) * 0x80_0000;
    let q = s / b;
    vstd::arithmetic::div_mod::lemma_fundamental_div_mod(s as int, b as int);
    assert(b * q == q * b) by (nonlinear_arith);
    assert((q + 1) * b == q * b + b) by (nonlinear_arith);
}

// ---------------------------------------------------------------------------
// Values
// ---------------------------------------------------------------------------

/// The bits of an infinite size. Those of finite sizes that are not negative are
/// smaller.
pub const INFINITE: u32 = 0x7f80_0000;

/// The bits of what is no number.
pub const NO_NUMBER: u32 = 0x7fc0_0000;

/// The digits of a size that is not negative, as a whole number.
pub open spec fn significand(size: TilingSize) -> nat {
    if size.bits < 0x80_0000 {
        size.bits as nat
    } else {
        (0x80_0000 + size.bits % 0x80_0000) as nat
    }
}

/// The scale of a size: it is worth its digits times two to the power of the
/// scale, less 150.
pub open spec fn scale(size: TilingSize) -> nat {
    if size.bits < 0x80_0000 {
        1
    } else {
        (size.bits / 0x80_0000) as nat
    }
}

/// What a finite size that is not negative is worth, in units of two to the power
/// of -149.
pub open spec fn value(size: TilingSize) -> nat {
    significand(size) * pow2((scale(size) - 1) as nat)
}

/// The bits of the single-precision number closest to `p / q`, however small or
/// large: a quotient too small for 24 digits has fewer, and one too large is
/// infinite.
pub open spec fn single_bits(p: nat, q: nat) -> nat {
    if p == 0 || q == 0 {
        0
    } else if doublings(p, q) > 126 {
        rounded_quotient(p * pow2(149), q)
    } else if closest_bits(p, q) > INFINITE {
        INFINITE as nat
    } else {
        closest_bits(p, q)
    }
}

pub open spec fn single(p: nat, q: nat) -> TilingSize {
    TilingSize { bits: single_bits(p, q) as u32 }
}

/// The sum of two sizes that are not negative, rounded.
pub open spec fn added(a: TilingSize, b: TilingSize) -> TilingSize {
    if a.bits == INFINITE || b.bits == INFINITE {
        TilingSize { bits: INFINITE }
    } else {
        single(value(a) + value(b), pow2(149))
    }
}

/// The quotient of two sizes that are not negative, rounded.
pub open spec fn divided(a: TilingSize, b: TilingSize) -> TilingSize {
    if a.bits == INFINITE {
        TilingSize {
            bits: if b.bits == INFINITE {
                NO_NUMBER
            } else {
                INFINITE
            },
        }
    } else if b.bits == INFINITE {
        TilingSize { bits: 0 }
    } else {
        single(value(a), value(b))
    }
}

// ---------------------------------------------------------------------------
// Rounding
// ---------------------------------------------------------------------------

/// The rounded quotient depends on the quotient alone.
proof fn lemma_rounded_scale(a: nat, b: nat, c: nat)
    requires
        0 < b,
        0 < c,
    ensures
        rounded_quotient(a * c, b * c) == rounded_quotient(a, b),
{
    let q = a / b;
    let r = a % b;
    vstd::arithmetic::div_mod::lemma_fundamental_div_mod(a as int, b as int);
    assert(a * c == q * (b * c) + r * c) by (nonlinear_arith)
        requires
            a == b * q + r,
    ;
    assert(r * c < b * c) by (nonlinear_arith)
        requires
            r < b,
            0 < c,
    ;
    assert(0 < b * c) by (nonlinear_arith)
        requires
            0 < b,
            0 < c,
    ;
    vstd::arithmetic::div_mod::lemma_fundamental_div_mod_converse(
        (a * c) as int,
        (b * c) as int,
        q as int,
        (r * c) as int,
    );
    assert((2 * r - b) * c == 2 * (r * c) - b * c) by (nonlinear_arith);
    assert((2 * r > b) == ((2 * r - b) * c > 0)) by (nonlinear_arith)
        requires
            0 < c,
    ;
    assert((2 * r == b) == ((2 * r - b) * c == 0)) by (nonlinear_arith)
        requires
            0 < c,
    ;
}

/// Powers of two compare as their exponents do.
proof fn lemma_powers_below(m: nat, n: nat)
    requires
        pow2(m) < 2 * pow2(n),
    ensures
        m <= n,
{
    vstd::arithmetic::power2::lemma_pow2_unfold(n + 1);
    if m > n + 1 {
        vstd::arithmetic::power2::lemma_pow2_strictly_increases(n + 1, m);
    }
}

/// `x` times two to the power of `m`, and then of `n`.
proof fn lemma_powers_join(x: nat, m: nat, n: nat)
    ensures
        (x * pow2(m)) * pow2(n) == x * pow2(m + n),
{
    vstd::arithmetic::power2::lemma_pow2_adds(m, n);
    let a = pow2(m);
    let b = pow2(n);
    assert((x * a) * b == x * (a * b)) by (nonlinear_arith);
}

/// However a quotient is scaled to lie between one and two, its digits are the
/// same.
proof fn lemma_closest_is(p: nat, q: nat, u: nat, v: nat)
    requires
        0 < p,
        0 < q,
        q * pow2(v) <= p * pow2(u) < 2 * (q * pow2(v)),
    ensures
        growths(q, p) - doublings(p, q) == v - u,
        doublings(p, q) <= u,
        leading_digits(p, q) == rounded_quotient(p * pow2(u) * 0x80_0000, q * pow2(v)),
{
    lemma_raised(p, q);
    lemma_grown(q, p);
    let d = doublings(p, q);
    let g = growths(q, p);
    let a = p * pow2(d);
    let b = q * pow2(g);
    let a2 = p * pow2(u);
    let b2 = q * pow2(v);
    assert(b <= a < 2 * b);
    lemma_powers_join(p, d, u);
    lemma_powers_join(p, u, d);
    lemma_powers_join(q, g, u);
    lemma_powers_join(q, v, d);
    vstd::arithmetic::power2::lemma_pow2_pos(u);
    vstd::arithmetic::power2::lemma_pow2_pos(d);
    let x = pow2(u);
    let y = pow2(d);
    assert(b * x <= a * x < 2 * (b * x)) by (nonlinear_arith)
        requires
            b <= a < 2 * b,
            0 < x,
    ;
    assert(b2 * y <= a2 * y < 2 * (b2 * y)) by (nonlinear_arith)
        requires
            b2 <= a2 < 2 * b2,
            0 < y,
    ;
    let m = pow2(g + u);
    let n = pow2(v + d);
    assert(m < 2 * n) by (nonlinear_arith)
        requires
            q * m < 2 * (q * n),
            0 < q,
    ;
    assert(n < 2 * m) by (nonlinear_arith)
        requires
            q * n < 2 * (q * m),
            0 < q,
    ;
    lemma_powers_below(g + u, v + d);
    lemma_powers_below(v + d, g + u);
    assert(0 < b && 0 < b2) by (nonlinear_arith)
        requires
            b <= a < 2 * b,
            b2 <= a2 < 2 * b2,
    ;
    lemma_rounded_scale(a * 0x80_0000, b, x);
    lemma_rounded_scale(a2 * 0x80_0000, b2, y);
    assert((a * 0x80_0000) * x == (a * x) * 0x80_0000) by (nonlinear_arith);
    assert((a2 * 0x80_0000) * y == (a2 * y) * 0x80_0000) by (nonlinear_arith);
}

/// What stays below is reached by more doublings.
proof fn lemma_many_doublings(p: nat, q: nat, n: nat)
    requires
        0 < p,
        p * pow2(n) < q,
    ensures
        doublings(p, q) > n,
{
    lemma_raised(p, q);
    vstd::arithmetic::power2::lemma_pow2_pos(n);
    let w = pow2(n);
    assert(p <= p * w) by (nonlinear_arith)
        requires
            0 < w,
    ;
    let d = doublings(p, q);
    if d <= n {
        if d < n {
            vstd::arithmetic::power2::lemma_pow2_strictly_increases(d, n);
        }
        let z = pow2(d);
        assert(p * z <= p * w) by (nonlinear_arith)
            requires
                z <= w,
        ;
    }
}

/// The digits and the scale of a whole number of units.
proof fn lemma_single_of_scaled(x: nat, s: nat, k: nat)
    requires
        0x80_0000 * pow2(k) <= x < 0x100_0000 * pow2(k),
    ensures
        doublings(x * pow2(s), pow2(149)) <= 126,
        closest_bits(x * pow2(s), pow2(149)) == (s + k) * 0x80_0000 + rounded_quotient(x, pow2(k)),
        0 < x * pow2(s),
{
    vstd::arithmetic::power2::lemma2_to64();
    vstd::arithmetic::power2::lemma_pow2_pos(k);
    vstd::arithmetic::power2::lemma_pow2_pos(s);
    vstd::arithmetic::power2::lemma_pow2_pos(149);
    let p = x * pow2(s);
    let q = pow2(149);
    let c = pow2(s);
    assert(0 < p) by (nonlinear_arith)
        requires
            p == x * c,
            0 < x,
            0 < c,
    ;
    let t = s + k;
    let u: nat = if t <= 126 {
        (126 - t) as nat
    } else {
        0
    };
    let v: nat = if t <= 126 {
        0
    } else {
        (t - 126) as nat
    };
    // The common factor of the scaled numbers.
    let f = pow2(s + u);
    vstd::arithmetic::power2::lemma_pow2_pos(s + u);
    lemma_powers_join(x, s, u);
    vstd::arithmetic::power2::lemma_pow2_adds(149, v);
    vstd::arithmetic::power2::lemma_pow2_adds(k, s + u);
    vstd::arithmetic::power2::lemma_pow2_adds(23, k + (s + u));
    assert(149 + v == 23 + (k + (s + u)));
    let w = pow2(k);
    assert(q * pow2(v) == 0x80_0000 * (w * f));
    assert(0x80_0000 * (w * f) <= x * f < 2 * (0x80_0000 * (w * f))) by (nonlinear_arith)
        requires
            0x80_0000 * w <= x < 0x100_0000 * w,
            0 < f,
    ;
    lemma_closest_is(p, q, u, v);
    assert(x * f * 0x80_0000 == x * (f * 0x80_0000)) by (nonlinear_arith);
    assert(0x80_0000 * (w * f) == w * (f * 0x80_0000)) by (nonlinear_arith);
    lemma_rounded_scale(x, w, f * 0x80_0000);
}

/// Few units are written as they are.
proof fn lemma_single_of_few(x: nat)
    requires
        x < 0x80_0000,
    ensures
        single_bits(x, pow2(149)) == x,
{
    vstd::arithmetic::power2::lemma2_to64();
    vstd::arithmetic::power2::lemma_pow2_pos(149);
    vstd::arithmetic::power2::lemma_pow2_pos(126);
    vstd::arithmetic::power2::lemma_pow2_adds(23, 126);
    if x > 0 {
        let w = pow2(126);
        assert(x * w < 0x80_0000 * w) by (nonlinear_arith)
            requires
                x < 0x80_0000,
                0 < w,
        ;
        lemma_many_doublings(x, pow2(149), 126);
        lemma_rounded_scale(x, 1, pow2(149));
    }
}

fn digits_of(size: TilingSize) -> (r: u32)
    ensures
        r == significand(size),
        r < 0x100_0000,
        size.bits >= 0x80_0000 ==> r >= 0x80_0000,
{
    if size.bits < 0x80_0000 {
        size.bits
    } else {
        0x80_0000 + size.bits % 0x80_0000
    }
}

fn scale_of(size: TilingSize) -> (r: u32)
    ensures
        r == scale(size),
        1 <= r <= 0x1ff,
        size.bits < INFINITE ==> r <= 254,
{
    if size.bits < 0x80_0000 {
        1
    } else {
        size.bits / 0x80_0000
    }
}

/// `x` times two to the power of `n`.
fn shifted(x: u32, n: u32) -> (r: u64)
    requires
        x < 0x100_0000,
        n <= 32,
    ensures
        r == x * pow2(n as nat),
        r < 0x100_0000_0000_0000,
{
    let mut out: u64 = x as u64;
    let mut i: u32 = 0;
    proof {
        vstd::arithmetic::power2::lemma2_to64();
    }
    while i < n
        invariant
            i <= n <= 32,
            x < 0x100_0000,
            out == x * pow2(i as nat),
            out < 0x100_0000_0000_0000,
        decreases n - i,
    {
        proof {
            vstd::arithmetic::power2::lemma2_to64();
            vstd::arithmetic::power2::lemma_pow2_unfold((i + 1) as nat);
            if i + 1 < 32 {
                vstd::arithmetic::power2::lemma_pow2_strictly_increases((i + 1) as nat, 32);
            }
            let w = pow2(i as nat);
            assert(2 * (x * w) == x * (2 * w)) by (nonlinear_arith);
            assert(x * (2 * w) < 0x100_0000 * 0x1_0000_0000) by (nonlinear_arith)
                requires
                    x < 0x100_0000,
                    0 <= 2 * w <= 0x1_0000_0000,
            ;
        }
        out = 2 * out;
        i = i + 1;
    }
    out
}

fn round(a: u64, b: u64) -> (r: u64)
    requires
        a < 0x8000_0000_0000_0000,
        0 < b < 0x8000_0000_0000_0000,
    ensures
        r == rounded_quotient(a as nat, b as nat),
{
    let q: u64 = a / b;
    let r: u64 = a % b;
    assert(q <= a) by (nonlinear_arith)
        requires
            q == a / b,
            0 < b,
    ;
    if 2 * r > b || (2 * r == b && q % 2 == 1) {
        q + 1
    } else {
        q
    }
}

/// The rounded quotient of numbers whose quotient has 24 digits.
proof fn lemma_rounded_digits(a: nat, b: nat)
    requires
        0x80_0000 * b <= a < 0x100_0000 * b,
    ensures
        0x80_0000 <= rounded_quotient(a, b) <= 0x100_0000,
{
    vstd::arithmetic::div_mod::lemma_fundamental_div_mod(a as int, b as int);
    let q = a / b;
    let r = a % b;
    assert(0x80_0000 <= q < 0x100_0000) by (nonlinear_arith)
        requires
            a == b * q + r,
            0 <= r < b,
            b * 0x80_0000 <= a < b * 0x100_0000,
    ;
}

/// The size closest to `x` times two to the power of `s` units.
fn round_units(x: u64, s: u32) -> (r: TilingSize)
    requires
        x < 0x400_0000_0000_0000,
        s < 254,
        x >= 0x80_0000 || s == 0,
    ensures
        r == single(x as nat * pow2(s as nat), pow2(149)),
        r.bits <= INFINITE,
{
    proof {
        vstd::arithmetic::power2::lemma2_to64();
        vstd::arithmetic::power2::lemma2_to64_rest();
    }
    if x < 0x80_0000 {
        proof {
            lemma_single_of_few(x as nat);
        }
        return TilingSize { bits: x as u32 };
    }
    let mut w: u64 = 1;
    let mut k: u32 = 0;
    while x >= 0x100_0000 * w
        invariant
            x < 0x400_0000_0000_0000,
            w == pow2(k as nat),
            k <= 34,
            w <= 0x4_0000_0000,
            0x80_0000 * w <= x,
        decreases 34 - k,
    {
        proof {
            vstd::arithmetic::power2::lemma_pow2_unfold((k + 1) as nat);
            vstd::arithmetic::power2::lemma2_to64_rest();
            if k + 1 < 34 {
                vstd::arithmetic::power2::lemma_pow2_strictly_increases((k + 1) as nat, 34);
            }
        }
        w = 2 * w;
        k = k + 1;
    }
    let m: u64 = round(x, w);
    proof {
        lemma_rounded_digits(x as nat, w as nat);
        lemma_single_of_scaled(x as nat, s as nat, k as nat);
    }
    let bits: u32 = (s + k) * 0x80_0000 + m as u32;
    if bits > INFINITE {
        TilingSize { bits: INFINITE }
    } else {
        TilingSize { bits }
    }
}

/// The sum of two finite sizes, the first of the larger scale.
fn add_smaller(a: TilingSize, b: TilingSize) -> (r: TilingSize)
    requires
        a.bits < INFINITE,
        b.bits < INFINITE,
        scale(b) <= scale(a),
    ensures
        r == single(value(a) + value(b), pow2(149)),
        r.bits <= INFINITE,
{
    let high: u32 = digits_of(a);
    let low: u32 = digits_of(b);
    let base: u32 = scale_of(b);
    let gap: u32 = scale_of(a) - base;
    let ghost s = (base - 1) as nat;
    let ghost x = high as nat * pow2(gap as nat) + low as nat;
    proof {
        lemma_powers_join(high as nat, gap as nat, s);
        let c = pow2(s);
        let h = high * pow2(gap as nat);
        assert((h + low) * c == h * c + low * c) by (nonlinear_arith);
        assert(value(a) + value(b) == x * pow2(s));
    }
    if gap > 25 {
        proof {
            vstd::arithmetic::power2::lemma2_to64();
            if gap > 26 {
                vstd::arithmetic::power2::lemma_pow2_strictly_increases(26, gap as nat);
            }
            let w = pow2(gap as nat);
            assert(0x80_0000 * w <= x < 0x100_0000 * w) by (nonlinear_arith)
                requires
                    x == high * w + low,
                    0x80_0000 <= high < 0x100_0000,
                    0 <= low < w,
            ;
            lemma_single_of_scaled(x as nat, s, gap as nat);
            vstd::arithmetic::div_mod::lemma_fundamental_div_mod_converse(
                x as int,
                w as int,
                high as int,
                low as int,
            );
            assert(a.bits == (a.bits / 0x80_0000) * 0x80_0000 + a.bits % 0x80_0000);
        }
        return a;
    }
    let sum: u64 = shifted(high, gap) + low as u64;
    proof {
        vstd::arithmetic::power2::lemma_pow2_pos(gap as nat);
    }
    round_units(sum, base - 1)
}

/// Adds two sizes.
pub fn add_sizes(a: TilingSize, b: TilingSize) -> (r: TilingSize)
    requires
        a.is_non_negative(),
        b.is_non_negative(),
    ensures
        r == added(a, b),
        r.is_non_negative(),
{
    if a.bits == INFINITE || b.bits == INFINITE {
        return TilingSize { bits: INFINITE };
    }
    if scale_of(b) <= scale_of(a) {
        add_smaller(a, b)
    } else {
        add_smaller(b, a)
    }
}

/// Divides a finite size by another that is not zero.
fn divide_finite(a: TilingSize, b: TilingSize) -> (r: TilingSize)
    requires
        a.bits < INFINITE,
        0 < b.bits < INFINITE,
    ensures
        r == single(value(a), value(b)),
        r.bits <= INFINITE,
{
    proof {
        vstd::arithmetic::power2::lemma2_to64();
        lemma_value_pos(b);
    }
    if a.bits == 0 {
        return TilingSize { bits: 0 };
    }
    let high: u32 = digits_of(a);
    let low: u32 = digits_of(b);
    let goal: u64 = low as u64 * 0x80_0000;
    let mut x: u64 = high as u64;
    let mut j: u32 = 0;
    while x < goal
        invariant
            0 < low < 0x100_0000,
            0 < high,
            goal == low * 0x80_0000,
            x == high * pow2(j as nat),
            0 < x < 2 * goal,
            j < 48,
        decreases 2 * goal - x,
    {
        proof {
            vstd::arithmetic::power2::lemma_pow2_unfold((j + 1) as nat);
            let w = pow2(j as nat);
            assert(2 * (high * w) == high * (2 * w)) by (nonlinear_arith);
            if j == 47 {
                vstd::arithmetic::power2::lemma2_to64_rest();
                assert(high * w >= w) by (nonlinear_arith)
                    requires
                        high >= 1,
                ;
            }
        }
        x = 2 * x;
        j = j + 1;
    }
    let above: u32 = 149 + scale_of(a);
    let below: u32 = scale_of(b) + j;
    if above >= below {
        let k: u32 = above - below;
        let m: u64 = round(x, low as u64);
        proof {
            lemma_quotient_digits(high as nat, low as nat, scale(a), scale(b), j as nat);
            lemma_rounded_digits(x as nat, low as nat);
        }
        let bits: u32 = if k < 255 {
            k * 0x80_0000 + m as u32
        } else {
            INFINITE
        };
        if bits > INFINITE {
            TilingSize { bits: INFINITE }
        } else {
            TilingSize { bits }
        }
    } else {
        let shift: u32 = below - above;
        proof {
            lemma_small_quotient(high as nat, low as nat, scale(a), scale(b), j as nat);
        }
        if shift > 25 {
            proof {
                vstd::arithmetic::power2::lemma2_to64();
                if shift > 26 {
                    vstd::arithmetic::power2::lemma_pow2_strictly_increases(26, shift as nat);
                }
                let w = pow2(shift as nat);
                assert(2 * x < low * w) by (nonlinear_arith)
                    requires
                        x < low * 0x100_0000,
                        0x400_0000 <= w,
                        0 < low,
                ;
                vstd::arithmetic::div_mod::lemma_fundamental_div_mod_converse(
                    x as int,
                    (low * w) as int,
                    0,
                    x as int,
                );
            }
            return TilingSize { bits: 0 };
        }
        let divisor: u64 = shifted(low, shift);
        proof {
            let w = pow2(shift as nat);
            vstd::arithmetic::power2::lemma_pow2_unfold(shift as nat);
            vstd::arithmetic::power2::lemma_pow2_pos((shift - 1) as nat);
            assert(x < divisor * 0x80_0000) by (nonlinear_arith)
                requires
                    x < low * 0x100_0000,
                    divisor == low * w,
                    w >= 2,
            ;
            lemma_rounded_bound(x as nat, divisor as nat, 0x80_0000);
        }
        let m: u64 = round(x, divisor);
        TilingSize { bits: m as u32 }
    }
}

proof fn lemma_rounded_bound(a: nat, b: nat, n: nat)
    requires
        a < b * n,
    ensures
        rounded_quotient(a, b) <= n,
{
    assert(0 < b) by (nonlinear_arith)
        requires
            0 <= a < b * n,
            0 <= b,
    ;
    vstd::arithmetic::div_mod::lemma_fundamental_div_mod(a as int, b as int);
    let q = a / b;
    let r = a % b;
    assert(q < n) by (nonlinear_arith)
        requires
            a == b * q + r,
            0 <= r,
            a < b * n,
            0 < b,
    ;
}

pub proof fn lemma_value_pos(size: TilingSize)
    requires
        0 < size.bits,
    ensures
        0 < significand(size),
        0 < value(size),
{
    let w = pow2((scale(size) - 1) as nat);
    let m = significand(size);
    vstd::arithmetic::power2::lemma_pow2_pos((scale(size) - 1) as nat);
    assert(0 < m * w) by (nonlinear_arith)
        requires
            0 < m,
            0 < w,
    ;
}

/// The digits and the scale of a quotient with 24 digits: `n` and `d` are the
/// digits of two sizes with the scales `a` and `b`.
proof fn lemma_quotient_digits(n: nat, d: nat, a: nat, b: nat, j: nat)
    requires
        0 < n,
        0 < d,
        1 <= a,
        1 <= b,
        d * 0x80_0000 <= n * pow2(j) < 2 * (d * 0x80_0000),
        b + j <= 149 + a,
    ensures
        ({
            let p = n * pow2((a - 1) as nat);
            let q = d * pow2((b - 1) as nat);
            &&& 0 < p
            &&& 0 < q
            &&& doublings(p, q) <= 126
            &&& closest_bits(p, q) == (149 + a - b - j) * 0x80_0000 + rounded_quotient(
                n * pow2(j),
                d,
            )
        }),
{
    vstd::arithmetic::power2::lemma2_to64();
    let p = n * pow2((a - 1) as nat);
    let q = d * pow2((b - 1) as nat);
    let k = (149 + a - b - j) as nat;
    let u: nat = if k <= 126 {
        (126 - k) as nat
    } else {
        0
    };
    let v: nat = if k <= 126 {
        0
    } else {
        (k - 126) as nat
    };
    lemma_times_power_pos(n, (a - 1) as nat);
    lemma_times_power_pos(d, (b - 1) as nat);
    lemma_powers_join(n, (a - 1) as nat, u);
    lemma_powers_join(d, (b - 1) as nat, v);
    let e = (b - 1) + v;
    assert((a - 1) + u + 23 == j + e);
    let top = p * pow2(u);
    let bottom = q * pow2(v);
    lemma_powers_join(n, ((a - 1) + u) as nat, 23);
    lemma_powers_join(n, j, e as nat);
    let x = n * pow2(j);
    let f = pow2(e as nat);
    vstd::arithmetic::power2::lemma_pow2_pos(e as nat);
    assert(top * 0x80_0000 == x * f);
    assert(bottom == d * f);
    assert(d * f * 0x80_0000 <= x * f < 2 * (d * f * 0x80_0000)) by (nonlinear_arith)
        requires
            d * 0x80_0000 <= x < 2 * (d * 0x80_0000),
            0 < f,
    ;
    lemma_closest_is(p, q, u, v);
    lemma_rounded_scale(x, d, f);
}

/// A quotient that is too small for 24 digits.
proof fn lemma_small_quotient(n: nat, d: nat, a: nat, b: nat, j: nat)
    requires
        0 < n,
        0 < d,
        1 <= a,
        1 <= b,
        n * pow2(j) < 2 * (d * 0x80_0000),
        149 + a < b + j,
    ensures
        ({
            let p = n * pow2((a - 1) as nat);
            let q = d * pow2((b - 1) as nat);
            &&& 0 < p
            &&& 0 < q
            &&& doublings(p, q) > 126
            &&& rounded_quotient(p * pow2(149), q) == rounded_quotient(
                n * pow2(j),
                d * pow2((b + j - 149 - a) as nat),
            )
        }),
{
    vstd::arithmetic::power2::lemma2_to64();
    let p = n * pow2((a - 1) as nat);
    let q = d * pow2((b - 1) as nat);
    let s = (b + j - 149 - a) as nat;
    lemma_times_power_pos(n, (a - 1) as nat);
    lemma_times_power_pos(d, (b - 1) as nat);
    lemma_times_power_pos(d, s);
    let x = n * pow2(j);
    let f = pow2((b - 1) as nat);
    vstd::arithmetic::power2::lemma_pow2_pos((b - 1) as nat);
    vstd::arithmetic::power2::lemma_pow2_pos(s);
    // Both sides of the rounded quotient, scaled by a common factor.
    lemma_powers_join(n, (a - 1) as nat, 149);
    lemma_powers_join(n, ((a - 1) + 149) as nat, s);
    lemma_powers_join(n, j, (b - 1) as nat);
    assert((a - 1) + 149 + s == j + (b - 1));
    lemma_powers_join(d, (b - 1) as nat, s);
    lemma_powers_join(d, s, (b - 1) as nat);
    lemma_rounded_scale(p * pow2(149), q, pow2(s));
    lemma_rounded_scale(x, d * pow2(s), f);
    // The quotient stays below what 126 doublings bring to one.
    lemma_powers_join(n, (a - 1) as nat, 126);
    lemma_powers_join(n, ((a - 1) + 126) as nat, 23 + s);
    assert((a - 1) + 126 + (23 + s) == j + (b - 1));
    let y = p * pow2(126);
    let g = pow2(23 + s);
    vstd::arithmetic::power2::lemma_pow2_adds(24, (s - 1) as nat);
    vstd::arithmetic::power2::lemma_pow2_pos((s - 1) as nat);
    assert(y * g == x * f);
    assert(y < q) by (nonlinear_arith)
        requires
            y * g == x * f,
            x < 2 * (d * 0x80_0000),
            q == d * f,
            0 < f,
            g >= 0x100_0000,
            0 <= y,
    ;
    lemma_many_doublings(p, q, 126);
}

proof fn lemma_times_power_pos(x: nat, n: nat)
    requires
        0 < x,
    ensures
        0 < x * pow2(n),
{
    vstd::arithmetic::power2::lemma_pow2_pos(n);
    let w = pow2(n);
    assert(0 < x * w) by (nonlinear_arith)
        requires
            0 < x,
            0 < w,
    ;
}

/// Divides a size by another that is not zero.
pub fn divide_sizes(a: TilingSize, b: TilingSize) -> (r: TilingSize)
    requires
        a.is_non_negative(),
        b.is_non_negative(),
        b.bits > 0,
    ensures
        r == divided(a, b),
{
    if a.bits == INFINITE {
        TilingSize {
            bits: if b.bits == INFINITE {
                NO_NUMBER
            } else {
                INFINITE
            },
        }
    } else if b.bits == INFINITE {
        TilingSize { bits: 0 }
    } else {
        divide_finite(a, b)
    }
}

// ---------------------------------------------------------------------------
// Laws
// ---------------------------------------------------------------------------

/// The value that digits and a scale write together.
proof fn lemma_value_of_digits(k: nat, m: nat)
    requires
        0x80_0000 <= m <= 0x100_0000,
        k * 0x80_0000 + m < INFINITE,
    ensures
        value(TilingSize { bits: (k * 0x80_0000 + m) as u32 }) == m * pow2(k),
{
    let size = TilingSize { bits: (k * 0x80_0000 + m) as u32 };
    vstd::arithmetic::power2::lemma_pow2_unfold(k + 1);
    if m < 0x100_0000 {
        assert(scale(size) == k + 1);
        assert(significand(size) == m);
    } else {
        assert(scale(size) == k + 2);
        assert(significand(size) == 0x80_0000);
    }
}

/// A rounded quotient is off by at most one half.
proof fn lemma_rounded_is_close(a: nat, b: nat)
    requires
        0 < b,
    ensures
        -b <= 2 * (rounded_quotient(a, b) * b - a) <= b,
        a <= rounded_quotient(a, b) * b + b - 1,
        (a / b) <= rounded_quotient(a, b),
{
    let q = a / b;
    vstd::arithmetic::div_mod::lemma_fundamental_div_mod(a as int, b as int);
    assert(b * q == q * b) by (nonlinear_arith);
    assert((q + 1) * b == q * b + b) by (nonlinear_arith);
}

/// A quotient of at most one, written as a size, is off by at most two to the
/// power of -25.
pub proof fn law_quotient_is_close(p: nat, q: nat)
    requires
        p <= q,
        0 < q,
    ensures
        single_bits(p, q) <= 0x3f80_0000,
        -(q * pow2(124)) <= value(single(p, q)) * q - p * pow2(149) <= q * pow2(124),
{
    vstd::arithmetic::power2::lemma2_to64();
    vstd::arithmetic::power2::lemma_pow2_pos(124);
    let h = pow2(124);
    assert(q * h >= q) by (nonlinear_arith)
        requires
            h >= 1,
    ;
    if p == 0 {
        let one = pow2(149);
        assert(value(single(p, q)) == 0);
        assert(0 * q == 0 * one);
    } else {
        lemma_raised(p, q);
        lemma_grown(q, p);
        lemma_digits(p, q);
        law_closest_is_close(p, q);
        let d = doublings(p, q);
        let m = leading_digits(p, q);
        if d > 126 {
            let a = p * pow2(149);
            assert(p * pow2(126) < q) by {
                lemma_raised_is_first(p, q, 126);
            }
            lemma_powers_join(p, 126, 23);
            let y = p * pow2(126);
            assert(a < q * 0x80_0000) by (nonlinear_arith)
                requires
                    a == y * 0x80_0000,
                    y < q,
            ;
            lemma_rounded_bound(a, q, 0x80_0000);
            lemma_rounded_is_close(a, q);
            let r = rounded_quotient(a, q);
            let size = single(p, q);
            assert(scale(size) == 1);
            assert(significand(size) == r);
            assert(r * 1 == r);
            assert(value(size) == r);
        } else {
            let k = (126 - d) as nat;
            assert(growths(q, p) == 0);
            if p == q {
                lemma_whole_is_one(p);
                assert(closest_bits(p, q) == 0x3f80_0000);
                lemma_value_of_digits(126, 0x80_0000);
                vstd::arithmetic::power2::lemma_pow2_adds(23, 126);
                let one = pow2(149);
                assert(value(single(p, q)) == one);
                assert(one * q == p * one) by (nonlinear_arith)
                    requires
                        p == q,
                ;
            } else {
                assert(d >= 1);
                lemma_value_of_digits(k, m);
                let w = pow2(k);
                let a = p * pow2(d) * 0x80_0000;
                lemma_powers_join(p, d, 23);
                lemma_powers_join(p, (d + 23) as nat, k);
                assert(d + 23 + k == 149);
                assert(a * w == p * pow2(149));
                assert(q * pow2(0) == q);
                let off = m * q - a;
                assert(-q <= 2 * off <= q);
                assert(m * w * q - a * w == off * w) by (nonlinear_arith)
                    requires
                        off == m * q - a,
                ;
                vstd::arithmetic::power2::lemma_pow2_unfold(125);
                if k < 125 {
                    vstd::arithmetic::power2::lemma_pow2_strictly_increases(k, 125);
                }
                vstd::arithmetic::power2::lemma_pow2_pos(k);
                assert(-(q * h) <= off * w <= q * h) by (nonlinear_arith)
                    requires
                        -q <= 2 * off <= q,
                        0 < w <= 2 * h,
                        0 < q,
                ;
            }
        }
    }
}

/// Before the last doubling the whole is not reached.
proof fn lemma_raised_is_first(p: nat, q: nat, n: nat)
    requires
        0 < p,
        n < doublings(p, q),
    ensures
        p * pow2(n) < q,
    decreases n,
{
    vstd::arithmetic::power2::lemma2_to64();
    if n > 0 {
        lemma_raised_is_first(2 * p, q, (n - 1) as nat);
        vstd::arithmetic::power2::lemma_pow2_unfold(n);
        let w = pow2((n - 1) as nat);
        assert((2 * p) * w == p * (2 * w)) by (nonlinear_arith);
    } else {
        assert(p * 1 == p);
    }
}

proof fn lemma_whole_is_one(n: nat)
    requires
        0 < n,
    ensures
        closest_bits(n, n) == 0x3f80_0000,
{
    vstd::arithmetic::div_mod::lemma_fundamental_div_mod_converse(
        (n * 0x80_0000) as int,
        n as int,
        0x80_0000,
        0,
    );
}

/// Units written as a size: off by at most two to the power of -24 of it, and in
/// the order of the sizes.
pub proof fn law_units_are_close(x: nat)
    requires
        single_bits(x, pow2(149)) < INFINITE,
    ensures
        ({
            let v = value(single(x, pow2(149)));
            &&& -v <= (v - x) * 0x100_0000 <= v
            &&& forall|y: TilingSize|
                y.bits < INFINITE && #[trigger] value(y) <= x ==> value(y) <= v
        }),
{
    vstd::arithmetic::power2::lemma2_to64();
    let size = single(x, pow2(149));
    let v = value(size);
    if x < 0x80_0000 {
        lemma_single_of_few(x);
        assert(scale(size) == 1);
        assert(v == x);
    } else {
        lemma_grown(0x80_0000, x);
        let k = growths(0x80_0000, x);
        let w = pow2(k);
        vstd::arithmetic::power2::lemma_pow2_pos(k);
        assert(x * pow2(0) == x);
        lemma_single_of_scaled(x, 0, k);
        lemma_rounded_digits(x, w);
        let m = rounded_quotient(x, w);
        lemma_value_of_digits(k, m);
        assert(v == m * w);
        lemma_rounded_is_close(x, w);
        assert(0x80_0000 * w <= m * w) by (nonlinear_arith)
            requires
                0x80_0000 <= m,
        ;
        assert forall|y: TilingSize| y.bits < INFINITE && #[trigger] value(y) <= x implies value(y)
            <= v by {
            let e = (scale(y) - 1) as nat;
            let n = significand(y);
            if e < k {
                vstd::arithmetic::power2::lemma_pow2_unfold(e + 1);
                if e + 1 < k {
                    vstd::arithmetic::power2::lemma_pow2_strictly_increases(e + 1, k);
                }
                let z = pow2(e);
                assert(n * z <= 0x80_0000 * w) by (nonlinear_arith)
                    requires
                        n < 0x100_0000,
                        0 <= 2 * z <= w,
                ;
            } else {
                let f = pow2((e - k) as nat);
                vstd::arithmetic::power2::lemma_pow2_adds((e - k) as nat, k);
                assert(n * (f * w) == (n * f) * w) by (nonlinear_arith);
                vstd::arithmetic::div_mod::lemma_fundamental_div_mod(x as int, w as int);
                let q = x / w;
                let c = n * f;
                assert(c <= q) by (nonlinear_arith)
                    requires
                        c * w <= x,
                        x == w * q + x % w,
                        0 <= x % w < w,
                ;
                assert(c * w <= m * w) by (nonlinear_arith)
                    requires
                        c <= m,
                ;
            }
        }
    }
}

/// The quotient of a number and one is the number in units.
pub proof fn lemma_whole_number(n: nat)
    ensures
        single_bits(n, 1) == single_bits(n * pow2(149), pow2(149)),
{
    let h = pow2(149);
    vstd::arithmetic::power2::lemma_pow2_pos(149);
    if n > 0 {
        lemma_raised(n, 1);
        lemma_grown(1, n);
        let v = growths(1, n);
        let w = pow2(v);
        vstd::arithmetic::power2::lemma_pow2_pos(v);
        vstd::arithmetic::power2::lemma2_to64();
        assert(n * h * pow2(0) == n * h);
        assert(h * w <= n * h < 2 * (h * w)) by (nonlinear_arith)
            requires
                w <= n < 2 * w,
                0 < h,
        ;
        assert(0 < n * h) by (nonlinear_arith)
            requires
                0 < n,
                0 < h,
        ;
        lemma_closest_is(n * h, h, 0, v);
        assert(n * h * 0x80_0000 == (n * 0x80_0000) * h) by (nonlinear_arith);
        assert(h * w == w * h) by (nonlinear_arith);
        lemma_rounded_scale(n * 0x80_0000, w, h);
    } else {
        assert(0 * h == 0);
    }
}

/// No bits are larger than those of an infinite size.
pub proof fn lemma_single_bound(p: nat, q: nat)
    ensures
        single_bits(p, q) <= INFINITE,
{
    if 0 < p && 0 < q && doublings(p, q) > 126 {
        vstd::arithmetic::power2::lemma2_to64();
        lemma_raised_is_first(p, q, 126);
        lemma_powers_join(p, 126, 23);
        let y = p * pow2(126);
        let a = p * pow2(149);
        assert(a < q * 0x80_0000) by (nonlinear_arith)
            requires
                a == y * 0x80_0000,
                y < q,
        ;
        lemma_rounded_bound(a, q, 0x80_0000);
    }
}

/// A part of a whole below the limit has all its digits.
pub proof fn lemma_part_is_single(part: nat, total: nat)
    requires
        part <= total < LIMIT,
        0 < total,
    ensures
        closest(part, total) == single(part, total),
{
    if part > 0 {
        lemma_raised(part, total);
        lemma_few(part, doublings(part, total));
        if part == total {
            lemma_whole_is_one(part);
        } else {
            lemma_grown(total, part);
            lemma_digits(part, total);
        }
    }
}

/// A number of machine size has all its digits.
pub proof fn lemma_count_is_single(n: nat)
    requires
        0 < n < LIMIT,
    ensures
        closest(n, 1) == single(n, 1),
        closest_bits(n, 1) < INFINITE,
        single_bits(n, 1) == closest_bits(n, 1),
{
    lemma_raised(n, 1);
    lemma_grown(1, n);
    lemma_few(1, growths(1, n));
    lemma_digits(n, 1);
}

/// The bits of zero are worth nothing.
pub proof fn lemma_zero()
    ensures
        value(TilingSize::zero()) == 0,
{
    let w = pow2(0);
    assert(0 * w == 0);
}

/// The bits of one are worth one.
pub proof fn lemma_one()
    ensures
        value(TilingSize::one()) == pow2(149),
{
    vstd::arithmetic::power2::lemma2_to64();
    vstd::arithmetic::power2::lemma_pow2_adds(23, 126);
}

/// A finite size is its own closest size.
pub proof fn lemma_finite_is_kept(size: TilingSize)
    requires
        size.bits < INFINITE,
    ensures
        single(value(size), pow2(149)) == size,
{
    vstd::arithmetic::power2::lemma2_to64();
    if size.bits < 0x80_0000 {
        lemma_single_of_few(size.bits as nat);
        assert(significand(size) * 1 == significand(size));
    } else {
        let m = significand(size);
        let s = (scale(size) - 1) as nat;
        lemma_single_of_scaled(m, s, 0);
        vstd::arithmetic::div_mod::lemma_fundamental_div_mod_converse(m as int, 1, m as int, 0);
    }
}

/// What is divided by itself is one.
pub proof fn lemma_quotient_by_itself(n: nat)
    requires
        0 < n,
    ensures
        single(n, n) == TilingSize::one(),
{
    lemma_whole_is_one(n);
}

} // verus!
