//! # Binary32 rounding on fixed-point integers
//!
//! The grayscale filter and the overlay blend compute with single-precision
//! floats. Every value they meet is zero or lies between 2^-8 and 2^9, and
//! every such binary32 value is an integer multiple of 2^-32. So the library
//! holds each value `v` as the integer `v * 2^32` and rounds exactly as
//! binary32 arithmetic does: to the nearest value with 24 significant bits,
//! ties to the even one.
use vstd::prelude::*;
use vstd::arithmetic::power2::*;
use vstd::arithmetic::div_mod::*;
use vstd::arithmetic::mul::*;

verus! {

/// `1.0` in fixed point.
pub const FIXED_ONE: u64 = 0x1_0000_0000;

/// `2^24`: the first integer with more than 24 significant bits.
pub const SIGNIFICAND_LIMIT: u64 = 0x100_0000;

/// How many low bits of `n` fall below its 24 most significant bits.
pub open spec fn significant_shift(n: nat) -> nat
    decreases n,
{
    if n < SIGNIFICAND_LIMIT {
        0
    } else {
        1 + significant_shift(n / 2)
    }
}

/// Whether a quotient `lo` with remainder `rem` (out of `unit`) rounds up:
/// above half way, or exactly half way with `lo` odd.
pub open spec fn rounds_up(lo: nat, rem: nat, unit: nat) -> bool {
    2 * rem > unit || (2 * rem == unit && lo % 2 == 1)
}

/// `num / den`, rounded to 24 significant bits with ties to even.
pub open spec fn round_binary32(num: nat, den: nat) -> nat {
    let s = significant_shift(num / den);
    let unit = den * pow2(s);
    let lo = num / unit;
    let rem = num % unit;
    (if rounds_up(lo, rem, unit) { lo + 1 } else { lo }) * pow2(s)
}

proof fn lemma_halving_bound(unit: nat, t: nat)
    requires
        t >= 1,
    ensures
        (2 * unit) * (t / 2) <= unit * t,
{
    lemma_fundamental_div_mod(t as int, 2);
    assert((2 * unit) * (t / 2) <= unit * t) by (nonlinear_arith)
        requires
            t == 2 * (t / 2) + t % 2,
            t % 2 >= 0;
}

/// Rounds `num / den` to 24 significant bits, ties to even.
pub fn round_binary32_fixed(num: u64, den: u64) -> (v: u64)
    requires
        1 <= den <= 255,
        num < 0x4_0000_0000_0000,
    ensures
        v == round_binary32(num as nat, den as nat),
        v <= 2 * (num / den) + 1,
{
    let fl = num / den;
    let mut t = fl;
    let mut unit: u64 = 1;
    let ghost mut s: nat = 0;
    proof {
        lemma2_to64();
    }
    while t >= SIGNIFICAND_LIMIT
        invariant
            unit == pow2(s),
            significant_shift(fl as nat) == s + significant_shift(t as nat),
            unit * t <= fl,
            fl < 0x4_0000_0000_0000,
            unit >= 1,
            t >= 1 || s == 0,
        decreases t,
    {
        proof {
            lemma_halving_bound(unit as nat, t as nat);
            lemma_pow2_unfold(s + 1);
            assert(t / 2 >= 1);
            assert(2 * unit <= (2 * unit) * (t / 2)) by (nonlinear_arith)
                requires t / 2 >= 1, unit >= 1;
        }
        t = t / 2;
        unit = unit * 2;
        proof {
            s = s + 1;
        }
    }
    assert(unit <= fl || unit == 1) by (nonlinear_arith)
        requires unit * t <= fl, t >= 1 || unit == 1, unit >= 1;
    assert(den * unit < 0x400_0000_0000_0000 && den * unit >= 1) by (nonlinear_arith)
        requires unit <= fl || unit == 1, fl < 0x4_0000_0000_0000, 1 <= den <= 255, unit >= 1;
    let big = den * unit;
    let lo = num / big;
    let rem = num % big;
    let up = 2 * rem > big || (2 * rem == big && lo % 2 == 1);
    proof {
        lemma_fundamental_div_mod(num as int, big as int);
        lemma_fundamental_div_mod(num as int, den as int);
        assert(lo * unit <= fl) by (nonlinear_arith)
            requires
                num == big * lo + rem,
                0 <= rem,
                big == den * unit,
                num == den * fl + num % den,
                0 <= num % den < den,
                den >= 1,
                unit >= 1;
        assert((lo + 1) * unit <= 2 * fl + 1) by (nonlinear_arith)
            requires
                lo * unit <= fl,
                unit <= fl || unit == 1,
                unit >= 1;
    }
    let q = if up { lo + 1 } else { lo };
    q * unit
}

/// Truncates a fixed-point value to an integer and saturates it at 255, as a
/// float-to-`u8` cast does.
pub open spec fn saturating_byte(v: nat) -> u8 {
    if v / (FIXED_ONE as nat) > 255 {
        255
    } else {
        (v / (FIXED_ONE as nat)) as u8
    }
}

fn saturating_byte_fixed(v: u64) -> (b: u8)
    ensures
        b == saturating_byte(v as nat),
{
    let q = v / FIXED_ONE;
    if q > 255 {
        255
    } else {
        q as u8
    }
}

/// `0.299` as a binary32 value, in fixed point.
pub const LUMA_RED: u64 = 1284195200;

/// `0.587` as a binary32 value, in fixed point.
pub const LUMA_GREEN: u64 = 2521145856;

/// `0.114` as a binary32 value, in fixed point.
pub const LUMA_BLUE: u64 = 489626272;

/// The luminance `0.299 r + 0.587 g + 0.114 b` computed in binary32
/// (products, then the sum left to right) and cast to `u8`.
pub open spec fn luma(r: u8, g: u8, b: u8) -> u8 {
    let pr = round_binary32((LUMA_RED * r) as nat, 1);
    let pg = round_binary32((LUMA_GREEN * g) as nat, 1);
    let pb = round_binary32((LUMA_BLUE * b) as nat, 1);
    saturating_byte(round_binary32(round_binary32(pr + pg, 1) + pb, 1))
}

/// The grayscale level of a pixel.
pub fn luma_fixed(r: u8, g: u8, b: u8) -> (y: u8)
    ensures
        y == luma(r, g, b),
{
    let pr = round_binary32_fixed(LUMA_RED * (r as u64), 1);
    let pg = round_binary32_fixed(LUMA_GREEN * (g as u64), 1);
    let pb = round_binary32_fixed(LUMA_BLUE * (b as u64), 1);
    let s1 = round_binary32_fixed(pr + pg, 1);
    let s2 = round_binary32_fixed(s1 + pb, 1);
    saturating_byte_fixed(s2)
}

/// The opacity `alpha / 255` in binary32, in fixed point.
pub open spec fn opacity(alpha: u8) -> nat {
    round_binary32((alpha * FIXED_ONE) as nat, 255)
}

/// One channel of `overlay` drawn over `base` with opacity `alpha / 255`:
/// `base * (1 - a) + overlay * a` in binary32, cast to `u8`.
pub open spec fn blend_channel_value(base: u8, over: u8, alpha: u8) -> u8 {
    let a = opacity(alpha);
    let inv = round_binary32((FIXED_ONE - a) as nat, 1);
    saturating_byte(round_binary32(round_binary32((base * inv) as nat, 1) + round_binary32((over * a) as nat, 1), 1))
}

/// A value below `2^(24 + k)` loses at most `k` low bits.
proof fn lemma_shift_bound(n: nat, k: nat)
    requires
        n < pow2(24 + k),
    ensures
        significant_shift(n) <= k,
    decreases k,
{
    lemma2_to64();
    if n >= SIGNIFICAND_LIMIT {
        if k == 0 {
            assert(false);
        } else {
            lemma_pow2_unfold(24 + k);
            lemma_shift_bound(n / 2, (k - 1) as nat);
        }
    }
}

/// The opacity never exceeds one.
proof fn lemma_opacity_at_most_one(alpha: u8)
    ensures
        opacity(alpha) <= FIXED_ONE,
{
    lemma2_to64();
    lemma2_to64_rest();
    let num = (alpha * FIXED_ONE) as nat;
    let fl = num / 255;
    let s = significant_shift(fl);
    let p = pow2(s);
    let unit = 255 * p;
    lemma_pow2_pos(s);
    let lo = num / unit;
    let rem = num % unit;
    if alpha == 255 {
        assert(fl == FIXED_ONE);
        reveal_with_fuel(significant_shift, 10);
        assert(s == 9);
        assert(unit == 130560);
        assert(num == unit * 0x80_0000);
        lemma_div_multiples_vanish(0x80_0000, unit as int);
        lemma_mod_multiples_basic(0x80_0000, unit as int);
        assert(lo == 0x80_0000);
        assert(rem == 0);
    } else {
        assert(fl < FIXED_ONE) by (nonlinear_arith)
            requires num == alpha * 0x1_0000_0000, alpha < 255, fl == num / 255;
        lemma_shift_bound(fl, 8);
        lemma_pow2_adds(s, (32 - s) as nat);
        let q = pow2((32 - s) as nat);
        assert(p * q == FIXED_ONE);
        lemma_fundamental_div_mod(num as int, unit as int);
        lemma_fundamental_div_mod(num as int, 255);
        assert(lo * p <= fl) by (nonlinear_arith)
            requires
                num == unit * lo + rem,
                0 <= rem,
                unit == 255 * p,
                num == 255 * fl + num % 255,
                0 <= num % 255 < 255,
                p >= 1;
        assert((lo + 1) * p <= FIXED_ONE) by (nonlinear_arith)
            requires
                lo * p <= fl,
                fl < p * q,
                p * q == 0x1_0000_0000,
                p >= 1;
    }
}

/// Blends one channel.
pub fn blend_channel(base: u8, over: u8, alpha: u8) -> (c: u8)
    ensures
        c == blend_channel_value(base, over, alpha),
{
    proof {
        lemma_opacity_at_most_one(alpha);
    }
    let a = round_binary32_fixed((alpha as u64) * FIXED_ONE, 255);
    let inv = round_binary32_fixed(FIXED_ONE - a, 1);
    assert((base as u64) * inv <= 255 * 0x2_0000_0001) by (nonlinear_arith)
        requires inv <= 0x2_0000_0001;
    assert((over as u64) * a <= 255 * 0x1_0000_0000) by (nonlinear_arith)
        requires a <= 0x1_0000_0000;
    let pb = round_binary32_fixed((base as u64) * inv, 1);
    let po = round_binary32_fixed((over as u64) * a, 1);
    let mixed = round_binary32_fixed(pb + po, 1);
    saturating_byte_fixed(mixed)
}

/// A value with at most 24 significant bits is kept exactly by rounding.
pub proof fn lemma_round_exact(m: nat, e: nat)
    requires
        m < SIGNIFICAND_LIMIT,
    ensures
        round_binary32(m * pow2(e), 1) == m * pow2(e),
{
    lemma2_to64();
    let n = m * pow2(e);
    lemma_pow2_pos(e);
    assert(n < pow2(24 + e)) by {
        lemma_pow2_adds(24, e);
        lemma_mul_strict_inequality(m as int, pow2(24) as int, pow2(e) as int);
    }
    assert(n / 1 == n);
    let s = significant_shift(n);
    lemma_shift_bound(n, e);
    let p = pow2(s);
    let q = pow2((e - s) as nat);
    lemma_pow2_adds((e - s) as nat, s);
    lemma_pow2_pos(s);
    assert(n == (m * q) * p) by {
        lemma_mul_is_associative(m as int, q as int, p as int);
    }
    assert(1 * p == p);
    lemma_div_multiples_vanish((m * q) as int, p as int);
    lemma_mod_multiples_basic((m * q) as int, p as int);
    assert(n / p == m * q) by {
        lemma_mul_is_commutative((m * q) as int, p as int);
    }
    assert(n % p == 0) by {
        lemma_mul_is_commutative((m * q) as int, p as int);
    }
}

proof fn lemma_round_zero(den: nat)
    requires
        den >= 1,
    ensures
        round_binary32(0, den) == 0,
{
    lemma2_to64();
    assert(0nat / den == 0);
    assert(significant_shift(0) == 0);
    assert(den * pow2(0) == den);
    assert(0nat / den == 0 && 0nat % den == 0);
}

proof fn lemma_opacity_full()
    ensures
        opacity(255) == FIXED_ONE,
{
    lemma2_to64();
    lemma2_to64_rest();
    let num = (255 * FIXED_ONE) as nat;
    assert(num / 255 == FIXED_ONE);
    reveal_with_fuel(significant_shift, 10);
    assert(significant_shift(FIXED_ONE as nat) == 9);
    let unit = 255 * pow2(9);
    assert(unit == 130560);
    assert(num == unit * 0x80_0000);
    lemma_div_multiples_vanish(0x80_0000, unit as int);
    lemma_mod_multiples_basic(0x80_0000, unit as int);
}

/// A fully transparent overlay leaves the base channel as it is; a fully
/// opaque one replaces it.
pub proof fn lemma_blend_extremes(base: u8, over: u8)
    ensures
        blend_channel_value(base, over, 0) == base,
        blend_channel_value(base, over, 255) == over,
{
    lemma2_to64();
    lemma2_to64_rest();
    assert(pow2(32) == FIXED_ONE);
    lemma_round_zero(255);
    lemma_round_zero(1);
    // Transparent: the opacity is zero and its complement one.
    assert(opacity(0) == 0) by {
        assert((0u8 * FIXED_ONE) as nat == 0);
    }
    lemma_round_exact(1, 32);
    assert(round_binary32((FIXED_ONE - opacity(0)) as nat, 1) == FIXED_ONE);
    lemma_round_exact(base as nat, 32);
    assert(round_binary32((base * FIXED_ONE) as nat, 1) == base * FIXED_ONE);
    assert((over * 0) as nat == 0);
    assert(round_binary32((base * FIXED_ONE) as nat, 1) + round_binary32(0, 1) == base * FIXED_ONE);
    lemma_div_multiples_vanish(base as int, FIXED_ONE as int);
    assert(((base * FIXED_ONE) as nat) / (FIXED_ONE as nat) == base) by {
        lemma_mul_is_commutative(base as int, FIXED_ONE as int);
    }
    // Opaque: the opacity is one and its complement zero.
    lemma_opacity_full();
    assert((FIXED_ONE - opacity(255)) as nat == 0);
    assert((base * 0) as nat == 0);
    lemma_round_exact(over as nat, 32);
    lemma_div_multiples_vanish(over as int, FIXED_ONE as int);
    assert(((over * FIXED_ONE) as nat) / (FIXED_ONE as nat) == over) by {
        lemma_mul_is_commutative(over as int, FIXED_ONE as int);
    }
}

/// A value that loses low bits to rounding is at least `2^23` times the
/// weight of its last kept bit.
proof fn lemma_shift_weight(n: nat)
    ensures
        significant_shift(n) > 0 ==> pow2(significant_shift(n)) * 0x80_0000 <= n,
    decreases n,
{
    if n >= SIGNIFICAND_LIMIT {
        lemma2_to64();
        let h = n / 2;
        lemma_shift_weight(h);
        let s = significant_shift(h);
        assert(significant_shift(n) == s + 1);
        lemma_pow2_unfold(s + 1);
        if s == 0 {
            assert(pow2(1) * 0x80_0000 == 0x100_0000);
        } else {
            assert(pow2(s + 1) * 0x80_0000 <= n) by (nonlinear_arith)
                requires
                    pow2(s) * 0x80_0000 <= h,
                    pow2(s + 1) == 2 * pow2(s),
                    h == n / 2,
            ;
        }
    }
}

/// Rounding a value no larger than `b * 2^23` to 24 significant bits moves
/// it by at most `b`.
proof fn lemma_round_error(n: nat, b: nat)
    requires
        n <= b * 0x80_0000,
    ensures
        round_binary32(n, 1) <= n + b,
        n <= round_binary32(n, 1) + b,
{
    lemma2_to64();
    assert(n / 1 == n);
    let s = significant_shift(n);
    let p = pow2(s);
    lemma_pow2_pos(s);
    assert(1 * p == p);
    let lo = n / p;
    let rem = n % p;
    lemma_fundamental_div_mod(n as int, p as int);
    assert(lo * p <= n && n < lo * p + p) by (nonlinear_arith)
        requires
            n == p * lo + rem,
            0 <= rem < p,
    ;
    if s == 0 {
        assert(p == 1);
        assert(rem == 0);
        assert(!rounds_up(lo, rem, p));
        assert(round_binary32(n, 1) == lo * p);
    } else {
        lemma_shift_weight(n);
        assert(p <= b) by (nonlinear_arith)
            requires
                p * 0x80_0000 <= n,
                n <= b * 0x80_0000,
        ;
        assert((lo + 1) * p == lo * p + p) by (nonlinear_arith);
    }
}

/// Blending never gives more than the larger of the two channel values, and
/// at most one less than the smaller: the products and the sum are rounded,
/// and the cast drops what lies below the next integer.
pub proof fn lemma_blend_between(base: u8, over: u8, alpha: u8)
    ensures
        blend_channel_value(base, over, alpha) <= if base >= over { base } else { over },
        blend_channel_value(base, over, alpha) + 1 >= if base <= over { base } else { over },
{
    lemma2_to64();
    lemma2_to64_rest();
    let hi: nat = if base >= over { base as nat } else { over as nat };
    let lo: nat = if base <= over { base as nat } else { over as nat };
    let f = FIXED_ONE as nat;
    lemma_opacity_at_most_one(alpha);
    let a = opacity(alpha);
    let d = (FIXED_ONE - a) as nat;
    assert(d <= 512 * 0x80_0000);
    lemma_round_error(d, 512);
    let inv = round_binary32(d, 1);
    assert(inv <= f + 512);
    let x = (base * inv) as nat;
    let y = (over * a) as nat;
    assert(x <= 0x2_0000 * 0x80_0000) by (nonlinear_arith)
        requires x == base * inv, inv <= 0x1_0000_0200, base <= 255;
    assert(y <= 0x2_0000 * 0x80_0000) by (nonlinear_arith)
        requires y == over * a, a <= 0x1_0000_0000, over <= 255;
    lemma_round_error(x, 0x2_0000);
    lemma_round_error(y, 0x2_0000);
    let pb = round_binary32(x, 1);
    let po = round_binary32(y, 1);
    assert(x + y <= hi * (f + 512)) by (nonlinear_arith)
        requires
            x == base * inv,
            y == over * a,
            inv + a <= f + 512,
            base <= hi,
            over <= hi,
    ;
    assert(x >= lo * inv) by (nonlinear_arith)
        requires x == base * inv, base >= lo;
    assert(y >= lo * a) by (nonlinear_arith)
        requires y == over * a, over >= lo;
    assert(lo * inv + lo * a + 0x2_0000 >= lo * f) by (nonlinear_arith)
        requires inv + a + 512 >= f, lo <= 255;
    assert(x + y + 0x2_0000 >= lo * f);
    let sum = pb + po;
    assert(sum <= 0x4_0000 * 0x80_0000) by (nonlinear_arith)
        requires sum <= x + y + 0x4_0000, x + y <= hi * (f + 512), hi <= 255, f == 0x1_0000_0000;
    lemma_round_error(sum, 0x4_0000);
    let mixed = round_binary32(sum, 1);
    assert(mixed < (hi + 1) * f) by (nonlinear_arith)
        requires
            mixed <= sum + 0x4_0000,
            sum <= x + y + 0x4_0000,
            x + y <= hi * (f + 512),
            hi <= 255,
            f == 0x1_0000_0000,
    ;
    assert(mixed / f <= hi) by (nonlinear_arith)
        requires mixed < (hi + 1) * f, f > 0;
    if lo > 0 {
        assert(mixed >= (lo - 1) * f) by (nonlinear_arith)
            requires
                sum <= mixed + 0x4_0000,
                x + y <= sum + 0x4_0000,
                x + y + 0x2_0000 >= lo * f,
                lo >= 1,
                f == 0x1_0000_0000,
        ;
        assert(mixed / f >= lo - 1) by (nonlinear_arith)
            requires mixed >= (lo - 1) * f, f > 0, lo >= 1;
    }
}

} // verus!
