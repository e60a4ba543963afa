//! Exact integer model of the binary64 rounding that the generator's
//! scaling steps perform.
//!
//! A binary64 value carries 53 significant bits. Every quantity the
//! generator scales is a non-negative multiple of 2^-53 below 2^128, so it
//! is written here as an integer count of 2^-53 units; rounding such a
//! count to the nearest value with at most 53 significant bits (ties to an
//! even last bit) is exactly what a binary64 multiplication or subtraction
//! does to it, since no value in this range is subnormal or overflows.
use vstd::prelude::*;
use vstd::arithmetic::power2::{pow2, lemma_pow2_unfold, lemma_pow2_pos, lemma2_to64, lemma_pow2_adds, lemma_pow2_strictly_increases};
use vstd::arithmetic::div_mod::{lemma_div_denominator, lemma_fundamental_div_mod, lemma_mod_bound};

verus! {

/// 2^53: one more than the largest 53-bit significand.
pub open spec fn two_53() -> nat {
    0x20_0000_0000_0000
}

/// How many low bits of `v` fall below its 53 most significant bits.
pub open spec fn excess_bits(v: nat) -> nat
    decreases v,
{
    if v < two_53() {
        0
    } else {
        1 + excess_bits(v / 2)
    }
}

#[verifier::opaque]
/// `v` rounded to the nearest integer whose binary form has at most 53
/// significant bits, a tie going to the one whose last kept bit is 0.
pub open spec fn round53(v: nat) -> nat {
    let d = pow2(excess_bits(v));
    let q = v / d;
    let r = v % d;
    if 2 * r > d || (2 * r == d && q % 2 == 1) {
        (q + 1) * d
    } else {
        q * d
    }
}

/// The index that a 53-bit unit fraction `k / 2^53` selects in a range of
/// width `n`: the product `(k / 2^53) * n`, each factor and the product
/// rounded to 53 significant bits, truncated toward zero.
pub open spec fn scaled_index(k: nat, n: nat) -> nat {
    round53(k * round53(n)) / two_53()
}

/// `excess_bits` locates the 53 leading bits of `v`.
pub proof fn lemma_excess_bits(v: nat)
    ensures
        pow2(excess_bits(v)) > 0,
        v / pow2(excess_bits(v)) < two_53(),
        excess_bits(v) > 0 ==> v / pow2((excess_bits(v) - 1) as nat) >= two_53(),
    decreases v,
{
    lemma_pow2_pos(excess_bits(v));
    if v < two_53() {
        lemma2_to64();
    } else {
        let e = excess_bits(v / 2);
        lemma_excess_bits(v / 2);
        lemma_pow2_unfold(e + 1);
        lemma_pow2_pos(e);
        lemma_div_denominator(v as int, 2, pow2(e) as int);
        assert(pow2(e + 1) == 2 * pow2(e));
        assert(excess_bits(v) == e + 1);
        assert((excess_bits(v) - 1) as nat == e);
        if e > 0 {
            lemma_pow2_unfold(e);
            lemma_pow2_pos((e - 1) as nat);
            lemma_div_denominator(v as int, 2, pow2((e - 1) as nat) as int);
            assert(v / pow2(e) >= two_53());
        } else {
            lemma2_to64();
        }
    }
}

/// Rounding moves a value by at most half the spacing of the kept bits, and
/// that spacing is at most `v / 2^52`.
pub proof fn lemma_round53_bounds(v: nat)
    ensures
        v <= round53(v) + pow2(excess_bits(v)) / 2,
        round53(v) <= v + pow2(excess_bits(v)) / 2,
        excess_bits(v) == 0 ==> round53(v) == v,
        excess_bits(v) > 0 ==> pow2(excess_bits(v)) * 0x10_0000_0000_0000 <= v,
        excess_bits(v) > 0 ==> pow2(excess_bits(v)) % 2 == 0,
{
    reveal(round53);
    let e = excess_bits(v);
    let d = pow2(e);
    lemma_excess_bits(v);
    lemma_fundamental_div_mod(v as int, d as int);
    lemma_mod_bound(v as int, d as int);
    let q = v / d;
    let r = v % d;
    assert(v == d * q + r);
    assert((q + 1) * d == d * q + d) by (nonlinear_arith);
    assert(q * d == d * q) by (nonlinear_arith);
    if e == 0 {
        lemma2_to64();
    } else {
        let h = pow2((e - 1) as nat);
        lemma_pow2_unfold(e);
        lemma_pow2_pos((e - 1) as nat);
        assert(d == 2 * h);
        let w = v / h;
        assert(w >= two_53());
        lemma_fundamental_div_mod(v as int, h as int);
        lemma_mod_bound(v as int, h as int);
        assert(v >= h * w);
        assert(h * w >= h * two_53()) by (nonlinear_arith)
            requires w >= two_53(), h > 0;
        assert(d * 0x10_0000_0000_0000 == h * two_53());
    }
}

/// The powers of two that bound the generator's scaled quantities.
pub proof fn lemma_bounding_powers()
    ensures
        pow2(53) == two_53(),
        pow2(64) == 0x1_0000_0000_0000_0000,
        pow2(117) == 0x20_0000_0000_0000_0000_0000_0000_0000,
{
    lemma2_to64();
    lemma_pow2_adds(32, 21);
    lemma_pow2_adds(64, 53);
}

/// A value at most a power of two `2^m` (with `m >= 53`) rounds to at most `2^m`.
pub proof fn lemma_round53_at_most_power(v: nat, m: nat)
    requires
        m >= 53,
        v <= pow2(m),
    ensures
        round53(v) <= pow2(m),
{
    reveal(round53);
    let s = excess_bits(v);
    let d = pow2(s);
    lemma_round53_bounds(v);
    lemma_excess_bits(v);
    if s > m {
        lemma_pow2_strictly_increases(m, s);
        assert(false) by (nonlinear_arith)
            requires d * 0x10_0000_0000_0000 <= v, v <= pow2(m), pow2(m) < d;
    }
    let rest = pow2((m - s) as nat);
    lemma_pow2_adds(s, (m - s) as nat);
    assert(pow2(m) == d * rest);
    lemma_fundamental_div_mod(v as int, d as int);
    lemma_mod_bound(v as int, d as int);
    let q = v / d;
    let r = v % d;
    assert(q * d <= v) by (nonlinear_arith)
        requires v == d * q + r, r >= 0;
    assert(q <= rest) by (nonlinear_arith)
        requires q * d <= v, v <= d * rest, d > 0;
    if q == rest {
        assert(r == 0) by (nonlinear_arith)
            requires v == d * q + r, r >= 0, v <= d * rest, q == rest;
        assert(round53(v) == q * d);
        assert(q * d == pow2(m)) by (nonlinear_arith)
            requires pow2(m) == d * rest, q == rest;
    } else {
        assert((q + 1) * d <= pow2(m)) by (nonlinear_arith)
            requires q + 1 <= rest, pow2(m) == d * rest, d > 0;
        assert(round53(v) <= (q + 1) * d) by (nonlinear_arith)
            requires round53(v) == q * d || round53(v) == (q + 1) * d, d > 0;
    }
}

/// A value at most `t`, where `t` is a multiple of the kept spacing of the
/// value, rounds to at most `t`.
pub proof fn lemma_round53_at_most_multiple(v: nat, t: nat)
    requires
        v <= t,
        t % pow2(excess_bits(v)) == 0,
    ensures
        round53(v) <= t,
{
    reveal(round53);
    let d = pow2(excess_bits(v));
    lemma_excess_bits(v);
    lemma_fundamental_div_mod(v as int, d as int);
    lemma_mod_bound(v as int, d as int);
    lemma_fundamental_div_mod(t as int, d as int);
    let q = v / d;
    let r = v % d;
    let c = t / d;
    assert(t == d * c);
    assert(q * d <= v) by (nonlinear_arith)
        requires v == d * q + r, r >= 0;
    assert(q <= c) by (nonlinear_arith)
        requires q * d <= v, v <= t, t == d * c, d > 0;
    if q == c {
        assert(r == 0) by (nonlinear_arith)
            requires v == d * q + r, r >= 0, v <= t, t == d * c, q == c;
        assert(round53(v) == q * d);
        assert(q * d == t) by (nonlinear_arith)
            requires t == d * c, q == c;
    } else {
        assert((q + 1) * d <= t) by (nonlinear_arith)
            requires q + 1 <= c, t == d * c, d > 0;
        assert(round53(v) <= (q + 1) * d) by (nonlinear_arith)
            requires round53(v) == q * d || round53(v) == (q + 1) * d, d > 0;
    }
}

/// In a non-empty range of any width, the unit fraction `k / 2^53` selects
/// an index below the width, although the width itself may be rounded up.
pub proof fn lemma_scaled_index_below_width(k: nat, n: nat)
    requires
        k < two_53(),
        n > 0,
    ensures
        scaled_index(k, n) < n,
{
    reveal(round53);
    let s = excess_bits(n);
    let d = pow2(s);
    lemma_excess_bits(n);
    lemma_round53_bounds(n);
    lemma_fundamental_div_mod(n as int, d as int);
    lemma_mod_bound(n as int, d as int);
    let q = n / d;
    let r = n % d;
    let np = round53(n);
    if s > 0 {
        let h = pow2((s - 1) as nat);
        lemma_pow2_unfold(s);
        lemma_pow2_pos((s - 1) as nat);
        lemma_div_denominator(n as int, h as int, 2);
        assert(q == (n / h) / 2);
        assert(q >= 0x10_0000_0000_0000);
    }
    if np <= n {
        if s == 0 {
            lemma2_to64();
            assert(np == n);
        } else {
            assert(np == q * d || np == (q + 1) * d);
            assert(np > 0) by (nonlinear_arith)
                requires np == q * d || np == (q + 1) * d, q >= 0x10_0000_0000_0000, d > 0;
        }
        lemma_round53_product_below(k, np);
        assert(round53(k * np) / two_53() < n);
    } else {
        // The width was rounded up to `(q + 1) * d`.
        assert(s > 0) by {
            if s == 0 {
                lemma2_to64();
            }
        }
        let m = q + 1;
        assert(np == m * d);
        assert(2 * r >= d);
        assert(q < two_53());
        lemma_pow2_adds(53, s);
        lemma2_to64();
        lemma_pow2_adds(32, 21);
        let big = pow2(53 + s);
        assert(big == two_53() * d);
        let v = k * np;
        let t = ((m - 1) * big) as nat;
        assert(v <= m * big - m * d) by (nonlinear_arith)
            requires v == k * np, np == m * d, big == two_53() * d, k < two_53(), m > 0, d > 0;
        assert(t < n * two_53()) by (nonlinear_arith)
            requires t == (m - 1) * big, big == two_53() * d, n == d * q + r, 2 * r >= d, m == q + 1,
                d > 0;
        let e = excess_bits(v);
        let dd = pow2(e);
        lemma_excess_bits(v);
        lemma_round53_bounds(v);
        lemma_pow2_pos(e);
        // The kept spacing of `v` is at most `big`.
        if e > 53 + s {
            lemma_pow2_strictly_increases(53 + s, e);
            lemma_pow2_unfold(e);
            lemma_pow2_pos((e - 1) as nat);
            if e - 1 > 53 + s {
                lemma_pow2_strictly_increases(53 + s, (e - 1) as nat);
            }
            assert(dd >= 2 * big);
            assert(false) by (nonlinear_arith)
                requires dd * 0x10_0000_0000_0000 <= v, v <= m * big - m * d, dd >= 2 * big,
                    m <= two_53(), big > 0, d > 0, m > 0;
        }
        lemma_pow2_adds(e, (53 + s - e) as nat);
        let rest = pow2((53 + s - e) as nat);
        assert(big == dd * rest);
        assert(t == dd * ((m - 1) * rest)) by (nonlinear_arith)
            requires t == (m - 1) * big, big == dd * rest;
        vstd::arithmetic::div_mod::lemma_mod_multiples_basic(((m - 1) * rest) as int, dd as int);
        assert(t % dd == 0);
        if v <= t {
            lemma_round53_at_most_multiple(v, t);
        } else {
            // Then `v` lies in the top binade below `m * big`, where the
            // kept spacing is exactly `big`.
            lemma_fundamental_div_mod(v as int, dd as int);
            lemma_mod_bound(v as int, dd as int);
            let qq = v / dd;
            assert(dd * qq + dd <= dd * two_53()) by (nonlinear_arith)
                requires qq + 1 <= two_53(), dd > 0;
            assert(v < two_53() * dd);
            assert(t >= 0x10_0000_0000_0000 * big) by (nonlinear_arith)
                requires t == (m - 1) * big, m - 1 >= 0x10_0000_0000_0000, big > 0;
            if e < 53 + s {
                lemma_pow2_strictly_increases(e, 53 + s);
                lemma_pow2_unfold(53 + s);
                lemma_pow2_pos((52 + s) as nat);
                if e < 52 + s {
                    lemma_pow2_strictly_increases(e, (52 + s) as nat);
                }
                assert(dd <= pow2((52 + s) as nat));
                assert(false) by (nonlinear_arith)
                    requires v < two_53() * dd, v > t, t >= 0x10_0000_0000_0000 * big,
                        big == 2 * pow2((52 + s) as nat), dd <= pow2((52 + s) as nat),
                        two_53() == 0x20_0000_0000_0000;
            }
            assert(dd == big);
            let rr = v % dd;
            assert(qq == m - 1) by (nonlinear_arith)
                requires v == dd * qq + rr, 0 <= rr < dd, v > t, t == (m - 1) * big, dd == big,
                    v <= m * big - m * d, m > 0, d > 0, big > 0;
            assert(2 * rr < dd) by (nonlinear_arith)
                requires v == dd * qq + rr, qq == m - 1, dd == big, v <= m * big - m * d,
                    m >= 0x10_0000_0000_0001, big == two_53() * d, d > 0,
                    two_53() == 0x20_0000_0000_0000;
            assert(round53(v) == qq * dd);
            assert(round53(v) <= t) by (nonlinear_arith)
                requires round53(v) == qq * dd, qq == m - 1, dd == big, t == (m - 1) * big;
        }
        assert(round53(v) < n * two_53());
        assert(round53(v) / two_53() < n) by (nonlinear_arith)
            requires round53(v) < n * two_53(), two_53() > 0;
    }
}

/// Below 2^53 rounding changes nothing, and 2^53 itself is kept.
pub proof fn lemma_round53_small(v: nat)
    requires
        v <= two_53(),
    ensures
        round53(v) == v,
{
    reveal(round53);
    lemma_round53_bounds(v);
    if v == two_53() {
        assert(excess_bits(v / 2) == 0);
        assert(excess_bits(v) == 1);
        lemma_pow2_unfold(1);
        lemma2_to64();
        assert(pow2(1) == 2);
    }
}

/// Rounding never reaches past the multiple of the kept spacing above `v`:
/// a product of a 53-bit unit fraction and a width rounds below the width.
pub proof fn lemma_round53_product_below(k: nat, m: nat)
    requires
        k < two_53(),
        m > 0,
    ensures
        round53(k * m) < m * two_53(),
        round53(k * m) / two_53() < m,
{
    let v = k * m;
    lemma_round53_bounds(v);
    let d = pow2(excess_bits(v));
    assert(v <= m * two_53() - m) by (nonlinear_arith)
        requires v == k * m, k < two_53(), m > 0;
    if excess_bits(v) > 0 {
        assert(d * 0x10_0000_0000_0000 <= v);
        assert(d / 2 < m) by (nonlinear_arith)
            requires d * 0x10_0000_0000_0000 <= v, v <= m * two_53() - m, d % 2 == 0, m > 0,
                two_53() == 0x20_0000_0000_0000;
    }
    assert(round53(v) < m * two_53());
    assert(round53(v) / two_53() < m) by (nonlinear_arith)
        requires round53(v) < m * two_53(), two_53() > 0;
}

/// A width of at most 2^53 yields an index below the width.
pub proof fn lemma_scaled_index_in_range(k: nat, n: nat)
    requires
        k < two_53(),
        n <= two_53(),
    ensures
        n > 0 ==> scaled_index(k, n) < n,
        n == 0 ==> scaled_index(k, n) == 0,
{
    lemma_round53_small(n);
    if n > 0 {
        lemma_round53_product_below(k, n);
    } else {
        assert(k * 0 == 0);
        lemma_round53_small(0);
    }
}

/// Rounds `v` to 53 significant bits (see `round53`).
pub fn round53_exec(v: u128) -> (r: u128)
    requires
        v < 0x100_0000_0000_0000_0000_0000_0000_0000,
    ensures
        r == round53(v as nat),
{
    proof { reveal(round53); }
    let mut w: u128 = v;
    let mut d: u128 = 1;
    let ghost mut s: nat = 0;
    proof { lemma2_to64(); }
    while w >= 0x20_0000_0000_0000
        invariant
            d == pow2(s),
            d > 0,
            w == v / d,
            excess_bits(v as nat) == s + excess_bits(w as nat),
            v < 0x100_0000_0000_0000_0000_0000_0000_0000,
            d <= 0x10_0000_0000_0000_0000,
        decreases w,
    {
        proof {
            lemma_div_denominator(v as int, d as int, 2);
            lemma_pow2_unfold(s + 1);
            lemma_fundamental_div_mod(v as int, d as int);
            lemma_mod_bound(v as int, d as int);
            assert(v >= d * w);
            assert(d * w >= d * 0x20_0000_0000_0000) by (nonlinear_arith)
                requires w >= 0x20_0000_0000_0000, d > 0;
        }
        w = w / 2;
        d = d * 2;
        proof {
            s = s + 1;
        }
    }
    proof {
        lemma_fundamental_div_mod(v as int, d as int);
        lemma_mod_bound(v as int, d as int);
    }
    let q = w;
    let rem = v % d;
    assert(q * d <= v) by (nonlinear_arith)
        requires v == d * q + rem, rem >= 0;
    if 2 * rem > d || (2 * rem == d && q % 2 == 1) {
        assert((q + 1) * d <= 0x20_0000_0000_0000 * d) by (nonlinear_arith)
            requires q < 0x20_0000_0000_0000, d > 0;
        (q + 1) * d
    } else {
        q * d
    }
}

/// The index that the unit fraction `k / 2^53` selects in a range of width
/// `n` (see `scaled_index`).
pub fn scaled_index_exec(k: u64, n: u64) -> (r: u128)
    requires
        k < 0x20_0000_0000_0000,
    ensures
        r == scaled_index(k as nat, n as nat),
{
    proof {
        lemma_round53_bounds(n as nat);
    }
    let width = round53_exec(n as u128);
    assert(width <= 0x2_0000_0000_0000_0000) by (nonlinear_arith)
        requires width <= n + pow2(excess_bits(n as nat)) / 2,
            excess_bits(n as nat) > 0 ==> pow2(excess_bits(n as nat)) * 0x10_0000_0000_0000 <= n,
            excess_bits(n as nat) == 0 ==> width == n,
            n < 0x1_0000_0000_0000_0000;
    assert((k as u128) * width < 0x100_0000_0000_0000_0000_0000_0000_0000) by (nonlinear_arith)
        requires k < 0x20_0000_0000_0000, width <= 0x2_0000_0000_0000_0000;
    let product = round53_exec((k as u128) * width);
    product / 0x20_0000_0000_0000
}

} // verus!
