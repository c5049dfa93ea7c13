//! Numbers with 53 significant bits, in whole number arithmetic.
//!
//! A quotient is rounded to the nearest number of the form `m * 2^e` with
//! `2^52 <= m <= 2^53`, a tie to the even `m`. That is how a number becomes an IEEE 754
//! double, as long as it is neither too large nor too small for one.
use vstd::arithmetic::div_mod::*;
use vstd::arithmetic::power::*;
use vstd::arithmetic::power2::*;
use vstd::prelude::*;

verus! {

/// 2 to the power of 52.
pub const TWO_52: u64 = 0x10_0000_0000_0000;

/// 2 to the power of 53.
pub const TWO_53: u64 = 0x20_0000_0000_0000;

/// The whole number nearest to `a / b`, a tie to the even one.
pub open spec fn half_even(a: nat, b: nat) -> nat {
    let q = a / b;
    let r = a % b;
    if 2 * r < b || (2 * r == b && q % 2 == 0) {
        q
    } else {
        q + 1
    }
}

/// How far `a / b` is from having a whole part of 53 bits.
pub open spec fn distance(a: nat, b: nat) -> nat {
    if a < TWO_52 * b {
        (TWO_52 * b - a) as nat
    } else if a >= TWO_53 * b {
        (a - TWO_53 * b + 1) as nat
    } else {
        0
    }
}

/// `a / b` rounded to 53 significant bits: `m` and `e` of `m * 2^e`.
///
/// The quotient is doubled or halved until its whole part has 53 bits, and is then
/// rounded to a whole number.
pub open spec fn rounded(a: nat, b: nat) -> (nat, int)
    decreases distance(a, b),
{
    if a == 0 || b == 0 {
        (0, 0)
    } else if a < TWO_52 * b {
        let r = rounded(2 * a, b);
        (r.0, r.1 - 1)
    } else if a >= TWO_53 * b {
        let r = rounded(a, 2 * b);
        (r.0, r.1 + 1)
    } else {
        (half_even(a, b), 0)
    }
}

/// The whole part of `m * 2^e`.
pub open spec fn whole(m: nat, e: int) -> nat {
    if e >= 0 {
        m * pow2(e as nat)
    } else {
        m / pow2((-e) as nat)
    }
}

/// `n`, or the largest `u64` if `n` is larger.
pub open spec fn capped(n: nat) -> u64 {
    if n <= u64::MAX {
        n as u64
    } else {
        u64::MAX
    }
}

/// Rounding to a whole number moves by half of one at most.
pub proof fn lemma_half_even(a: nat, b: nat)
    requires
        b > 0,
    ensures
        2 * a - b <= 2 * (half_even(a, b) * b) <= 2 * a + b,
        a / b <= half_even(a, b) <= a / b + 1,
{
    lemma_fundamental_div_mod(a as int, b as int);
    let q = a / b;
    let r = a % b;
    assert(half_even(a, b) == q || half_even(a, b) == q + 1);
    assert(b * q == q * b) by (nonlinear_arith);
    assert((q + 1) * b == q * b + b) by (nonlinear_arith);
}

/// 2 to the power of `e`, or 1 if `e` is negative.
pub open spec fn pow2_up(e: int) -> nat {
    if e >= 0 {
        pow2(e as nat)
    } else {
        1
    }
}

/// A positive quotient and its rounded value `m * 2^e` differ by half a unit `2^e` at most,
/// and `m` has 53 bits, or is the next power of two.
pub proof fn lemma_rounded(a: nat, b: nat)
    requires
        a > 0,
        b > 0,
    ensures
        ({
            let (m, e) = rounded(a, b);
            let exact = a * pow2_up(-e);
            let unit = b * pow2_up(e);
            &&& TWO_52 <= m <= TWO_53
            &&& m == half_even(exact, unit)
            &&& TWO_52 * unit <= exact < TWO_53 * unit
            &&& 2 * exact - unit <= 2 * (m * unit) <= 2 * exact + unit
        }),
    decreases distance(a, b),
{
    broadcast use lemma_pow2_pos;

    lemma2_to64();
    let (m, e) = rounded(a, b);
    if a < TWO_52 * b {
        lemma_rounded(2 * a, b);
        lemma_exponent_sign(2 * a, b);
        lemma_pow2_unfold((-e) as nat);
        let p = pow2((-e - 1) as nat);
        assert(pow2_up(-e) == 2 * p);
        assert(pow2_up(-(e + 1)) == p);
        assert(pow2_up(e) == 1 && pow2_up(e + 1) == 1);
        assert((2 * a) * p == a * (2 * p)) by (nonlinear_arith);
    } else if a >= TWO_53 * b {
        lemma_rounded(a, 2 * b);
        lemma_exponent_sign(a, 2 * b);
        lemma_pow2_unfold(e as nat);
        let p = pow2((e - 1) as nat);
        assert(pow2_up(e) == 2 * p);
        assert(pow2_up(e - 1) == p);
        assert(pow2_up(-e) == 1 && pow2_up(-(e - 1)) == 1);
        assert((2 * b) * p == b * (2 * p)) by (nonlinear_arith);
    } else {
        lemma_half_even(a, b);
        assert(a / b >= TWO_52) by (nonlinear_arith)
            requires
                a >= TWO_52 * b,
                b > 0,
        ;
        assert(a / b < TWO_53) by (nonlinear_arith)
            requires
                a < TWO_53 * b,
                b > 0,
        ;
        assert(a * pow2_up(0) == a) by (nonlinear_arith)
            requires
                pow2_up(0) == 1,
        ;
        assert(b * pow2_up(0) == b) by (nonlinear_arith)
            requires
                pow2_up(0) == 1,
        ;
    }
}

/// Doubling leaves an exponent of at most 0, halving one of at least 0.
proof fn lemma_exponent_sign(a: nat, b: nat)
    requires
        a > 0,
        b > 0,
    ensures
        a < TWO_53 * b ==> rounded(a, b).1 <= 0,
        a >= TWO_52 * b ==> rounded(a, b).1 >= 0,
    decreases distance(a, b),
{
    if a < TWO_52 * b {
        lemma_exponent_sign(2 * a, b);
    } else if a >= TWO_53 * b {
        lemma_exponent_sign(a, 2 * b);
    }
}

/// The whole part of the rounded `a / b` times `2^k`, or the largest `u64` if that is larger.
pub open spec fn scaled_whole(a: nat, b: nat, k: nat) -> u64 {
    let (m, e) = rounded(a, b);
    capped(whole(m, e + k))
}

/// A quotient of at least `2^(53 + j)` gets an exponent above `j`.
proof fn lemma_exponent_high(a: nat, b: nat, j: nat)
    requires
        b > 0,
        a >= TWO_53 * (b * pow2(j)),
    ensures
        rounded(a, b).1 > j,
    decreases j,
{
    broadcast use lemma_pow2_pos;

    lemma2_to64();
    assert(b * pow2(j) >= b) by (nonlinear_arith)
        requires
            pow2(j) >= 1,
    ;
    if j > 0 {
        lemma_pow2_unfold(j);
        let p = pow2((j - 1) as nat);
        assert((2 * b) * p == b * (2 * p)) by (nonlinear_arith);
        lemma_exponent_high(a, 2 * b, (j - 1) as nat);
    } else {
        lemma_exponent_sign(a, 2 * b);
    }
}

/// A quotient under `2^(52 - j)` gets an exponent under `-j`.
proof fn lemma_exponent_low(a: nat, b: nat, j: nat)
    requires
        a > 0,
        b > 0,
        a * pow2(j) < TWO_52 * b,
    ensures
        rounded(a, b).1 < -j,
    decreases j,
{
    broadcast use lemma_pow2_pos;

    lemma2_to64();
    assert(a * pow2(j) >= a) by (nonlinear_arith)
        requires
            pow2(j) >= 1,
    ;
    if j > 0 {
        lemma_pow2_unfold(j);
        let p = pow2((j - 1) as nat);
        assert((2 * a) * p == a * (2 * p)) by (nonlinear_arith);
        lemma_exponent_low(2 * a, b, (j - 1) as nat);
    } else {
        lemma_exponent_sign(2 * a, b);
    }
}

/// A quotient of `2^64` or more saturates.
pub proof fn lemma_saturates(a: nat, b: nat, k: nat)
    requires
        b > 0,
        a >= 0x1_0000_0000_0000_0000 * b,
    ensures
        scaled_whole(a, b, k) == u64::MAX,
{
    broadcast use lemma_pow2_pos;

    lemma2_to64();
    lemma2_to64_rest();
    assert(a >= TWO_53 * (b * pow2(11))) by (nonlinear_arith)
        requires
            pow2(11) == 0x800,
            a >= 0x1_0000_0000_0000_0000 * b,
    ;
    lemma_exponent_high(a, b, 11);
    lemma_rounded(a, b);
    let (m, e) = rounded(a, b);
    let n = (e + k) as nat;
    if n > 12 {
        lemma_pow2_strictly_increases(12, n);
    }
    assert(m * pow2(n) >= 0x1_0000_0000_0000_0000) by (nonlinear_arith)
        requires
            m >= TWO_52,
            pow2(n) >= 0x1000,
    ;
}

/// A quotient under `2^-41` has no whole part, even once multiplied by `2^40`.
pub proof fn lemma_vanishes(a: nat, b: nat, k: nat)
    requires
        b > 0,
        k <= 40,
        a * pow2(93) < TWO_52 * b,
    ensures
        scaled_whole(a, b, k) == 0,
{
    broadcast use lemma_pow2_pos;

    lemma2_to64();
    lemma2_to64_rest();
    if a > 0 {
        lemma_exponent_low(a, b, 93);
        lemma_rounded(a, b);
        let (m, e) = rounded(a, b);
        let n = (-(e + k)) as nat;
        lemma_pow2_strictly_increases(53, n);
        lemma_basic_div(m as int, pow2(n) as int);
    } else {
        assert(0 * pow2(k) == 0);
    }
}

/// Dividing by `d * p` splits the quotient by `d` once more by `p`.
proof fn lemma_divide_twice(i: nat, d: nat, f: nat, p: nat)
    requires
        f < d,
        p > 0,
    ensures
        (i * d + f) / (d * p) == i / p,
        (i * d + f) % (d * p) == (i % p) * d + f,
{
    let q = (i / p) as int;
    let r = (i % p) as int;
    lemma_fundamental_div_mod(i as int, p as int);
    assert(i * d + f == q * (d * p) + (r * d + f)) by (nonlinear_arith)
        requires
            i == p * q + r,
    ;
    assert(0 <= r * d + f < d * p) by (nonlinear_arith)
        requires
            0 <= r <= p - 1,
            0 <= f < d,
    ;
    lemma_fundamental_div_mod_converse((i * d + f) as int, (d * p) as int, q, r * d + f);
}

/// How the rest of the division by `d * 2h` compares with half the divisor.
proof fn lemma_compare_half(r: nat, d: nat, f: nat, h: nat)
    requires
        f < d,
        h > 0,
    ensures
        2 * (r * d + f) < d * (2 * h) <==> r < h,
        2 * (r * d + f) == d * (2 * h) <==> r == h && f == 0,
{
    assert(d * (2 * h) == 2 * (h * d)) by (nonlinear_arith);
    if r < h {
        assert(r * d + f < h * d) by (nonlinear_arith)
            requires
                r + 1 <= h,
                f < d,
        ;
    } else if r > h {
        assert(r * d >= h * d + d) by (nonlinear_arith)
            requires
                r >= h + 1,
        ;
    }
}

/// Rounds `i` with a part below one behind it, of which it only matters whether there is any.
pub(crate) fn round_high(i: u128, below: bool, Ghost(d): Ghost<nat>, Ghost(f): Ghost<nat>) -> (r: (u64, u32))
    requires
        TWO_53 <= i < 0x1_0000_0000_0000_0000_0000,
        f < d,
        below == (f != 0),
    ensures
        (r.0 as nat, r.1 as int) == rounded((i * d + f) as nat, d),
        1 <= r.1 <= 27,
{
    let ghost a = (i * d + f) as nat;
    let mut q: u128 = i;
    let mut p: u128 = 1;
    let mut e: u32 = 0;
    proof {
        lemma2_to64();
        assert(i * d >= 1) by (nonlinear_arith)
            requires
                i >= 1,
                d >= 1,
        ;
    }
    while q >= TWO_53 as u128
        invariant
            f < d,
            TWO_53 <= i < 0x1_0000_0000_0000_0000_0000,
            a == i * d + f,
            a > 0,
            p == pow2(e as nat),
            p > 0,
            q == i / p,
            e <= 27,
            e == 0 ==> q == i,
            q >= TWO_52,
            rounded(a, d) == (
                rounded(a, (d * p) as nat).0,
                rounded(a, (d * p) as nat).1 + e,
            ),
        decreases q,
    {
        proof {
            lemma2_to64();
            lemma_divide_twice(i as nat, d, f, p as nat);
            lemma_pow2_unfold((e + 1) as nat);
            assert(d * p > 0) by (nonlinear_arith)
                requires
                    d > 0,
                    p > 0,
            ;
            let b = (d * p) as nat;
            lemma_fundamental_div_mod(a as int, b as int);
            assert(a >= TWO_53 * b) by (nonlinear_arith)
                requires
                    a == b * (a / b) + a % b,
                    a / b >= TWO_53,
                    a % b >= 0,
            ;
            assert(2 * b == d * (2 * p)) by (nonlinear_arith)
                requires
                    b == d * p,
            ;
            lemma_div_denominator(i as int, p as int, 2);
            assert(p * 2 == 2 * p);
            lemma_fundamental_div_mod(i as int, p as int);
            assert(p < 0x800_0000) by (nonlinear_arith)
                requires
                    i < 0x1_0000_0000_0000_0000_0000,
                    q >= TWO_53,
                    i >= p * q,
            ;
            if e >= 27 {
                if e > 27 {
                    lemma_pow2_strictly_increases(27, e as nat);
                }
            }
        }
        q = q / 2;
        p = 2 * p;
        e = e + 1;
    }
    let low: u128 = i % p;
    let h: u128 = p / 2;
    let up: bool = low > h || (low == h && (below || q % 2 == 1));
    proof {
        lemma_pow2_unfold(e as nat);
        assert(p == 2 * h);
        lemma_divide_twice(i as nat, d, f, p as nat);
        lemma_compare_half(low as nat, d, f, h as nat);
        let b = (d * p) as nat;
        assert(b > 0) by (nonlinear_arith)
            requires
                d > 0,
                p > 0,
                b == d * p,
        ;
        lemma_fundamental_div_mod(a as int, b as int);
        assert(TWO_52 * b <= a < TWO_53 * b) by (nonlinear_arith)
            requires
                a == b * (a / b) + a % b,
                TWO_52 <= a / b < TWO_53,
                0 <= a % b < b,
        ;
    }
    if up {
        ((q + 1) as u64, e)
    } else {
        (q as u64, e)
    }
}

/// The whole part of `m * 2^e`, or the largest `u64` if that is larger.
pub fn whole_of(m: u64, e: i64) -> (r: u64)
    ensures
        r == capped(whole(m as nat, e as int)),
{
    if m == 0 {
        proof {
            broadcast use lemma_pow2_pos;

            if e < 0 {
                lemma_basic_div(0, pow2((-e) as nat) as int);
            }
        }
        return 0;
    }
    let mut x: u128 = m as u128;
    if e >= 0 {
        let mut n: i64 = 0;
        proof {
            lemma2_to64();
            assert(m * pow2(0) == m) by (nonlinear_arith)
                requires
                    pow2(0) == 1,
            ;
        }
        while n < e && x <= u64::MAX as u128
            invariant
                0 <= n <= e,
                x == m * pow2(n as nat),
                1 <= x <= 2 * (u64::MAX as u128),
            decreases e - n,
        {
            proof {
                lemma_pow2_unfold((n + 1) as nat);
                let p = pow2(n as nat);
                assert(m * (2 * p) == 2 * (m * p)) by (nonlinear_arith);
            }
            x = 2 * x;
            n += 1;
        }
        if n < e {
            proof {
                lemma_pow2_strictly_increases(n as nat, e as nat);
                let (p, q) = (pow2(n as nat), pow2(e as nat));
                assert(m * p <= m * q) by (nonlinear_arith)
                    requires
                        p <= q,
                ;
            }
            return u64::MAX;
        }
    } else {
        let mut n: i64 = 0;
        proof {
            lemma2_to64();
            assert(m / 1 == m);
        }
        while n > e && x > 0
            invariant
                e <= n <= 0,
                x == m as nat / pow2((-n) as nat),
                x <= m,
            decreases n - e,
        {
            proof {
                broadcast use lemma_pow2_pos;

                lemma_pow2_unfold((1 - n) as nat);
                let p = pow2((-n) as nat) as int;
                lemma_div_denominator(m as int, p, 2);
                assert(p * 2 == 2 * p);
            }
            x = x / 2;
            n -= 1;
        }
        proof {
            if n > e {
                broadcast use lemma_pow2_pos;

                let (p, q) = (pow2((-n) as nat), pow2((-e) as nat));
                lemma_pow2_strictly_increases((-n) as nat, (-e) as nat);
                lemma_fundamental_div_mod(m as int, p as int);
                lemma_mod_bound(m as int, p as int);
                assert(p * (m as nat / p) == 0) by (nonlinear_arith)
                    requires
                        m as nat / p == 0,
                ;
                lemma_basic_div(m as int, q as int);
            }
        }
    }
    if x <= u64::MAX as u128 {
        x as u64
    } else {
        u64::MAX
    }
}

/// The whole part of the double with the bit pattern `bits`: 0 for one that is negative or
/// no number, the largest `u64` for one that is too large for it.
pub open spec fn whole_of_pattern(bits: u64) -> u64 {
    let sign = bits / 0x8000_0000_0000_0000;
    let exponent = bits / TWO_52 % 0x800;
    let fraction = bits % TWO_52;
    if exponent == 0x7ff {
        if sign == 0 && fraction == 0 {
            u64::MAX
        } else {
            0
        }
    } else if sign == 1 || exponent == 0 {
        0
    } else {
        capped(whole((TWO_52 + fraction) as nat, exponent - 1075))
    }
}

/// The whole part of the double with the bit pattern `bits`.
pub fn truncated(bits: u64) -> (r: u64)
    ensures
        r == whole_of_pattern(bits),
{
    let sign: u64 = bits / 0x8000_0000_0000_0000;
    let exponent: u64 = bits / TWO_52 % 0x800;
    let fraction: u64 = bits % TWO_52;
    if exponent == 0x7ff {
        if sign == 0 && fraction == 0 {
            u64::MAX
        } else {
            0
        }
    } else if sign == 1 || exponent == 0 {
        0
    } else {
        whole_of(TWO_52 + fraction, exponent as i64 - 1075)
    }
}

/// `n` rounded to 53 significant bits.
pub open spec fn nearest(n: nat) -> nat {
    let (m, e) = rounded(n, 1);
    whole(m, e)
}

/// A number of at most 53 bits is exact.
proof fn lemma_exact(n: nat)
    requires
        0 < n < TWO_53,
    ensures
        rounded(n, 1).1 <= 0,
        rounded(n, 1).0 == n * pow2((-rounded(n, 1).1) as nat),
    decreases distance(n, 1),
{
    lemma2_to64();
    if n < TWO_52 {
        lemma_exact(2 * n);
        let e = rounded(n, 1).1;
        lemma_pow2_unfold((-e) as nat);
        let p = pow2((-e - 1) as nat);
        assert((2 * n) * p == n * (2 * p)) by (nonlinear_arith);
    } else {
        assert(n % 1 == 0);
        assert(n * pow2(0) == n);
    }
}

/// Numbers of up to 53 bits round to themselves.
pub proof fn lemma_nearest_exact(n: nat)
    requires
        n < TWO_53,
    ensures
        nearest(n) == n,
{
    broadcast use lemma_pow2_pos;

    lemma2_to64();
    if n == 0 {
        assert(0 * pow2(0) == 0);
    } else {
        lemma_exact(n);
        let e = rounded(n, 1).1;
        let p = pow2((-e) as nat);
        if e == 0 {
            assert(n * pow2(0) == n);
        } else {
            lemma_div_multiples_vanish(n as int, p as int);
        }
    }
}

/// `n` rounded to 53 significant bits.
pub fn nearest_of(n: u64) -> (r: u128)
    ensures
        r == nearest(n as nat),
        r <= 0x1_0000_0000_0000_0000_0000,
{
    if n < TWO_53 {
        proof {
            lemma_nearest_exact(n as nat);
        }
        return n as u128;
    }
    let (m, e) = round_high(n as u128, false, Ghost(1), Ghost(0));
    let mut x: u128 = m as u128;
    let mut k: u32 = 0;
    proof {
        lemma2_to64();
        lemma_rounded(n as nat, 1);
    }
    while k < e
        invariant
            k <= e <= 27,
            x == m * pow2(k as nat),
            m <= TWO_53,
            pow2(k as nat) <= 0x800_0000,
            x <= 0x20_0000_0000_0000 * 0x800_0000,
        decreases e - k,
    {
        proof {
            lemma2_to64();
            lemma_pow2_unfold((k + 1) as nat);
            let p = pow2(k as nat);
            assert(m * (2 * p) == 2 * (m * p)) by (nonlinear_arith);
            if k + 1 < 27 {
                lemma_pow2_strictly_increases((k + 1) as nat, 27);
            }
            assert(m * (2 * p) <= 0x20_0000_0000_0000 * 0x800_0000) by (nonlinear_arith)
                requires
                    m <= TWO_53,
                    2 * p <= 0x800_0000,
            ;
        }
        x = 2 * x;
        k += 1;
    }
    x
}

/// A number of up to 53 bits is multiplied by a power of two exactly.
pub proof fn lemma_scaled_exact(n: nat, k: nat)
    requires
        n < TWO_53,
    ensures
        scaled_whole(n, 1, k) == capped(n * pow2(k)),
{
    broadcast use lemma_pow2_pos;

    if n == 0 {
        assert(0 * pow2(k) == 0);
    } else {
        lemma_exact(n);
        let (m, e) = rounded(n, 1);
        let j = (-e) as nat;
        if e + k >= 0 {
            let i = (e + k) as nat;
            lemma_pow2_adds(j, i);
            let (p, q) = (pow2(j), pow2(i));
            assert((n * p) * q == n * (p * q)) by (nonlinear_arith);
        } else {
            let i = (-(e + k)) as nat;
            lemma_pow2_adds(k, i);
            let (p, q) = (pow2(k), pow2(i));
            assert(n * (p * q) == (n * p) * q) by (nonlinear_arith);
            lemma_div_multiples_vanish((n * p) as int, q as int);
            assert((n * p) * q == q * (n * p)) by (nonlinear_arith);
        }
    }
}

/// Rounding to a whole number depends on the quotient alone.
proof fn lemma_half_even_reduced(a: nat, b: nat, c: nat)
    requires
        b > 0,
        c > 0,
    ensures
        half_even(c * a, c * b) == half_even(a, b),
{
    lemma_div_multiples_vanish_quotient(c as int, a as int, b as int);
    lemma_truncate_middle(a as int, c as int, b as int);
    let r = a % b;
    assert(2 * (c * r) < c * b <==> 2 * r < b) by (nonlinear_arith)
        requires
            c > 0,
    ;
    assert(2 * (c * r) == c * b <==> 2 * r == b) by (nonlinear_arith)
        requires
            c > 0,
    ;
}

/// Rounding depends on the quotient alone.
pub proof fn lemma_rounded_reduced(a: nat, b: nat, c: nat)
    requires
        b > 0,
        c > 0,
    ensures
        rounded(c * a, c * b) == rounded(a, b),
    decreases distance(a, b),
{
    assert(c * a == 0 <==> a == 0) by (nonlinear_arith)
        requires
            c > 0,
    ;
    assert(c * b > 0) by (nonlinear_arith)
        requires
            c > 0,
            b > 0,
    ;
    assert(c * a < TWO_52 * (c * b) <==> a < TWO_52 * b) by (nonlinear_arith)
        requires
            c > 0,
    ;
    assert(c * a < TWO_53 * (c * b) <==> a < TWO_53 * b) by (nonlinear_arith)
        requires
            c > 0,
    ;
    if a > 0 {
        if a < TWO_52 * b {
            assert(2 * (c * a) == c * (2 * a)) by (nonlinear_arith);
            lemma_rounded_reduced(2 * a, b, c);
        } else if a >= TWO_53 * b {
            assert(2 * (c * b) == c * (2 * b)) by (nonlinear_arith);
            lemma_rounded_reduced(a, 2 * b, c);
        } else {
            lemma_half_even_reduced(a, b, c);
        }
    }
}

/// The whole part of `m * 2^(k - j)`, with powers of two in place of the exponents.
pub proof fn lemma_whole_bounds(m: nat, j: nat, k: nat)
    ensures
        whole(m, k - j) * pow2(j) <= m * pow2(k) < whole(m, k - j) * pow2(j) + pow2(j),
{
    broadcast use lemma_pow2_pos;

    let (p, q) = (pow2(k), pow2(j));
    let w = whole(m, k - j);
    if k >= j {
        let i = (k - j) as nat;
        lemma_pow2_adds(i, j);
        let x = pow2(i);
        assert((m * x) * q == m * (x * q)) by (nonlinear_arith);
    } else {
        let i = (j - k) as nat;
        lemma_pow2_adds(i, k);
        let x = pow2(i);
        lemma_fundamental_div_mod(m as int, x as int);
        lemma_mod_bound(m as int, x as int);
        assert(w * (x * p) <= m * p < w * (x * p) + x * p) by (nonlinear_arith)
            requires
                w * x <= m < w * x + x,
                p > 0,
        ;
        assert(x * w == w * x) by (nonlinear_arith);
    }
}

/// A quotient that is rounded to 53 bits, multiplied by `2^k` and cut off to a whole number is
/// off by less than two, as long as the product is hardly longer than 53 bits.
pub proof fn lemma_scaled_error(a: nat, b: nat, k: nat)
    requires
        0 < a < TWO_53 * b,
        a * pow2(k) <= 3 * (TWO_52 * b),
    ensures
        ({
            let (m, e) = rounded(a, b);
            a * pow2(k) - 2 * b < whole(m, e + k) * b <= a * pow2(k) + b
        }),
{
    broadcast use lemma_pow2_pos;

    let (m, e) = rounded(a, b);
    lemma_rounded(a, b);
    lemma_exponent_sign(a, b);
    let j = (-e) as nat;
    let (p, q) = (pow2(k), pow2(j));
    let w = whole(m, e + k);
    lemma2_to64();
    assert(b * pow2_up(e) == b) by (nonlinear_arith)
        requires
            pow2_up(e) == 1,
    ;
    assert(2 * (a * q) >= 2 * (TWO_52 * b) - b && 2 * (a * q) <= 2 * (m * b) + b) by (nonlinear_arith)
        requires
            2 * (a * q) - b <= 2 * (m * b) <= 2 * (a * q) + b,
            m >= TWO_52,
    ;
    assert(p <= 2 * q) by {
        lemma_pow2_unfold(j + 1);
        lemma_pow2_unfold(j + 2);
        if k > j + 1 {
            if k > j + 2 {
                lemma_pow2_strictly_increases(j + 2, k);
            }
            assert(a * p >= 4 * (a * q)) by (nonlinear_arith)
                requires
                    p >= 4 * q,
            ;
            assert(4 * (a * q) > 3 * (TWO_52 * b)) by (nonlinear_arith)
                requires
                    2 * (a * q) >= 2 * (TWO_52 * b) - b,
                    b > 0,
            ;
        } else if k < j + 1 {
            lemma_pow2_strictly_increases(k, j + 1);
        }
    }
    lemma_whole_bounds(m, j, k);
    assert(w * b <= a * p + b) by (nonlinear_arith)
        requires
            w * q <= m * p,
            2 * (m * b) <= 2 * (a * q) + b,
            0 < p <= 2 * q,
    ;
    assert(a * p - 2 * b < w * b) by (nonlinear_arith)
        requires
            m * p < w * q + q,
            2 * (a * q) <= 2 * (m * b) + b,
            0 < p <= 2 * q,
            b > 0,
    ;
}

/// Infinity, counted as [`double_units`] does: 2 to the power of 1024 in multiples of
/// `2^-1074`.
pub open spec fn infinite_units() -> nat {
    pow2(2098)
}

/// The double nearest to `a / b`, a tie to the even one, in multiples of the smallest positive
/// double, which is `2^-1074`. A number that is too large for a double gives infinity, one that
/// is too small for 53 bits keeps as many of them as lie above `2^-1074`.
pub open spec fn double_units(a: nat, b: nat) -> nat {
    let (m, e) = rounded(a, b);
    if e < -1074 {
        half_even(a * pow2(1074), b)
    } else {
        let units = m * pow2((e + 1074) as nat);
        if units < infinite_units() {
            units
        } else {
            infinite_units()
        }
    }
}

/// A quotient of at least `2^(52 - j)` gets an exponent of at least `-j`.
proof fn lemma_exponent_not_low(a: nat, b: nat, j: nat)
    requires
        a > 0,
        b > 0,
        a * pow2(j) >= TWO_52 * b,
    ensures
        rounded(a, b).1 >= -j,
    decreases j,
{
    lemma2_to64();
    lemma_exponent_sign(a, b);
    if a < TWO_52 * b && j > 0 {
        lemma_pow2_unfold(j);
        let p = pow2((j - 1) as nat);
        assert((2 * a) * p == a * (2 * p)) by (nonlinear_arith);
        lemma_exponent_not_low(2 * a, b, (j - 1) as nat);
    } else if j == 0 {
        assert(a * pow2(0) == a) by (nonlinear_arith)
            requires
                pow2(0) == 1,
        ;
    }
}

/// A double below the smallest one with 53 bits is a multiple of `2^-1074` under `2^52`.
proof fn lemma_small_double(a: nat, b: nat)
    requires
        b > 0,
        rounded(a, b).1 < -1074,
    ensures
        a * pow2(1074) < TWO_52 * b,
        half_even(a * pow2(1074), b) <= TWO_52,
{
    if a * pow2(1074) >= TWO_52 * b {
        lemma_exponent_not_low(a, b, 1074);
    }
    let x = a * pow2(1074);
    lemma_half_even(x, b);
    assert(x / b < TWO_52) by (nonlinear_arith)
        requires
            x < TWO_52 * b,
            b > 0,
    ;
}

/// The whole part of `m * 2^(e + k)` in multiples of `2^-1074`.
proof fn lemma_whole_units(m: nat, e: int, k: nat)
    requires
        e >= -1074,
    ensures
        whole(m, e + k) == m * pow2((e + 1074) as nat) * pow2(k) / pow2(1074),
{
    broadcast use lemma_pow2_pos;

    let (x, p, one) = (pow2((e + 1074) as nat), pow2(k), pow2(1074));
    lemma_pow2_adds((e + 1074) as nat, k);
    let y = pow2((e + 1074) as nat + k);
    assert(m * x * p == m * y) by (nonlinear_arith)
        requires
            y == x * p,
    ;
    if e + k >= 0 {
        let i = (e + k) as nat;
        lemma_pow2_adds(i, 1074);
        let z = pow2(i);
        assert(m * (z * one) == one * (m * z)) by (nonlinear_arith);
        lemma_div_multiples_vanish((m * z) as int, one as int);
    } else {
        let i = (-(e + k)) as nat;
        lemma_pow2_adds((e + 1074) as nat + k, i);
        let z = pow2(i);
        assert(m * y == y * m) by (nonlinear_arith);
        lemma_div_multiples_vanish_quotient(y as int, m as int, z as int);
    }
}

/// What a quotient gives once it is multiplied and cut off to a whole number depends on the
/// double that it rounds to, and on nothing else.
pub proof fn lemma_scaled_by_double(a: nat, b: nat, k: nat)
    requires
        b > 0,
        k <= 40,
    ensures
        scaled_whole(a, b, k) == capped(double_units(a, b) * pow2(k) / pow2(1074)),
{
    broadcast use lemma_pow2_pos;

    let (m, e) = rounded(a, b);
    let (p, one) = (pow2(k), pow2(1074));
    lemma2_to64();
    lemma2_to64_rest();
    if e < -1074 {
        lemma_small_double(a, b);
        lemma_pow2_strictly_increases(93, 1074);
        assert(a * pow2(93) <= a * one) by (nonlinear_arith)
            requires
                pow2(93) <= one,
        ;
        lemma_vanishes(a, b, k);
        if k < 40 {
            lemma_pow2_strictly_increases(k, 40);
        }
        lemma_pow2_adds(40, 52);
        lemma_pow2_strictly_increases(92, 1074);
        let u = double_units(a, b);
        assert(u * p <= pow2(40) * pow2(52)) by (nonlinear_arith)
            requires
                u <= TWO_52,
                p <= pow2(40),
                TWO_52 == pow2(52),
        ;
        lemma_basic_div((u * p) as int, one as int);
    } else {
        lemma_whole_units(m, e, k);
        let u = m * pow2((e + 1074) as nat);
        if u >= infinite_units() {
            lemma_infinite_scaled(u, k);
            lemma_infinite_scaled(infinite_units(), k);
        }
    }
}

/// Infinity, and what is even larger, stays beyond the largest `u64`.
pub proof fn lemma_infinite_scaled(u: nat, k: nat)
    requires
        u >= infinite_units(),
    ensures
        u * pow2(k) / pow2(1074) > u64::MAX,
{
    broadcast use lemma_pow2_pos;

    lemma2_to64_rest();
    lemma_pow2_adds(1024, 1074);
    lemma_pow2_strictly_increases(64, 1024);
    let (p, one, far) = (pow2(k), pow2(1074), pow2(1024));
    assert(u * p >= far * one) by (nonlinear_arith)
        requires
            u >= far * one,
            p >= 1,
    ;
    lemma_div_is_ordered((far * one) as int, (u * p) as int, one as int);
    lemma_div_multiples_vanish(far as int, one as int);
    assert(far * one == one * far) by (nonlinear_arith);
}

/// A larger double gives as much or more.
pub proof fn lemma_scaled_grows(u: nat, v: nat, k: nat)
    requires
        u <= v,
    ensures
        capped(u * pow2(k) / pow2(1074)) <= capped(v * pow2(k) / pow2(1074)),
{
    broadcast use lemma_pow2_pos;

    let p = pow2(k);
    assert(u * p <= v * p) by (nonlinear_arith)
        requires
            u <= v,
    ;
    lemma_div_is_ordered((u * p) as int, (v * p) as int, pow2(1074) as int);
}

/// A larger quotient does not round to a smaller whole number.
proof fn lemma_half_even_grows(a: nat, b: nat, c: nat, d: nat)
    requires
        b > 0,
        d > 0,
        a * d <= c * b,
    ensures
        half_even(a, b) <= half_even(c, d),
{
    lemma_fundamental_div_mod(a as int, b as int);
    lemma_fundamental_div_mod(c as int, d as int);
    let (q, r) = (a / b, a % b);
    let (s, t) = (c / d, c % d);
    assert(q <= s) by (nonlinear_arith)
        requires
            a == b * q + r,
            c == d * s + t,
            a * d <= c * b,
            0 <= r < b,
            0 <= t < d,
    ;
    if q == s {
        assert(r * d <= t * b) by (nonlinear_arith)
            requires
                a == b * q + r,
                c == d * q + t,
                a * d <= c * b,
        ;
        assert(2 * r >= b ==> 2 * t >= d) by (nonlinear_arith)
            requires
                r * d <= t * b,
                b > 0,
                d > 0,
        ;
        assert(2 * r > b ==> 2 * t > d) by (nonlinear_arith)
            requires
                r * d <= t * b,
                b > 0,
                d > 0,
        ;
    }
}

/// A larger quotient does not get a smaller exponent.
proof fn lemma_exponent_grows(a: nat, b: nat, c: nat, d: nat)
    requires
        a > 0,
        b > 0,
        d > 0,
        a * d <= c * b,
    ensures
        c > 0,
        rounded(a, b).1 <= rounded(c, d).1,
    decreases distance(a, b),
{
    assert(c > 0) by (nonlinear_arith)
        requires
            a > 0,
            d > 0,
            a * d <= c * b,
    ;
    lemma_exponent_sign(a, b);
    lemma_exponent_sign(c, d);
    if a < TWO_52 * b {
        if c < TWO_52 * d {
            assert((2 * a) * d <= (2 * c) * b) by (nonlinear_arith)
                requires
                    a * d <= c * b,
            ;
            lemma_exponent_grows(2 * a, b, 2 * c, d);
        }
    } else if a >= TWO_53 * b {
        assert(c >= TWO_53 * d) by (nonlinear_arith)
            requires
                a >= TWO_53 * b,
                a * d <= c * b,
                b > 0,
        ;
        assert(a * (2 * d) <= c * (2 * b)) by (nonlinear_arith)
            requires
                a * d <= c * b,
        ;
        lemma_exponent_grows(a, 2 * b, c, 2 * d);
    } else {
        assert(c >= TWO_52 * d) by (nonlinear_arith)
            requires
                a >= TWO_52 * b,
                a * d <= c * b,
                b > 0,
        ;
    }
}

/// A larger quotient does not round to a smaller double, if neither is zero.
proof fn lemma_positive_double_grows(a: nat, b: nat, c: nat, d: nat)
    requires
        a > 0,
        b > 0,
        d > 0,
        a * d <= c * b,
    ensures
        double_units(a, b) <= double_units(c, d),
{
    broadcast use lemma_pow2_pos;

    lemma2_to64();
    lemma2_to64_rest();
    lemma_pow2_strictly_increases(52, 2098);
    lemma_exponent_grows(a, b, c, d);
    lemma_rounded(a, b);
    lemma_rounded(c, d);
    let (m, e) = rounded(a, b);
    let (n, f) = rounded(c, d);
    if e < -1074 {
        lemma_small_double(a, b);
    }
    if f < -1074 {
        let p = pow2(1074);
        assert((a * p) * d <= (c * p) * b) by (nonlinear_arith)
            requires
                a * d <= c * b,
        ;
        lemma_half_even_grows(a * p, b, c * p, d);
    } else if e < -1074 {
        let q = pow2((f + 1074) as nat);
        assert(n * q >= TWO_52) by (nonlinear_arith)
            requires
                n >= TWO_52,
                q >= 1,
        ;
    } else if e == f {
        let (u, v, q) = (pow2_up(-e), pow2_up(e), pow2((e + 1074) as nat));
        assert(b * v > 0 && d * v > 0) by (nonlinear_arith)
            requires
                b > 0,
                d > 0,
                v > 0,
        ;
        assert((a * u) * (d * v) <= (c * u) * (b * v)) by (nonlinear_arith)
            requires
                a * d <= c * b,
        ;
        lemma_half_even_grows(a * u, b * v, c * u, d * v);
        assert(m * q <= n * q) by (nonlinear_arith)
            requires
                m <= n,
        ;
    } else {
        let (q, r) = (pow2((e + 1074) as nat), pow2((f + 1074) as nat));
        lemma_pow2_unfold((e + 1075) as nat);
        if e + 1 < f {
            lemma_pow2_strictly_increases((e + 1075) as nat, (f + 1074) as nat);
        }
        assert(m * q <= n * r) by (nonlinear_arith)
            requires
                m <= TWO_53,
                n >= TWO_52,
                r >= 2 * q,
        ;
    }
}

/// A larger quotient does not round to a smaller double.
pub proof fn lemma_double_grows(a: nat, b: nat, c: nat, d: nat)
    requires
        b > 0,
        d > 0,
        a * d <= c * b,
    ensures
        double_units(a, b) <= double_units(c, d),
{
    if a == 0 {
        assert(0 * pow2(1074) == 0) by (nonlinear_arith);
    } else {
        lemma_positive_double_grows(a, b, c, d);
    }
}

/// Zero is a double.
pub proof fn lemma_double_zero(b: nat)
    ensures
        double_units(0, b) == 0,
{
    broadcast use lemma_pow2_pos;

    assert(0 * pow2(1074) == 0) by (nonlinear_arith);
}

/// No double lies beyond infinity.
pub proof fn lemma_double_finite(a: nat, b: nat)
    requires
        b > 0,
    ensures
        double_units(a, b) <= infinite_units(),
{
    if rounded(a, b).1 < -1074 {
        lemma_small_double(a, b);
        lemma2_to64_rest();
        lemma_pow2_strictly_increases(52, 2098);
    }
}

/// The double `m * 2^e` with 53 bits, written as a bit pattern, is cut off to a whole number; one
/// with a sign is 0.
pub proof fn lemma_pattern(m: u64, e: int)
    requires
        0x10_0000_0000_0000 <= m < 0x20_0000_0000_0000,
        -1074 <= e <= 971,
    ensures
        ({
            let bits = ((e + 1074) * 0x10_0000_0000_0000 + m) as u64;
            let r = whole_of_pattern(bits);
            &&& e >= 0 ==> r == if m * pow2(e as nat) <= u64::MAX {
                m * pow2(e as nat)
            } else {
                u64::MAX as int
            }
            &&& e < 0 ==> r * pow2((-e) as nat) <= m < (r + 1) * pow2((-e) as nat)
            &&& whole_of_pattern((bits + 0x8000_0000_0000_0000) as u64) == 0
        }),
{
    broadcast use lemma_pow2_pos;

    let all = (e + 1074) * 0x10_0000_0000_0000 + m;
    assert(0 <= all < 0x8000_0000_0000_0000);
    let bits = all as u64;
    let fraction = m - 0x10_0000_0000_0000;
    assert(bits as int == (e + 1075) * 0x10_0000_0000_0000 + fraction);
    assert(bits / 0x8000_0000_0000_0000 == 0);
    assert(bits / 0x10_0000_0000_0000 == e + 1075);
    assert(bits % 0x10_0000_0000_0000 == fraction);
    let signed = (bits + 0x8000_0000_0000_0000) as u64;
    assert(signed / 0x8000_0000_0000_0000 == 1);
    assert(signed / 0x10_0000_0000_0000 == e + 1075 + 0x800);
    if e < 0 {
        let p = pow2((-e) as nat);
        lemma_fundamental_div_mod(m as int, p as int);
        lemma_mod_bound(m as int, p as int);
        let q = m as int / p as int;
        lemma_div_pos_is_pos(m as int, p as int);
        lemma_div_nonincreasing(m as int, p as int);
        assert(q * p == p * q) by (nonlinear_arith);
        assert((q + 1) * p == q * p + p) by (nonlinear_arith);
    }
}

/// Zero and the doubles too small for 53 bits have no whole part, infinity saturates, and what
/// is negative or no number counts as 0.
pub proof fn lemma_special_patterns(bits: u64)
    ensures
        bits < 0x10_0000_0000_0000 ==> whole_of_pattern(bits) == 0,
        bits == 0x7ff0_0000_0000_0000 ==> whole_of_pattern(bits) == u64::MAX,
        bits > 0x7ff0_0000_0000_0000 ==> whole_of_pattern(bits) == 0,
{
}

/// A number halfway between two whole ones is rounded to the even one.
pub proof fn lemma_half_even_tie(a: nat, b: nat)
    requires
        b > 0,
        2 * (half_even(a, b) * b) == 2 * a + b || 2 * (half_even(a, b) * b) == 2 * a - b,
    ensures
        half_even(a, b) % 2 == 0,
{
    lemma_fundamental_div_mod(a as int, b as int);
    let q = a / b;
    assert(b * q == q * b) by (nonlinear_arith);
    assert((q + 1) * b == q * b + b) by (nonlinear_arith);
}

/// What a number up to the largest `u64` is, and what a larger one is cut down to.
pub proof fn lemma_capped(n: nat)
    ensures
        n <= 0xffff_ffff_ffff_ffff ==> capped(n) == n,
        n > 0xffff_ffff_ffff_ffff ==> capped(n) == 0xffff_ffff_ffff_ffffu64,
{
}

/// A quotient is rounded to the nearest number with 53 bits, a tie to the even one, and that
/// number times `2^k` is cut off to a whole one. The number is `m * 2^e`.
pub proof fn lemma_scaled_is_nearest(a: nat, b: nat, k: nat) -> (r: (nat, int))
    requires
        a > 0,
        b > 0,
    ensures
        ({
            let (m, e) = r;
            let exact = if e < 0 {
                a * pow2((-e) as nat)
            } else {
                a
            };
            let unit = if e > 0 {
                b * pow2(e as nat)
            } else {
                b
            };
            let w = scaled_whole(a, b, k);
            &&& 0x10_0000_0000_0000 * unit <= exact < 0x20_0000_0000_0000 * unit
            &&& 2 * exact - unit <= 2 * (m * unit) <= 2 * exact + unit
            &&& 2 * (m * unit) == 2 * exact - unit || 2 * (m * unit) == 2 * exact + unit ==> m % 2
                == 0
            &&& e + k >= 0 ==> w == if m * pow2((e + k) as nat) <= 0xffff_ffff_ffff_ffff {
                m * pow2((e + k) as nat)
            } else {
                0xffff_ffff_ffff_ffff
            }
            &&& e + k < 0 ==> w * pow2((-(e + k)) as nat) <= m < (w + 1) * pow2((-(e + k)) as nat)
        }),
{
    broadcast use lemma_pow2_pos;

    lemma2_to64();
    lemma_rounded(a, b);
    let (m, e) = rounded(a, b);
    let exact = a * pow2_up(-e);
    let unit = b * pow2_up(e);
    if e >= 0 {
        assert(a * pow2_up(-e) == a) by (nonlinear_arith)
            requires
                pow2_up(-e) == 1,
        ;
    }
    if e <= 0 {
        assert(b * pow2_up(e) == b) by (nonlinear_arith)
            requires
                pow2_up(e) == 1,
        ;
    }
    assert(unit > 0) by (nonlinear_arith)
        requires
            unit == b * pow2_up(e),
            b > 0,
            pow2_up(e) > 0,
    ;
    if 2 * (m * unit) == 2 * exact - unit || 2 * (m * unit) == 2 * exact + unit {
        lemma_half_even_tie(exact, unit);
    }
    if e + k < 0 {
        let p = pow2((-(e + k)) as nat);
        lemma_fundamental_div_mod(m as int, p as int);
        lemma_mod_bound(m as int, p as int);
        lemma_div_nonincreasing(m as int, p as int);
        let q = m / p;
        assert(q * p == p * q) by (nonlinear_arith);
        assert((q + 1) * p == q * p + p) by (nonlinear_arith);
    }
    (m, e)
}

/// Zero stays zero.
pub proof fn lemma_scaled_zero(b: nat, k: nat)
    ensures
        scaled_whole(0, b, k) == 0,
{
    assert(0 * pow2(k) == 0) by (nonlinear_arith);
}

/// A number of more than 53 bits is rounded to the nearest one that has zeros behind its first
/// 53, a tie to the even one.
pub proof fn lemma_nearest(n: nat) -> (r: (nat, nat))
    requires
        n >= 0x20_0000_0000_0000,
    ensures
        ({
            let (m, e) = r;
            &&& nearest(n) == m * pow2(e)
            &&& 0x10_0000_0000_0000 * pow2(e) <= n < 0x20_0000_0000_0000 * pow2(e)
            &&& 2 * n - pow2(e) <= 2 * nearest(n) <= 2 * n + pow2(e)
            &&& 2 * nearest(n) == 2 * n - pow2(e) || 2 * nearest(n) == 2 * n + pow2(e) ==> m % 2
                == 0
        }),
{
    broadcast use lemma_pow2_pos;

    lemma2_to64();
    lemma_exponent_sign(n, 1);
    let (m, e) = rounded(n, 1);
    lemma_rounded(n, 1);
    assert(n * pow2_up(-e) == n) by (nonlinear_arith)
        requires
            pow2_up(-e) == 1,
    ;
    assert(1 * pow2_up(e) == pow2(e as nat));
    if 2 * nearest(n) == 2 * n - pow2(e as nat) || 2 * nearest(n) == 2 * n + pow2(e as nat) {
        lemma_half_even_tie(n, pow2(e as nat));
    }
    (m, e as nat)
}

} // verus!
