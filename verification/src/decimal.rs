//! Decimal digits: whole numbers, and numbers with a point and an exponent.
use crate::binary64;
use crate::text;
use vstd::arithmetic::div_mod::*;
use vstd::arithmetic::power::*;
use vstd::arithmetic::power2::*;
use vstd::prelude::*;
use vstd::slice::*;

verus! {

/// Whether `c` is one of `0` to `9`.
pub open spec fn is_digit(c: char) -> bool {
    '0' <= c <= '9'
}

/// Whether `s` holds digits only.
pub open spec fn all_digits(s: Seq<char>) -> bool {
    forall|i: int| 0 <= i < s.len() ==> is_digit(#[trigger] s[i])
}

/// The digits of `s` as numbers.
pub open spec fn digits(s: Seq<char>) -> Seq<u8> {
    s.map_values(|c: char| (c as u32 - 48) as u8)
}

/// Whether every item of `d` is a decimal digit.
pub open spec fn below_ten(d: Seq<u8>) -> bool {
    forall|i: int| 0 <= i < d.len() ==> #[trigger] d[i] <= 9
}

/// The number that the digits `d` stand for.
pub open spec fn value(d: Seq<u8>) -> nat
    decreases d.len(),
{
    if d.len() == 0 {
        0
    } else {
        10 * value(d.drop_last()) + d.last() as nat
    }
}

/// 10 to the power of `n`.
pub open spec fn pow10(n: nat) -> nat {
    pow(10, n) as nat
}

/// The digits of `n`, without leading zeros.
pub open spec fn decimal(n: nat) -> Seq<char>
    decreases n,
{
    if n < 10 {
        seq![(48 + n) as u8 as char]
    } else {
        decimal(n / 10).push((48 + n % 10) as u8 as char)
    }
}

/// The `u64` that `s` spells: digits, perhaps behind a `+`, and nothing else.
pub open spec fn u64_of(s: Seq<char>) -> Option<u64> {
    let t = if s.len() > 0 && s[0] == '+' {
        s.skip(1)
    } else {
        s
    };
    if t.len() > 0 && all_digits(t) && value(digits(t)) <= u64::MAX {
        Some(value(digits(t)) as u64)
    } else {
        None
    }
}

proof fn lemma_pow10(n: nat)
    ensures
        pow10(0) == 1,
        pow10(n) == pow(10, n),
        pow10(n) > 0,
        pow10(n + 1) == 10 * pow10(n),
{
    lemma_pow0(10);
    lemma_pow_positive(10, n);
    lemma_pow_positive(10, n + 1);
    lemma_pow1(10);
    lemma_pow_adds(10, 1, n);
}

proof fn lemma_pow10_adds(m: nat, n: nat)
    ensures
        pow10(m + n) == pow10(m) * pow10(n),
{
    lemma_pow10(m);
    lemma_pow10(n);
    lemma_pow10(m + n);
    lemma_pow_adds(10, m, n);
}

/// Digits in front of others count as many powers of ten more as there are others.
proof fn lemma_value_concat(x: Seq<u8>, y: Seq<u8>)
    ensures
        value(x + y) == value(x) * pow10(y.len()) + value(y),
    decreases y.len(),
{
    if y.len() == 0 {
        lemma_pow10(0);
        assert(x + y =~= x);
    } else {
        lemma_value_concat(x, y.drop_last());
        lemma_pow10((y.len() - 1) as nat);
        assert((x + y).drop_last() =~= x + y.drop_last());
        let p = pow10((y.len() - 1) as nat);
        assert(10 * (value(x) * p) == value(x) * (10 * p)) by (nonlinear_arith);
    }
}

/// `n` digits stand for less than the `n`th power of ten.
proof fn lemma_value_bound(d: Seq<u8>)
    requires
        below_ten(d),
    ensures
        value(d) < pow10(d.len()),
    decreases d.len(),
{
    lemma_pow10(0);
    if d.len() > 0 {
        assert(below_ten(d.drop_last()));
        lemma_value_bound(d.drop_last());
        lemma_pow10((d.len() - 1) as nat);
        assert(d[d.len() - 1] <= 9);
    }
}

/// The first digit of `d.skip(i)` on its own.
proof fn lemma_value_first(d: Seq<u8>, i: int)
    requires
        0 <= i < d.len(),
    ensures
        value(d.skip(i)) == d[i] * pow10((d.len() - i - 1) as nat) + value(d.skip(i + 1)),
{
    assert(d.skip(i) =~= seq![d[i]] + d.skip(i + 1));
    lemma_value_concat(seq![d[i]], d.skip(i + 1));
    assert(value(seq![d[i]]) == d[i]) by {
        assert(seq![d[i]].drop_last() =~= Seq::<u8>::empty());
        reveal_with_fuel(value, 2);
    }
}

/// Doubles the fraction with the digits `d`; returns the whole part of the result.
fn double(d: &mut Vec<u8>) -> (carry: u8)
    requires
        below_ten(old(d)@),
    ensures
        final(d)@.len() == old(d)@.len(),
        below_ten(final(d)@),
        carry <= 1,
        2 * value(old(d)@) == carry * pow10(old(d)@.len()) + value(final(d)@),
{
    let ghost before = d@;
    let n: usize = d.len();
    let mut i: usize = n;
    let mut carry: u8 = 0;
    proof {
        lemma_pow10(0);
        assert(d@.skip(n as int) =~= Seq::<u8>::empty());
    }
    while i > 0
        invariant
            i <= n,
            n == d@.len(),
            n == before.len(),
            below_ten(before),
            below_ten(d@),
            carry <= 1,
            forall|j: int| 0 <= j < i ==> d@[j] == before[j],
            2 * value(before.skip(i as int)) == carry * pow10((n - i) as nat) + value(
                d@.skip(i as int),
            ),
        decreases i,
    {
        let ghost prev = d@;
        let x: u8 = 2 * d[i - 1] + carry;
        let ghost c0 = carry;
        d.set(i - 1, x % 10);
        carry = x / 10;
        proof {
            lemma_value_first(before, i - 1);
            lemma_value_first(d@, i - 1);
            assert(d@.skip(i as int) =~= prev.skip(i as int));
            lemma_pow10((n - i) as nat);
            let p = pow10((n - i) as nat);
            let b = before[i - 1];
            assert(2 * (b * p) + c0 * p == (2 * b + c0) * p) by (nonlinear_arith);
            assert((2 * b + c0) * p == carry * (10 * p) + d@[i - 1] * p) by (nonlinear_arith)
                requires
                    2 * b + c0 == 10 * carry + d@[i - 1],
            ;
        }
        i -= 1;
    }
    assert(d@.skip(0) =~= d@);
    assert(before.skip(0) =~= before);
    carry
}

/// Only zeros stand for zero.
proof fn lemma_value_zero(d: Seq<u8>)
    ensures
        value(d) == 0 <==> forall|i: int| 0 <= i < d.len() ==> d[i] == 0,
    decreases d.len(),
{
    if d.len() > 0 {
        let front = d.drop_last();
        lemma_value_zero(front);
        if value(d) == 0 {
            assert forall|i: int| 0 <= i < d.len() implies d[i] == 0 by {
                if i < front.len() {
                    assert(front[i] == 0);
                }
            }
        } else {
            if forall|i: int| 0 <= i < d.len() ==> d[i] == 0 {
                assert forall|i: int| 0 <= i < front.len() implies front[i] == 0 by {
                    assert(d[i] == 0);
                }
                assert(d[d.len() - 1] == 0);
            }
        }
    }
}

/// The index of the first digit that is not zero, or the number of digits.
fn leading_zeros(d: &[u8]) -> (z: usize)
    ensures
        z <= d@.len(),
        forall|i: int| 0 <= i < z ==> d@[i] == 0,
        z < d@.len() ==> d@[z as int] != 0,
{
    let mut z: usize = 0;
    while z < d.len() && d[z] == 0
        invariant
            z <= d@.len(),
            forall|i: int| 0 <= i < z ==> d@[i] == 0,
        decreases d@.len() - z,
    {
        z += 1;
    }
    z
}

/// The whole part of `i` and the fraction with the digits `frac`, rounded to 53 bits and
/// multiplied by `2^k`.
fn scaled_mixed(i: u128, frac: Vec<u8>, k: u32) -> (r: u64)
    requires
        i < 0x1_0000_0000_0000_0000_0000,
        below_ten(frac@),
        k <= 40,
    ensures
        r == binary64::scaled_whole(
            (i * pow10(frac@.len()) + value(frac@)) as nat,
            pow10(frac@.len()),
            k as nat,
        ),
{
    let ghost b = pow10(frac@.len());
    let ghost a = (i * b + value(frac@)) as nat;
    proof {
        lemma_pow10(frac@.len());
        lemma_value_bound(frac@);
        lemma_value_zero(frac@);
    }
    if i >= binary64::TWO_53 as u128 {
        let below: bool = leading_zeros(frac.as_slice()) < frac.len();
        let (m, e) = binary64::round_high(i, below, Ghost(b), Ghost(value(frac@)));
        return binary64::whole_of(m, e as i64 + k as i64);
    }
    let ghost len = frac@.len();
    let mut d = frac;
    let mut x: u128 = i;
    let mut t: u32 = 0;
    proof {
        lemma2_to64();
        assert(a * pow2(0) == a) by (nonlinear_arith)
            requires
                pow2(0) == 1,
        ;
    }
    while x < binary64::TWO_52 as u128 && t < 94
        invariant
            t <= 94,
            x < binary64::TWO_53,
            d@.len() == len,
            below_ten(d@),
            b == pow10(len),
            b > 0,
            value(d@) < b,
            x * b + value(d@) == a * pow2(t as nat),
            a > 0 ==> binary64::rounded(a, b) == (
                binary64::rounded(a * pow2(t as nat), b).0,
                binary64::rounded(a * pow2(t as nat), b).1 - t,
            ),
        decreases 94 - t,
    {
        let ghost f0 = value(d@);
        let ghost x0 = x as int;
        let carry = double(&mut d);
        x = 2 * x + carry as u128;
        proof {
            broadcast use lemma_pow2_pos;

            lemma_pow2_unfold((t + 1) as nat);
            lemma_value_bound(d@);
            let p = pow2(t as nat);
            let at = a * p;
            assert(a * (2 * p) == 2 * at) by (nonlinear_arith)
                requires
                    at == a * p,
            ;
            assert((2 * x0 + carry) * b == 2 * (x0 * b) + carry * b) by (nonlinear_arith);
            assert(at < binary64::TWO_52 * b) by (nonlinear_arith)
                requires
                    at == x0 * b + f0,
                    x0 + 1 <= binary64::TWO_52,
                    f0 < b,
            ;
            if a > 0 {
                assert(at > 0) by (nonlinear_arith)
                    requires
                        at == a * p,
                        a > 0,
                        p > 0,
                ;
            }
        }
        t += 1;
    }
    let ghost at = a * pow2(t as nat);
    if x < binary64::TWO_52 as u128 {
        proof {
            lemma_pow2_unfold(94);
            assert(a * pow2(93) < binary64::TWO_52 * b) by (nonlinear_arith)
                requires
                    at == x * b + value(d@),
                    x + 1 <= binary64::TWO_52,
                    value(d@) < b,
                    at == a * (2 * pow2(93)),
            ;
            binary64::lemma_vanishes(a, b, k as nat);
        }
        return 0;
    }
    let ghost f = value(d@);
    let carry = double(&mut d);
    let rest: bool = leading_zeros(d.as_slice()) < d.len();
    let up: bool = carry == 1 && (rest || x % 2 == 1);
    proof {
        lemma_value_bound(d@);
        lemma_value_zero(d@);
        lemma_fundamental_div_mod_converse(at as int, b as int, x as int, f as int);
        assert(binary64::TWO_52 * b <= at < binary64::TWO_53 * b) by (nonlinear_arith)
            requires
                at == x * b + f,
                binary64::TWO_52 <= x,
                x + 1 <= binary64::TWO_53,
                0 <= f < b,
        ;
        assert(a > 0) by {
            if a == 0 {
                assert(0 * pow2(t as nat) == 0);
            }
        }
        assert(carry * b == if carry == 1 { b as int } else { 0 }) by (nonlinear_arith)
            requires
                carry <= 1,
        ;
    }
    let m: u64 = if up {
        (x + 1) as u64
    } else {
        x as u64
    };
    binary64::whole_of(m, k as i64 - t as i64)
}

/// The numerator and the denominator of `value(d) * 10^e`.
pub open spec fn fraction(d: Seq<u8>, e: int) -> (nat, nat) {
    if e >= 0 {
        (value(d) * pow10(e as nat), 1)
    } else {
        (value(d), pow10((-e) as nat))
    }
}

/// The whole part of `value(d) * 10^e`, rounded to 53 bits and multiplied by `2^k`.
pub open spec fn scaled_decimal(d: Seq<u8>, e: int, k: nat) -> u64 {
    let (a, b) = fraction(d, e);
    binary64::scaled_whole(a, b, k)
}

proof fn lemma_pow10_20()
    ensures
        pow10(20) == 100_000_000_000_000_000_000,
{
    reveal_with_fuel(pow, 21);
}

proof fn lemma_pow10_increases(m: nat, n: nat)
    requires
        m <= n,
    ensures
        pow10(m) <= pow10(n),
{
    lemma_pow10(m);
    lemma_pow10((n - m) as nat);
    lemma_pow10_adds(m, (n - m) as nat);
    let (p, q) = (pow10(m), pow10((n - m) as nat));
    assert(p <= p * q) by (nonlinear_arith)
        requires
            q >= 1,
    ;
}

/// A number of more than 20 digits before the point saturates.
proof fn lemma_decimal_large(d: Seq<u8>, n: nat, e: int, k: nat)
    requires
        value(d) >= pow10(n),
        n + e >= 20,
    ensures
        scaled_decimal(d, e, k) == u64::MAX,
{
    lemma_pow10_20();
    if e >= 0 {
        let p = pow10(e as nat);
        lemma_pow10_adds(n, e as nat);
        lemma_pow10_increases(20, (n + e) as nat);
        assert(value(d) * p >= pow10(n) * p) by (nonlinear_arith)
            requires
                value(d) >= pow10(n),
        ;
        binary64::lemma_saturates(value(d) * p, 1, k);
    } else {
        let b = pow10((-e) as nat);
        lemma_pow10((-e) as nat);
        lemma_pow10_adds((n + e) as nat, (-e) as nat);
        lemma_pow10_increases(20, (n + e) as nat);
        let c = pow10((n + e) as nat);
        assert(c * b >= 0x1_0000_0000_0000_0000 * b) by (nonlinear_arith)
            requires
                c >= 0x1_0000_0000_0000_0000,
        ;
        binary64::lemma_saturates(value(d), b, k);
    }
}

/// A number with 20 zeros behind the point, or more, has no whole part, nor does its
/// multiple by `2^40`.
proof fn lemma_decimal_small(d: Seq<u8>, n: nat, e: int, k: nat)
    requires
        value(d) < pow10(n),
        n + e <= -20,
        k <= 40,
    ensures
        scaled_decimal(d, e, k) == 0,
{
    let a = value(d);
    let b = pow10((-e) as nat);
    lemma_pow10((-e) as nat);
    lemma_pow10_20();
    lemma_pow10_adds(n, 20);
    lemma_pow10_increases(n + 20, (-e) as nat);
    lemma2_to64();
    lemma2_to64_rest();
    lemma_pow2_adds(41, 52);
    assert(a * pow10(20) < pow10(n) * pow10(20)) by (nonlinear_arith)
        requires
            a < pow10(n),
            pow10(20) > 0,
    ;
    assert(a * pow2(93) < binary64::TWO_52 * b) by (nonlinear_arith)
        requires
            a * pow10(20) < b,
            pow10(20) == 100_000_000_000_000_000_000,
            pow2(93) == 0x200_0000_0000 * binary64::TWO_52,
            a >= 0,
    ;
    binary64::lemma_vanishes(a, b, k);
}

/// Zero stays zero.
proof fn lemma_decimal_zero(d: Seq<u8>, e: int, k: nat)
    requires
        value(d) == 0,
    ensures
        scaled_decimal(d, e, k) == 0,
{
    broadcast use lemma_pow2_pos;

    assert(0 * pow10(e as nat) == 0);
    assert(0 * pow2(k) == 0);
}

/// Leading zeros do not count, and the first other digit bounds the number from below.
proof fn lemma_value_skip_zeros(d: Seq<u8>, z: int)
    requires
        0 <= z < d.len(),
        forall|i: int| 0 <= i < z ==> d[i] == 0,
        d[z] != 0,
    ensures
        value(d) == value(d.skip(z)),
        value(d) >= pow10((d.len() - z - 1) as nat),
{
    let p = pow10((d.len() - z) as nat);
    lemma_value_zero(d.take(z));
    assert(d =~= d.take(z) + d.skip(z));
    lemma_value_concat(d.take(z), d.skip(z));
    assert(0 * p == 0);
    lemma_value_first(d, z);
    let q = pow10((d.len() - z - 1) as nat);
    assert(d[z] * q >= q) by (nonlinear_arith)
        requires
            d[z] >= 1,
    ;
}

/// The whole part of the number with the digits `d` and the exponent `e`, rounded to 53 bits
/// and multiplied by `2^k`.
fn scale_digits(d: &[u8], e: i128, k: u32) -> (r: u64)
    requires
        below_ten(d@),
        -0x1_0000_0000_0000_0000_0000_0000_0000 <= e <= 0x1_0000_0000_0000_0000_0000_0000_0000,
        k <= 40,
    ensures
        r == scaled_decimal(d@, e as int, k as nat),
{
    let z = leading_zeros(d);
    if z == d.len() {
        proof {
            lemma_value_zero(d@);
            lemma_decimal_zero(d@, e as int, k as nat);
        }
        return 0;
    }
    let n: usize = d.len() - z;
    let ghost t = d@.skip(z as int);
    proof {
        lemma_value_skip_zeros(d@, z as int);
        assert(below_ten(t));
        lemma_value_bound(t);
    }
    let point: i128 = n as i128 + e;
    if point > 20 {
        proof {
            lemma_decimal_large(d@, (n - 1) as nat, e as int, k as nat);
        }
        return u64::MAX;
    }
    if point < -19 {
        proof {
            lemma_decimal_small(d@, n as nat, e as int, k as nat);
        }
        return 0;
    }
    // The digits before the point.
    let mut i: u128 = 0;
    let mut j: i128 = 0;
    let ghost padded = t + Seq::new(20, |i: int| 0u8);
    proof {
        lemma_pow10(0);
        lemma_pow10_20();
    }
    while j < point
        invariant
            0 <= j <= 20,
            j <= point || j == 0,
            point <= 20,
            n == t.len(),
            n + z == d@.len(),
            d@.len() <= usize::MAX,
            t == d@.skip(z as int),
            below_ten(d@),
            padded == t + Seq::new(20, |i: int| 0u8),
            i == value(padded.take(j as int)),
            i < pow10(j as nat),
            pow10(20) == 100_000_000_000_000_000_000,
        decreases point - j,
    {
        let digit: u8 = if j < n as i128 {
            d[z + j as usize]
        } else {
            0
        };
        proof {
            lemma_pow10(j as nat);
            lemma_pow10_increases((j + 1) as nat, 20);
            assert(padded[j as int] == digit);
            assert(padded.take(j + 1).drop_last() =~= padded.take(j as int));
            assert(digit <= 9);
        }
        i = 10 * i + digit as u128;
        j += 1;
    }
    // The digits behind it.
    let mut frac: Vec<u8> = Vec::new();
    let mut pos: i128 = point;
    while pos < n as i128
        invariant
            -19 <= point <= 20,
            point <= pos,
            pos <= n || pos == point,
            n == t.len(),
            n + z == d@.len(),
            d@.len() <= usize::MAX,
            t == d@.skip(z as int),
            below_ten(d@),
            below_ten(frac@),
            frac@.len() == pos - point,
            forall|i: int|
                0 <= i < frac@.len() ==> #[trigger] frac@[i] == (if point + i < 0 {
                    0u8
                } else {
                    t[point + i]
                }),
        decreases n - pos,
    {
        let digit: u8 = if pos < 0 {
            0
        } else {
            d[z + pos as usize]
        };
        assert(digit <= 9);
        frac.push(digit);
        pos += 1;
    }
    proof {
        let b = pow10(frac@.len());
        lemma_pow10_increases(j as nat, 20);
        if point >= n {
            assert(frac@.len() == 0);
            assert(padded.take(point as int) =~= t + Seq::new(e as nat, |i: int| 0u8));
            let zeros = Seq::new(e as nat, |i: int| 0u8);
            lemma_value_concat(t, zeros);
            lemma_value_zero(zeros);
            assert(i * b == i) by (nonlinear_arith)
                requires
                    b == 1,
            ;
            assert(value(frac@) == 0);
            assert(value(t) * pow10(e as nat) == i);
        } else if point >= 0 {
            assert(padded.take(point as int) =~= t.take(point as int));
            assert(frac@ =~= t.skip(point as int));
            assert(t =~= t.take(point as int) + t.skip(point as int));
            lemma_value_concat(t.take(point as int), t.skip(point as int));
        } else {
            let zeros = Seq::new((-point) as nat, |i: int| 0u8);
            assert(frac@ =~= zeros + t);
            lemma_value_concat(zeros, t);
            lemma_value_zero(zeros);
            assert(0 * pow10(n as nat) == 0);
            assert(padded.take(0) =~= Seq::<u8>::empty());
            assert(i == 0);
            assert(i * b == 0) by (nonlinear_arith)
                requires
                    i == 0,
            ;
            assert(value(frac@) == value(t));
        }
        assert(e < 0 ==> frac@.len() == -e && i * b + value(frac@) == value(t));
    }
    scaled_mixed(i, frac, k)
}

/// A number as it is written down, with an optional sign.
pub ghost enum Numeral {
    /// `value(digits) * 10^exponent`, or the negative of it.
    Finite { negative: bool, digits: Seq<u8>, exponent: int },
    Infinite { negative: bool },
    NotANumber,
}

/// `s` without the sign that it may begin with.
pub open spec fn unsigned(s: Seq<char>) -> Seq<char> {
    if s.len() > 0 && (s[0] == '+' || s[0] == '-') {
        s.skip(1)
    } else {
        s
    }
}

/// Whether `s` begins with a minus sign.
pub open spec fn is_negative(s: Seq<char>) -> bool {
    s.len() > 0 && s[0] == '-'
}

/// The whole number that `s` spells: an optional sign, then one digit or more.
pub open spec fn whole_number(s: Seq<char>) -> Option<int> {
    let t = unsigned(s);
    if t.len() > 0 && all_digits(t) {
        let n = value(digits(t)) as int;
        Some(
            if is_negative(s) {
                -n
            } else {
                n
            },
        )
    } else {
        None
    }
}

/// The part of `s` before the exponent, which begins with `e` or `E`.
pub open spec fn mantissa(s: Seq<char>) -> Seq<char> {
    s.take(text::find(text::uppercase(s), 'E') as int)
}

/// The exponent that `s` ends with, 0 if it has none.
pub open spec fn exponent(s: Seq<char>) -> Option<int> {
    let p = text::find(text::uppercase(s), 'E') as int;
    if p < s.len() {
        whole_number(s.skip(p + 1))
    } else {
        Some(0)
    }
}

/// The part of `s` before the point.
pub open spec fn before_point(s: Seq<char>) -> Seq<char> {
    s.take(text::find(s, '.') as int)
}

/// The part of `s` behind the point, empty if there is none.
pub open spec fn behind_point(s: Seq<char>) -> Seq<char> {
    let p = text::find(s, '.') as int;
    if p < s.len() {
        s.skip(p + 1)
    } else {
        seq![]
    }
}

/// The number that `s` spells: an optional sign, then `inf`, `infinity` or `nan` in any case,
/// or digits with at most one point among them and at least one digit, and then, if it is
/// there, `e` or `E` with a whole number behind it.
pub open spec fn number_of(s: Seq<char>) -> Option<Numeral> {
    let negative = is_negative(s);
    let t = unsigned(s);
    let word = text::uppercase(t);
    let all = before_point(mantissa(t)) + behind_point(mantissa(t));
    if word == "INF"@ || word == "INFINITY"@ {
        Some(Numeral::Infinite { negative })
    } else if word == "NAN"@ {
        Some(Numeral::NotANumber)
    } else if all.len() > 0 && all_digits(all) && exponent(t) is Some {
        Some(
            Numeral::Finite {
                negative,
                digits: digits(all),
                exponent: exponent(t)->0 - behind_point(mantissa(t)).len(),
            },
        )
    } else {
        None
    }
}

/// The whole part of the number that `s` spells, rounded to 53 bits and multiplied by `2^k`:
/// 0 if it is negative or no number, the largest `u64` if it is too large for one.
pub open spec fn scaled_number(s: Seq<char>, k: nat) -> u64 {
    match number_of(s) {
        Some(Numeral::Finite { negative, digits, exponent }) => if negative {
            0
        } else {
            scaled_decimal(digits, exponent, k)
        },
        Some(Numeral::Infinite { negative }) => if negative {
            0
        } else {
            u64::MAX
        },
        _ => 0,
    }
}

/// Where exponents are cut off: no number that fits in memory can tell them apart.
const EXPONENT_LIMIT: u128 = 1_000_000_000_000_000_000_000_000_000_000;

/// `n`, or [`EXPONENT_LIMIT`] if `n` is larger.
spec fn limited(n: nat) -> nat {
    if n < EXPONENT_LIMIT {
        n
    } else {
        EXPONENT_LIMIT as nat
    }
}

/// Exponents beyond [`EXPONENT_LIMIT`] give what the limit itself gives.
proof fn lemma_limited(d: Seq<u8>, n: nat, f: nat, k: nat)
    requires
        below_ten(d),
        d.len() <= u64::MAX,
        f <= u64::MAX,
        k <= 40,
    ensures
        scaled_decimal(d, limited(n) - f, k) == scaled_decimal(d, n - f, k),
        scaled_decimal(d, -limited(n) - f, k) == scaled_decimal(d, -n - f, k),
{
    if n >= EXPONENT_LIMIT {
        lemma_pow10(0);
        lemma_value_bound(d);
        if value(d) == 0 {
            lemma_decimal_zero(d, n - f, k);
            lemma_decimal_zero(d, limited(n) - f, k);
        } else {
            lemma_decimal_large(d, 0, n - f, k);
            lemma_decimal_large(d, 0, limited(n) - f, k);
        }
        lemma_decimal_small(d, d.len(), -n - f, k);
        lemma_decimal_small(d, d.len(), -limited(n) - f, k);
    }
}

/// Whether `c` is one of `0` to `9`.
pub fn digit(c: char) -> (r: bool)
    ensures
        r == is_digit(c),
{
    '0' <= c && c <= '9'
}

/// Appends the digits of `s` to `out`; stops at the first other character.
fn push_digits(s: &[char], out: &mut Vec<u8>) -> (r: bool)
    requires
        below_ten(old(out)@),
    ensures
        r == all_digits(s@),
        r ==> final(out)@ == old(out)@ + digits(s@),
        below_ten(final(out)@),
{
    let mut i: usize = 0;
    let ghost before = out@;
    while i < s.len()
        invariant
            i <= s@.len(),
            below_ten(out@),
            forall|j: int| 0 <= j < i ==> is_digit(#[trigger] s@[j]),
            out@ =~= before + digits(s@.take(i as int)),
        decreases s@.len() - i,
    {
        let c = s[i];
        if !digit(c) {
            return false;
        }
        out.push((c as u8) - 48);
        i += 1;
    }
    assert(s@.take(i as int) =~= s@);
    true
}

/// The digits of `s` as numbers.
fn digits_of(s: &[char]) -> (r: Option<Vec<u8>>)
    ensures
        r is Some <==> all_digits(s@),
        r matches Some(d) ==> d@ == digits(s@) && below_ten(d@),
{
    let mut d: Vec<u8> = Vec::new();
    if push_digits(s, &mut d) {
        assert(d@ =~= digits(s@));
        Some(d)
    } else {
        None
    }
}

/// `s` without the sign that it may begin with.
fn strip_sign(s: &[char]) -> (r: &[char])
    ensures
        r@ == unsigned(s@),
{
    if s.len() > 0 && (s[0] == '+' || s[0] == '-') {
        slice_subrange(s, 1, s.len())
    } else {
        s
    }
}

/// The number of the digits `d`, cut off at [`EXPONENT_LIMIT`].
fn limited_value(d: &[u8]) -> (r: u128)
    requires
        below_ten(d@),
    ensures
        r == limited(value(d@)),
{
    let mut r: u128 = 0;
    let mut i: usize = 0;
    while i < d.len()
        invariant
            i <= d@.len(),
            below_ten(d@),
            r == limited(value(d@.take(i as int))),
        decreases d@.len() - i,
    {
        let x: u128 = 10 * r + d[i] as u128;
        assert(d@.take(i + 1).drop_last() =~= d@.take(i as int));
        r = if x < EXPONENT_LIMIT {
            x
        } else {
            EXPONENT_LIMIT
        };
        i += 1;
    }
    assert(d@.take(i as int) =~= d@);
    r
}

/// The whole part of the number that `s` spells, rounded to 53 bits and multiplied by `2^k`.
pub fn scale_number(s: &[char], k: u32) -> (r: u64)
    requires
        k <= 40,
    ensures
        r == scaled_number(s@, k as nat),
{
    let negative: bool = s.len() > 0 && s[0] == '-';
    let t = strip_sign(s);
    let upper = text::to_uppercase(t);
    let word = upper.as_slice();
    if text::same(word, text::chars_of("INF").as_slice()) || text::same(
        word,
        text::chars_of("INFINITY").as_slice(),
    ) {
        return if negative {
            0
        } else {
            u64::MAX
        };
    }
    if text::same(word, text::chars_of("NAN").as_slice()) {
        return 0;
    }
    let p = text::position(word, 'E');
    let mant = slice_subrange(t, 0, p);
    assert(mant@ == mantissa(t@));
    let point = text::position(mant, '.');
    let whole = slice_subrange(mant, 0, point);
    let behind = if point < mant.len() {
        slice_subrange(mant, point + 1, mant.len())
    } else {
        slice_subrange(mant, point, point)
    };
    assert(whole@ == before_point(mant@));
    assert(behind@ =~= behind_point(mant@));
    let ghost all = whole@ + behind@;
    let mut d: Vec<u8> = Vec::new();
    let ok = push_digits(whole, &mut d) && push_digits(behind, &mut d);
    proof {
        if ok {
            assert(all_digits(all));
            assert(d@ =~= digits(all));
        } else {
            if all_digits(all) {
                assert forall|i: int| 0 <= i < whole@.len() implies is_digit(
                    #[trigger] whole@[i],
                ) by {
                    assert(is_digit(all[i]));
                }
                assert forall|i: int| 0 <= i < behind@.len() implies is_digit(
                    #[trigger] behind@[i],
                ) by {
                    assert(is_digit(all[whole@.len() + i]));
                }
            }
        }
    }
    if !ok || d.len() == 0 {
        return 0;
    }
    let f: i128 = behind.len() as i128;
    let e: i128 = if p < t.len() {
        let x = slice_subrange(t, p + 1, t.len());
        let minus: bool = x.len() > 0 && x[0] == '-';
        let ex = strip_sign(x);
        match digits_of(ex) {
            None => {
                return 0;
            },
            Some(ed) => {
                if ed.len() == 0 {
                    return 0;
                }
                let v: i128 = limited_value(ed.as_slice()) as i128;
                proof {
                    lemma_limited(d@, value(ed@), behind@.len(), k as nat);
                }
                if minus {
                    -v - f
                } else {
                    v - f
                }
            },
        }
    } else {
        -f
    };
    if negative {
        0
    } else {
        scale_digits(d.as_slice(), e, k)
    }
}

/// The `u64` that `s` spells, if it does.
pub fn parse_u64(s: &[char]) -> (r: Option<u64>)
    ensures
        r == u64_of(s@),
{
    let t = if s.len() > 0 && s[0] == '+' {
        slice_subrange(s, 1, s.len())
    } else {
        s
    };
    if t.len() == 0 {
        return None;
    }
    match digits_of(t) {
        None => None,
        Some(d) => {
            let v = limited_value(d.as_slice());
            if v <= u64::MAX as u128 {
                Some(v as u64)
            } else {
                None
            }
        },
    }
}

/// Appends the digits of `n` to `out`.
pub fn push_decimal(out: &mut String, n: u128)
    ensures
        final(out)@ == old(out)@ + decimal(n as nat),
    decreases n,
{
    if n >= 10 {
        push_decimal(out, n / 10);
    }
    out.push((48 + (n % 10) as u8) as char);
    assert(out@ =~= old(out)@ + decimal(n as nat));
}

/// The digits of `n` are digits, and stand for `n`.
pub proof fn lemma_decimal(n: nat)
    ensures
        decimal(n).len() > 0,
        all_digits(decimal(n)),
        value(digits(decimal(n))) == n,
    decreases n,
{
    reveal_with_fuel(value, 2);
    if n >= 10 {
        lemma_decimal(n / 10);
        let front = decimal(n / 10);
        let c = (48 + n % 10) as u8 as char;
        assert(decimal(n) == front.push(c));
        assert(is_digit(c));
        assert forall|i: int| 0 <= i < decimal(n).len() implies is_digit(
            #[trigger] decimal(n)[i],
        ) by {
            if i < front.len() {
                assert(is_digit(front[i]));
            }
        }
        assert(digits(decimal(n)).drop_last() =~= digits(front));
    } else {
        assert(digits(decimal(n)).drop_last() =~= seq![]);
    }
}

/// A whole number that is written down is read back.
pub proof fn lemma_u64_read_back(n: u64)
    ensures
        u64_of(decimal(n as nat)) == Some(n),
{
    lemma_decimal(n as nat);
    assert(is_digit(decimal(n as nat)[0]));
}

/// A whole number of up to 53 bits is multiplied exactly, up to the largest `u64`.
pub proof fn lemma_whole_number_scaled(n: nat, k: nat)
    requires
        n < binary64::TWO_53,
    ensures
        scaled_number(decimal(n), k) == binary64::capped(n * pow2(k)),
{
    let t = decimal(n);
    lemma_decimal(n);
    assert(is_digit(t[0]));
    let word = text::uppercase(t);
    assert(word =~= t) by {
        assert forall|i: int| 0 <= i < t.len() implies word[i] == t[i] by {
            assert(is_digit(t[i]));
        }
    }
    reveal_strlit("INF");
    reveal_strlit("INFINITY");
    reveal_strlit("NAN");
    assert("INF"@[0] == 'I' && "INFINITY"@[0] == 'I' && "NAN"@[0] == 'N');
    assert forall|i: int| 0 <= i < t.len() implies t[i] != 'E' && t[i] != '.' by {
        assert(is_digit(t[i]));
    }
    text::lemma_find_is(t, 'E', t.len() as int);
    text::lemma_find_is(t, '.', t.len() as int);
    assert(mantissa(t) =~= t);
    assert(before_point(t) + behind_point(t) =~= t);
    lemma_pow10(0);
    assert(n * pow10(0) == n) by (nonlinear_arith)
        requires
            pow10(0) == 1,
    ;
    binary64::lemma_scaled_exact(n, k);
}

/// Nothing is no number.
pub proof fn lemma_number_not_empty(s: Seq<char>)
    requires
        number_of(s) is Some,
    ensures
        s.len() > 0,
{
    if s.len() == 0 {
        reveal_strlit("INF");
        reveal_strlit("INFINITY");
        reveal_strlit("NAN");
        assert(text::uppercase(s).len() == 0);
    }
}

/// What two digits stand for.
pub proof fn lemma_two_digits(t: Seq<char>)
    requires
        t.len() == 2,
        all_digits(t),
    ensures
        value(digits(t)) == 10 * (t[0] as u32 - 48) + (t[1] as u32 - 48),
        pow10(2) == 100,
{
    assert(is_digit(t[0]) && is_digit(t[1]));
    reveal_with_fuel(value, 3);
    reveal_with_fuel(pow, 3);
    assert(digits(t).drop_last().drop_last() =~= seq![]);
}

/// `n` with the digits `t` behind a point is read as the number that it stands for.
pub proof fn lemma_point_scaled(n: nat, t: Seq<char>, k: nat)
    requires
        t.len() > 0,
        all_digits(t),
    ensures
        scaled_number(decimal(n).push('.') + t, k) == binary64::scaled_whole(
            n * pow10(t.len()) + value(digits(t)),
            pow10(t.len()),
            k,
        ),
{
    let d = decimal(n);
    let s = d.push('.') + t;
    lemma_decimal(n);
    assert forall|i: int| 0 <= i < s.len() implies is_digit(s[i]) || (i == d.len() && s[i]
        == '.') by {
        if i < d.len() {
            assert(is_digit(d[i]));
        } else if i > d.len() {
            assert(is_digit(t[i - d.len() - 1]));
        }
    }
    assert(is_digit(s[0]));
    let word = text::uppercase(s);
    assert(word =~= s);
    reveal_strlit("INF");
    reveal_strlit("INFINITY");
    reveal_strlit("NAN");
    assert("INF"@[0] == 'I' && "INFINITY"@[0] == 'I' && "NAN"@[0] == 'N');
    text::lemma_find_is(s, 'E', s.len() as int);
    text::lemma_find_is(s, '.', d.len() as int);
    assert(mantissa(s) =~= s);
    assert(before_point(s) =~= d);
    assert(behind_point(s) =~= t);
    assert(digits(d + t) =~= digits(d) + digits(t));
    lemma_value_concat(digits(d), digits(t));
}

/// The double that `x` rounds to, in multiples of the smallest positive one. Infinity lies
/// beyond all others; what is no number counts as 0.
pub open spec fn double_of(x: Numeral) -> int {
    match x {
        Numeral::Finite { negative, digits, exponent } => {
            let (a, b) = fraction(digits, exponent);
            let units = binary64::double_units(a, b) as int;
            if negative {
                -units
            } else {
                units
            }
        },
        Numeral::Infinite { negative } => if negative {
            -(binary64::infinite_units() as int)
        } else {
            binary64::infinite_units() as int
        },
        Numeral::NotANumber => 0,
    }
}

/// Whether `x` is at most `y` as a number, before any rounding. What is no number is at most
/// nothing, and nothing is at most it.
pub open spec fn at_most(x: Numeral, y: Numeral) -> bool {
    match (x, y) {
        (Numeral::NotANumber, _) => false,
        (_, Numeral::NotANumber) => false,
        (Numeral::Infinite { negative: true }, _) => true,
        (_, Numeral::Infinite { negative: false }) => true,
        (Numeral::Infinite { negative: false }, _) => false,
        (_, Numeral::Infinite { negative: true }) => false,
        (
            Numeral::Finite { negative: p, digits: d, exponent: e },
            Numeral::Finite { negative: q, digits: f, exponent: g },
        ) => {
            let (a, b) = fraction(d, e);
            let (m, n) = fraction(f, g);
            (if p {
                -(a as int)
            } else {
                a as int
            }) * n <= (if q {
                -(m as int)
            } else {
                m as int
            }) * b
        },
    }
}

/// Every double lies between the two infinities.
proof fn lemma_double_of(x: Numeral)
    ensures
        -(binary64::infinite_units() as int) <= double_of(x) <= binary64::infinite_units(),
{
    if let Numeral::Finite { negative, digits, exponent } = x {
        lemma_pow10((-exponent) as nat);
        let (a, b) = fraction(digits, exponent);
        binary64::lemma_double_finite(a, b);
    }
}

/// The larger of two numbers does not round to the smaller double.
pub proof fn lemma_double_keeps_order(x: Numeral, y: Numeral)
    requires
        at_most(x, y),
    ensures
        double_of(x) <= double_of(y),
{
    lemma_double_of(x);
    lemma_double_of(y);
    match (x, y) {
        (
            Numeral::Finite { negative: p, digits: d, exponent: e },
            Numeral::Finite { negative: q, digits: f, exponent: g },
        ) => {
            lemma_pow10((-e) as nat);
            lemma_pow10((-g) as nat);
            let (a, b) = fraction(d, e);
            let (m, n) = fraction(f, g);
            if !p && !q {
                binary64::lemma_double_grows(a, b, m, n);
            } else if p && q {
                assert(m * b <= a * n) by (nonlinear_arith)
                    requires
                        -(a as int) * n <= -(m as int) * b,
                ;
                binary64::lemma_double_grows(m, n, a, b);
            } else if !p && q {
                assert(a * n == 0 && m * b == 0) by (nonlinear_arith)
                    requires
                        a * n <= -(m as int) * b,
                ;
                assert(a * n <= 0 * b && m * b <= 0 * n);
                binary64::lemma_double_grows(a, b, 0, n);
                binary64::lemma_double_grows(m, n, 0, b);
                binary64::lemma_double_zero(n);
                binary64::lemma_double_zero(b);
            }
        },
        _ => {},
    }
}

/// The larger of two doubles does not give less once it is multiplied and cut off to a whole
/// number.
pub proof fn lemma_scaled_number_grows(s: Seq<char>, t: Seq<char>, k: nat)
    requires
        k <= 40,
        number_of(s) is Some,
        number_of(t) is Some,
        !(number_of(s)->0 is NotANumber),
        !(number_of(t)->0 is NotANumber),
        double_of(number_of(s)->0) <= double_of(number_of(t)->0),
    ensures
        scaled_number(s, k) <= scaled_number(t, k),
{
    lemma_scaled_by_double_of(s, k);
    lemma_scaled_by_double_of(t, k);
    let u = double_of(number_of(s)->0);
    let v = double_of(number_of(t)->0);
    if u > 0 {
        binary64::lemma_scaled_grows(u as nat, v as nat, k);
    }
}

/// What a number gives once it is multiplied and cut off to a whole number, by the double that
/// it rounds to.
proof fn lemma_scaled_by_double_of(s: Seq<char>, k: nat)
    requires
        k <= 40,
        number_of(s) is Some,
        !(number_of(s)->0 is NotANumber),
    ensures
        ({
            let u = double_of(number_of(s)->0);
            scaled_number(s, k) == if u > 0 {
                binary64::capped(u as nat * pow2(k) / pow2(1074))
            } else {
                0
            }
        }),
{
    broadcast use lemma_pow2_pos;

    let u = double_of(number_of(s)->0);
    match number_of(s)->0 {
        Numeral::Finite { negative, digits, exponent } => {
            lemma_pow10((-exponent) as nat);
            let (a, b) = fraction(digits, exponent);
            if !negative {
                binary64::lemma_scaled_by_double(a, b, k);
                if u == 0 {
                    assert(0 * pow2(k) == 0) by (nonlinear_arith);
                    lemma_basic_div(0, pow2(1074) as int);
                }
            }
        },
        Numeral::Infinite { negative } => {
            if !negative {
                binary64::lemma_infinite_scaled(u as nat, k);
            }
        },
        Numeral::NotANumber => {},
    }
}

/// So many zeros.
pub open spec fn zeros(n: nat) -> Seq<char> {
    Seq::new(n, |i: int| '0')
}

/// The ten digits, by their code points.
pub proof fn lemma_digit(c: char)
    ensures
        is_digit(c) <==> 48 <= c as u32 <= 57,
{
}

/// Each digit stands for its distance from `0`.
pub proof fn lemma_digits(s: Seq<char>)
    requires
        all_digits(s),
    ensures
        digits(s).len() == s.len(),
        forall|i: int|
            0 <= i < s.len() ==> #[trigger] digits(s)[i] == s[i] as u32 - 48 && 48 <= s[i] as u32
                <= 57,
{
    assert forall|i: int| 0 <= i < s.len() implies #[trigger] digits(s)[i] == s[i] as u32 - 48
        && 48 <= s[i] as u32 <= 57 by {
        assert(is_digit(s[i]));
    }
}

/// A digit behind others counts once, the others ten times as much as without it.
pub proof fn lemma_value_push(d: Seq<u8>, x: u8)
    ensures
        value(seq![]) == 0,
        value(d.push(x)) == 10 * value(d) + x,
{
    assert(d.push(x).drop_last() =~= d);
}

/// A whole number is written with digits only, without a zero in front unless it is zero, and
/// is what these digits stand for.
pub proof fn lemma_decimal_shape(n: nat)
    ensures
        decimal(n).len() > 0,
        all_digits(decimal(n)),
        value(digits(decimal(n))) == n,
        n > 0 ==> decimal(n)[0] != '0',
        n == 0 ==> decimal(n) == seq!['0'],
    decreases n,
{
    lemma_decimal(n);
    if n >= 10 {
        lemma_decimal_shape(n / 10);
    }
}

/// Zeros in front of digits change nothing.
proof fn lemma_zeros_in_front(z: nat, s: Seq<char>)
    ensures
        value(digits(zeros(z) + s)) == value(digits(s)),
        all_digits(s) ==> all_digits(zeros(z) + s),
{
    assert(digits(zeros(z) + s) =~= digits(zeros(z)) + digits(s));
    lemma_value_concat(digits(zeros(z)), digits(s));
    let d = digits(zeros(z));
    lemma_value_zero(d);
    assert forall|i: int| 0 <= i < d.len() implies d[i] == 0 by {}
    assert(0 * pow10(digits(s).len()) == 0) by (nonlinear_arith);
    if all_digits(s) {
        assert forall|i: int| 0 <= i < (zeros(z) + s).len() implies is_digit(
            #[trigger] (zeros(z) + s)[i],
        ) by {
            if i >= z {
                assert(is_digit(s[i - z]));
            }
        }
    }
}

/// A whole number that fits is read with zeros and a plus sign in front of it.
pub proof fn lemma_u64_spelled(n: u64, z: nat)
    ensures
        u64_of(zeros(z) + decimal(n as nat)) == Some(n),
        u64_of(seq!['+'] + zeros(z) + decimal(n as nat)) == Some(n),
{
    let d = decimal(n as nat);
    let t = zeros(z) + d;
    lemma_decimal(n as nat);
    lemma_zeros_in_front(z, d);
    assert(is_digit(t[0]));
    let s = seq!['+'] + zeros(z) + d;
    assert(s.skip(1) =~= t);
}

/// Digits are zeros and behind them the number that they stand for.
proof fn lemma_digits_spell(t: Seq<char>) -> (z: nat)
    requires
        t.len() > 0,
        all_digits(t),
    ensures
        t == zeros(z) + decimal(value(digits(t))),
    decreases t.len(),
{
    let front = t.drop_last();
    let x = (t.last() as u32 - 48) as u8;
    assert(is_digit(t[t.len() - 1]));
    assert(digits(t).drop_last() =~= digits(front));
    let n = value(digits(t));
    if front.len() == 0 {
        assert(value(digits(front)) == 0);
        assert(t =~= zeros(0) + decimal(n));
        0
    } else {
        assert forall|i: int| 0 <= i < front.len() implies is_digit(#[trigger] front[i]) by {
            assert(is_digit(t[i]));
        }
        let z = lemma_digits_spell(front);
        let m = value(digits(front));
        assert(n == 10 * m + x);
        if m == 0 {
            assert(front =~= zeros(z + 1));
            assert(t =~= zeros(z + 1) + decimal(n));
            z + 1
        } else {
            assert(n >= 10 && n / 10 == m && n % 10 == x);
            assert((48 + n % 10) as u8 as char == t.last());
            assert(decimal(n) == decimal(m).push(t.last()));
            assert(zeros(z) + decimal(n) =~= front.push(t.last()));
            assert(t =~= front.push(t.last()));
            assert(t =~= zeros(z) + decimal(n));
            z
        }
    }
}

/// What is read as a whole number spells it: zeros may stand in front, and a plus sign.
pub proof fn lemma_u64_spells(s: Seq<char>)
    requires
        u64_of(s) is Some,
    ensures
        exists|z: nat|
            #![trigger zeros(z)]
            {
                let t = zeros(z) + decimal(u64_of(s)->0 as nat);
                s == t || s == seq!['+'] + t
            },
{
    if s.len() > 0 && s[0] == '+' {
        let t = s.skip(1);
        let z = lemma_digits_spell(t);
        assert(s =~= seq!['+'] + t);
        assert(s == seq!['+'] + (zeros(z) + decimal(u64_of(s)->0 as nat)));
    } else {
        let z = lemma_digits_spell(s);
        assert(s == zeros(z) + decimal(u64_of(s)->0 as nat));
    }
}

/// Whether `s` is a sign, or nothing.
pub open spec fn is_sign(s: Seq<char>) -> bool {
    s == Seq::<char>::empty() || s == seq!['+'] || s == seq!['-']
}

/// A text of digits with at most one point, with `sign` in front, the digits `front` before the
/// point and `behind` behind it.
pub open spec fn pointed(sign: Seq<char>, front: Seq<char>, point: bool, behind: Seq<char>) -> Seq<
    char,
> {
    sign + front + if point {
        seq!['.'] + behind
    } else {
        Seq::empty()
    }
}

/// How a number of digits, a point and an exponent is taken apart.
proof fn lemma_taken_apart(
    sign: Seq<char>,
    front: Seq<char>,
    point: bool,
    behind: Seq<char>,
    tail: Seq<char>,
)
    requires
        is_sign(sign),
        all_digits(front),
        all_digits(behind),
        front.len() + behind.len() > 0,
        !point ==> behind.len() == 0,
        tail.len() == 0 || tail[0] == 'e' || tail[0] == 'E',
    ensures
        ({
            let s = pointed(sign, front, point, behind) + tail;
            let t = unsigned(s);
            &&& is_negative(s) <==> sign == seq!['-']
            &&& t == pointed(seq![], front, point, behind) + tail
            &&& mantissa(t) == pointed(seq![], front, point, behind)
            &&& before_point(mantissa(t)) == front
            &&& behind_point(mantissa(t)) == behind
            &&& tail.len() > 0 ==> exponent(t) == whole_number(tail.skip(1))
            &&& tail.len() == 0 ==> exponent(t) == Some(0int)
            &&& text::uppercase(t) != "INF"@
            &&& text::uppercase(t) != "INFINITY"@
            &&& text::uppercase(t) != "NAN"@
        }),
{
    let none = Seq::<char>::empty();
    let body = pointed(none, front, point, behind);
    let s = pointed(sign, front, point, behind) + tail;
    let t = body + tail;
    assert(s =~= sign + t);
    assert forall|i: int| 0 <= i < body.len() implies is_digit(#[trigger] body[i]) || (point && i
        == front.len() && body[i] == '.') by {
        if i < front.len() {
            assert(is_digit(front[i]));
        } else if i > front.len() {
            assert(is_digit(behind[i - front.len() - 1]));
        }
    }
    assert(body.len() > 0);
    assert(t[0] == body[0]);
    assert(is_digit(body[0]) || body[0] == '.');
    if sign.len() > 0 {
        assert(s[0] == sign[0]);
        assert(s.skip(1) =~= t);
    } else {
        assert(s =~= t);
    }
    assert(unsigned(s) == t);
    let word = text::uppercase(t);
    reveal_strlit("INF");
    reveal_strlit("INFINITY");
    reveal_strlit("NAN");
    assert("INF"@[0] == 'I' && "INFINITY"@[0] == 'I' && "NAN"@[0] == 'N');
    assert(word[0] == text::upper(t[0]) && text::upper(t[0]) == t[0]);
    let p = body.len() as int;
    assert forall|i: int| 0 <= i < p implies word[i] != 'E' by {
        assert(t[i] == body[i]);
        assert(is_digit(body[i]) || body[i] == '.');
        assert(word[i] == text::upper(t[i]));
    }
    if tail.len() > 0 {
        assert(t[p] == tail[0]);
        assert(word[p] == text::upper(t[p]));
    }
    text::lemma_find_is(word, 'E', p);
    assert(mantissa(t) =~= body);
    if tail.len() > 0 {
        assert(t.skip(p + 1) =~= tail.skip(1));
    }
    let k = front.len() as int;
    assert forall|i: int| 0 <= i < k implies body[i] != '.' by {
        assert(is_digit(front[i]));
    }
    text::lemma_find_is(body, '.', k);
    assert(before_point(body) =~= front);
    assert(behind_point(body) =~= behind);
}

/// A number with digits, perhaps a point among them and no exponent is read as what it stands
/// for: the digits without the point, divided by ten for each one behind it. A negative one gives
/// 0.
pub proof fn lemma_plain_number(
    sign: Seq<char>,
    front: Seq<char>,
    point: bool,
    behind: Seq<char>,
    k: nat,
)
    requires
        is_sign(sign),
        all_digits(front),
        all_digits(behind),
        front.len() + behind.len() > 0,
        !point ==> behind.len() == 0,
    ensures
        scaled_number(pointed(sign, front, point, behind), k) == if sign == seq!['-'] {
            0
        } else {
            binary64::scaled_whole(
                value(digits(front + behind)),
                pow(10, behind.len()) as nat,
                k,
            )
        },
{
    let s = pointed(sign, front, point, behind);
    assert(s + Seq::<char>::empty() =~= s);
    lemma_taken_apart(sign, front, point, behind, seq![]);
    lemma_joined_digits(front, behind);
    lemma_pow10(0);
    let v = value(digits(front + behind));
    if behind.len() == 0 {
        assert(v * pow10(0) == v) by (nonlinear_arith)
            requires
                pow10(0) == 1,
        ;
    }
}

/// An exponent multiplies the number by ten for each, or divides it where it is negative.
pub proof fn lemma_exponent_number(
    sign: Seq<char>,
    front: Seq<char>,
    point: bool,
    behind: Seq<char>,
    mark: char,
    minus: Seq<char>,
    power: Seq<char>,
    k: nat,
)
    requires
        is_sign(sign),
        all_digits(front),
        all_digits(behind),
        front.len() + behind.len() > 0,
        !point ==> behind.len() == 0,
        mark == 'e' || mark == 'E',
        is_sign(minus),
        power.len() > 0,
        all_digits(power),
    ensures
        ({
            let s = pointed(sign, front, point, behind) + (seq![mark] + minus + power);
            let n = value(digits(power)) as int;
            let e = (if minus == seq!['-'] {
                -n
            } else {
                n
            }) - behind.len();
            let v = value(digits(front + behind));
            scaled_number(s, k) == if sign == seq!['-'] {
                0
            } else if e >= 0 {
                binary64::scaled_whole(v * pow(10, e as nat) as nat, 1, k)
            } else {
                binary64::scaled_whole(v, pow(10, (-e) as nat) as nat, k)
            }
        }),
{
    let tail = seq![mark] + minus + power;
    lemma_taken_apart(sign, front, point, behind, tail);
    lemma_joined_digits(front, behind);
    let x = minus + power;
    assert(tail.skip(1) =~= x);
    assert(is_digit(power[0]));
    if minus.len() > 0 {
        assert(x[0] == minus[0]);
        assert(x.skip(1) =~= power);
    } else {
        assert(x =~= power);
    }
}

/// Digits behind digits are digits.
proof fn lemma_joined_digits(x: Seq<char>, y: Seq<char>)
    requires
        all_digits(x),
        all_digits(y),
    ensures
        all_digits(x + y),
{
    assert forall|i: int| 0 <= i < (x + y).len() implies is_digit(#[trigger] (x + y)[i]) by {
        if i < x.len() {
            assert(is_digit(x[i]));
        } else {
            assert(is_digit(y[i - x.len()]));
        }
    }
}

/// The words for infinity, in any case, saturate; with a minus sign they give 0, as does the word
/// for what is no number.
pub proof fn lemma_number_words(sign: Seq<char>, word: Seq<char>, k: nat)
    requires
        is_sign(sign),
    ensures
        text::uppercase(word) == "INF"@ || text::uppercase(word) == "INFINITY"@ ==> scaled_number(
            sign + word,
            k,
        ) == if sign == seq!['-'] {
            0
        } else {
            u64::MAX
        },
        text::uppercase(word) == "NAN"@ ==> scaled_number(sign + word, k) == 0,
{
    reveal_strlit("INF");
    reveal_strlit("INFINITY");
    reveal_strlit("NAN");
    let s = sign + word;
    let upper = text::uppercase(word);
    if upper == "INF"@ || upper == "INFINITY"@ || upper == "NAN"@ {
        assert("INF"@.len() == 3 && "INFINITY"@.len() == 8 && "NAN"@.len() == 3);
        assert(upper.len() == word.len());
        assert(upper[0] == text::upper(word[0]));
        assert(word[0] != '+' && word[0] != '-');
        assert("INF"@[0] == 'I' && "INFINITY"@[0] == 'I' && "NAN"@[0] == 'N');
        assert("NAN"@[0] != "INF"@[0]);
        if sign.len() > 0 {
            assert(s[0] == sign[0]);
            assert(s.skip(1) =~= word);
        } else {
            assert(s =~= word);
            assert(s[0] == word[0]);
        }
    }
}

/// Whether `tail` is an exponent: `e` or `E`, perhaps a sign, and digits.
pub open spec fn is_exponent(tail: Seq<char>) -> bool {
    &&& tail.len() > 1
    &&& tail[0] == 'e' || tail[0] == 'E'
    &&& ({
        let x = tail.skip(1);
        let y = if x[0] == '+' || x[0] == '-' {
            x.skip(1)
        } else {
            x
        };
        y.len() > 0 && all_digits(y)
    })
}

/// Whether `s` is made of these parts, with an exponent or without one.
pub open spec fn is_made_of(
    s: Seq<char>,
    sign: Seq<char>,
    front: Seq<char>,
    point: bool,
    behind: Seq<char>,
    tail: Seq<char>,
) -> bool {
    &&& is_sign(sign)
    &&& all_digits(front)
    &&& all_digits(behind)
    &&& front.len() + behind.len() > 0
    &&& tail.len() == 0 || is_exponent(tail)
    &&& s == pointed(sign, front, point, behind) + tail
}

/// A sign is taken from the front, and nothing else.
proof fn lemma_unsigned(s: Seq<char>) -> (sign: Seq<char>)
    ensures
        is_sign(sign),
        s == sign + unsigned(s),
{
    if s.len() > 0 && (s[0] == '+' || s[0] == '-') {
        let sign = seq![s[0]];
        assert(s =~= sign + unsigned(s));
        sign
    } else {
        assert(s =~= Seq::<char>::empty() + s);
        seq![]
    }
}

/// What stands before the exponent and the exponent make up the whole.
proof fn lemma_exponent_apart(t: Seq<char>) -> (tail: Seq<char>)
    requires
        exponent(t) is Some,
    ensures
        t == mantissa(t) + tail,
        tail.len() == 0 || is_exponent(tail),
{
    let word = text::uppercase(t);
    text::lemma_find(word, 'E');
    let p = text::find(word, 'E') as int;
    let tail = t.skip(p);
    assert(word.len() == t.len());
    assert(t =~= mantissa(t) + tail);
    if p < t.len() {
        assert(word[p] == text::upper(t[p]));
        assert(tail[0] == t[p]);
        assert(tail.skip(1) =~= t.skip(p + 1));
    }
    tail
}

/// What stands before the point and behind it make up the whole.
proof fn lemma_point_apart(body: Seq<char>) -> (point: bool)
    requires
        all_digits(before_point(body) + behind_point(body)),
    ensures
        all_digits(before_point(body)),
        all_digits(behind_point(body)),
        body == pointed(seq![], before_point(body), point, behind_point(body)),
{
    let (front, behind) = (before_point(body), behind_point(body));
    let all = front + behind;
    text::lemma_find(body, '.');
    assert forall|i: int| 0 <= i < front.len() implies is_digit(#[trigger] front[i]) by {
        assert(is_digit(all[i]));
    }
    assert forall|i: int| 0 <= i < behind.len() implies is_digit(#[trigger] behind[i]) by {
        assert(is_digit(all[front.len() + i]));
    }
    let point = text::find(body, '.') < body.len();
    assert(body =~= pointed(seq![], front, point, behind));
    point
}

/// Whatever gives more than 0 is one of the words for infinity, or is made of digits, at most one
/// point and at most one exponent.
pub proof fn lemma_nothing_else(s: Seq<char>, k: nat)
    requires
        scaled_number(s, k) > 0,
    ensures
        text::uppercase(unsigned(s)) == "INF"@ || text::uppercase(unsigned(s)) == "INFINITY"@
            || exists|
            sign: Seq<char>,
            front: Seq<char>,
            point: bool,
            behind: Seq<char>,
            tail: Seq<char>,
        | #[trigger] is_made_of(s, sign, front, point, behind, tail),
{
    let t = unsigned(s);
    let word = text::uppercase(t);
    if word != "INF"@ && word != "INFINITY"@ {
        let body = mantissa(t);
        let (front, behind) = (before_point(body), behind_point(body));
        let sign = lemma_unsigned(s);
        let tail = lemma_exponent_apart(t);
        let point = lemma_point_apart(body);
        assert(s =~= pointed(sign, front, point, behind) + tail);
        assert(is_made_of(s, sign, front, point, behind, tail));
    }
}

/// A power of ten is ten so many times over.
pub proof fn lemma_pow10_is(n: nat)
    ensures
        pow10(0) == 1,
        pow10(n + 1) == 10 * pow10(n),
{
    lemma_pow10(n);
}

} // verus!
