//! File sizes: read from a listing, written for a reader.
use crate::binary64;
use crate::decimal;
use crate::text;
use vstd::arithmetic::div_mod::*;
use vstd::arithmetic::power2::*;
use vstd::prelude::*;
use vstd::slice::*;
use vstd::string::*;

verus! {

/// Bytes in a megabyte.
pub const MB: u64 = 1_048_576;

/// Bytes in a gigabyte.
pub const GB: u64 = 1_073_741_824;

/// The power of two that the unit `unit` stands for: 0 for bytes and for any other word.
pub open spec fn unit_power(unit: Seq<char>) -> nat {
    let u = text::uppercase(unit);
    if u == "KB"@ {
        10
    } else if u == "MB"@ {
        20
    } else if u == "GB"@ {
        30
    } else if u == "TB"@ {
        40
    } else {
        0
    }
}

/// The number in front of the first space of `s`, white space around `s` left away.
pub open spec fn size_number(s: Seq<char>) -> Seq<char> {
    let t = text::trim(s);
    t.take(text::find(t, ' ') as int)
}

/// The unit behind the first space of `s`, bytes if there is no space.
pub open spec fn size_unit(s: Seq<char>) -> Seq<char> {
    let t = text::trim(s);
    let p = text::find(t, ' ') as int;
    if p < t.len() {
        t.skip(p + 1)
    } else {
        "B"@
    }
}

/// The size that `s` names, in bytes: its number, as a double, times its unit.
pub open spec fn size_bytes(s: Seq<char>) -> u64 {
    decimal::scaled_number(size_number(s), unit_power(size_unit(s)))
}

/// The power of two that the unit `unit` stands for.
fn power_of(unit: &[char]) -> (k: u32)
    ensures
        k == unit_power(unit@),
        k <= 40,
{
    let upper = text::to_uppercase(unit);
    let u = upper.as_slice();
    if text::same(u, text::chars_of("KB").as_slice()) {
        10
    } else if text::same(u, text::chars_of("MB").as_slice()) {
        20
    } else if text::same(u, text::chars_of("GB").as_slice()) {
        30
    } else if text::same(u, text::chars_of("TB").as_slice()) {
        40
    } else {
        0
    }
}

/// The size that `s` names, such as `1.5 GB`, in bytes; 0 if its number cannot be read.
pub fn parse_size_bytes(s: &str) -> (bytes: u64)
    ensures
        bytes == size_bytes(s@),
{
    let chars = text::chars_of(s);
    let t = text::trimmed(chars.as_slice());
    let p = text::position(t, ' ');
    let num = slice_subrange(t, 0, p);
    let k: u32 = if p < t.len() {
        power_of(slice_subrange(t, p + 1, t.len()))
    } else {
        power_of(text::chars_of("B").as_slice())
    };
    decimal::scale_number(num, k)
}

/// The digit `n` as a character.
pub open spec fn digit_char(n: nat) -> char {
    (48 + n) as u8 as char
}

/// `h` hundredths as a number with two digits behind the point.
pub open spec fn with_hundredths(h: nat) -> Seq<char> {
    decimal::decimal(h / 100).push('.').push(digit_char(h / 10 % 10)).push(digit_char(h % 10))
}

/// `b` bytes in multiples of `unit`, as a double, rounded to hundredths.
pub open spec fn in_units(b: u64, unit: u64) -> Seq<char> {
    with_hundredths(binary64::half_even(100 * binary64::nearest(b as nat), unit as nat))
}

/// `b` bytes as text: in gigabytes or megabytes with two digits behind the point from one
/// of these on, in bytes below.
pub open spec fn bytes_text(b: u64) -> Seq<char> {
    if b >= GB {
        in_units(b, GB) + " GB"@
    } else if b >= MB {
        in_units(b, MB) + " MB"@
    } else {
        decimal::decimal(b as nat) + " B"@
    }
}

/// Writes `b` bytes in multiples of `unit`.
fn push_in_units(out: &mut String, b: u64, unit: u64)
    requires
        unit > 1,
    ensures
        final(out)@ == old(out)@ + in_units(b, unit),
{
    let x: u128 = 100 * binary64::nearest_of(b);
    let q: u128 = x / unit as u128;
    let r: u128 = x % unit as u128;
    let h: u128 = if 2 * r < unit as u128 || (2 * r == unit as u128 && q % 2 == 0) {
        q
    } else {
        q + 1
    };
    decimal::push_decimal(out, h / 100);
    out.push('.');
    out.push((48 + (h / 10 % 10) as u8) as char);
    out.push((48 + (h % 10) as u8) as char);
    assert(out@ =~= old(out)@ + in_units(b, unit));
}

/// `b` bytes as text, such as `1.50 GB`.
pub fn fmt_bytes(b: u64) -> (s: String)
    ensures
        s@ == bytes_text(b),
{
    let mut s = String::new();
    if b >= GB {
        push_in_units(&mut s, b, GB);
        s.append(" GB");
    } else if b >= MB {
        push_in_units(&mut s, b, MB);
        s.append(" MB");
    } else {
        decimal::push_decimal(&mut s, b as u128);
        s.append(" B");
    }
    assert(s@ =~= bytes_text(b));
    s
}

/// The unit of a size in which `unit` stands behind the first space. White space at the end is
/// left away, with the space itself if nothing else stands behind it.
pub open spec fn unit_behind(unit: Seq<char>) -> Seq<char> {
    let rest = text::trim_end(seq![' '] + unit);
    if rest.len() > 0 {
        rest.skip(1)
    } else {
        "B"@
    }
}

/// A size is taken apart at the space between its number and its unit.
pub proof fn lemma_size_parts(number: Seq<char>, unit: Seq<char>)
    requires
        number.len() > 0,
        forall|i: int| 0 <= i < number.len() ==> !text::is_white_space(#[trigger] number[i]),
    ensures
        size_number(number + seq![' '] + unit) == number,
        size_unit(number + seq![' '] + unit) == unit_behind(unit),
{
    let s = number + seq![' '] + unit;
    let behind = seq![' '] + unit;
    let rest = text::trim_end(behind);
    assert(s =~= number + behind);
    assert(s[0] == number[0]);
    assert(!text::is_white_space(number.last()));
    text::lemma_trim_end_behind(number, behind);
    let t = text::trim(s);
    assert(t == number + rest);
    assert forall|i: int| 0 <= i < number.len() implies t[i] != ' ' by {
        assert(!text::is_white_space(number[i]));
    }
    text::lemma_trim_end(behind);
    text::lemma_find_is(t, ' ', number.len() as int);
    assert(t.take(number.len() as int) =~= number);
    if rest.len() > 0 {
        assert(t.skip(number.len() as int + 1) =~= rest.skip(1));
    }
}

/// Where the unit ends with something else than white space, it is kept as it is.
pub proof fn lemma_unit_kept(unit: Seq<char>)
    requires
        unit.len() > 0,
        !text::is_white_space(unit.last()),
    ensures
        unit_behind(unit) == unit,
{
    let behind = seq![' '] + unit;
    assert(behind.last() == unit.last());
    assert(behind.skip(1) =~= unit);
}

/// For one unit, the larger of two numbers does not give fewer bytes: `a` and `b` are numbers
/// without white space, and the double that `a` rounds to is at most that of `b`.
pub proof fn lemma_sizes_grow(a: Seq<char>, b: Seq<char>, unit: Seq<char>)
    requires
        forall|i: int| 0 <= i < a.len() ==> !text::is_white_space(#[trigger] a[i]),
        forall|i: int| 0 <= i < b.len() ==> !text::is_white_space(#[trigger] b[i]),
        decimal::number_of(a) is Some,
        decimal::number_of(b) is Some,
        !(decimal::number_of(a)->0 is NotANumber),
        !(decimal::number_of(b)->0 is NotANumber),
        decimal::double_of(decimal::number_of(a)->0) <= decimal::double_of(
            decimal::number_of(b)->0,
        ),
    ensures
        size_bytes(a + seq![' '] + unit) <= size_bytes(b + seq![' '] + unit),
{
    decimal::lemma_number_not_empty(a);
    decimal::lemma_number_not_empty(b);
    lemma_size_parts(a, unit);
    lemma_size_parts(b, unit);
    decimal::lemma_scaled_number_grows(a, b, unit_power(unit_behind(unit)));
}

/// A whole number of up to 53 bits in front of a unit is multiplied by it exactly, up to the
/// largest `u64`.
pub proof fn lemma_whole_sizes(n: nat, unit: Seq<char>)
    requires
        n < binary64::TWO_53,
        unit.len() > 0,
        !text::is_white_space(unit.last()),
    ensures
        size_bytes(decimal::decimal(n) + seq![' '] + unit) == binary64::capped(
            n * pow2(unit_power(unit)),
        ),
{
    let d = decimal::decimal(n);
    decimal::lemma_decimal(n);
    assert forall|i: int| 0 <= i < d.len() implies !text::is_white_space(#[trigger] d[i]) by {
        assert(decimal::is_digit(d[i]));
    }
    lemma_size_parts(d, unit);
    lemma_unit_kept(unit);
    decimal::lemma_whole_number_scaled(n, unit_power(unit));
}

/// The digits of hundredths.
proof fn lemma_digit_char(n: nat)
    requires
        n < 10,
    ensures
        decimal::is_digit(digit_char(n)),
        digit_char(n) as u32 - 48 == n,
{
}

/// A number with two digits behind the point holds no white space, and stands for so many
/// hundredths.
proof fn lemma_hundredths(h: nat, k: nat)
    ensures
        with_hundredths(h).len() > 0,
        forall|i: int|
            0 <= i < with_hundredths(h).len() ==> !text::is_white_space(
                #[trigger] with_hundredths(h)[i],
            ),
        decimal::scaled_number(with_hundredths(h), k) == binary64::scaled_whole(h, 100, k),
{
    let (x, y) = (digit_char(h / 10 % 10), digit_char(h % 10));
    let t = seq![x, y];
    let d = decimal::decimal(h / 100);
    lemma_digit_char(h / 10 % 10);
    lemma_digit_char(h % 10);
    decimal::lemma_decimal(h / 100);
    assert(with_hundredths(h) =~= d.push('.') + t);
    assert forall|i: int| 0 <= i < with_hundredths(h).len() implies !text::is_white_space(
        #[trigger] with_hundredths(h)[i],
    ) by {
        if i < d.len() {
            assert(decimal::is_digit(d[i]));
        }
    }
    decimal::lemma_point_scaled(h / 100, t, k);
    decimal::lemma_two_digits(t);
    assert(h / 100 * 100 + (10 * (h / 10 % 10) + h % 10) == h);
}

/// How the two larger units are written and read.
proof fn lemma_units()
    ensures
        " MB"@ == seq![' '] + "MB"@,
        " GB"@ == seq![' '] + "GB"@,
        unit_power("MB"@) == 20,
        unit_power("GB"@) == 30,
        "MB"@.len() == 2 && "MB"@.last() == 'B',
        "GB"@.len() == 2 && "GB"@.last() == 'B',
        pow2(20) == MB,
        pow2(30) == GB,
{
    reveal_strlit(" MB");
    reveal_strlit(" GB");
    reveal_strlit("KB");
    reveal_strlit("MB");
    reveal_strlit("GB");
    assert(" MB"@ =~= seq![' '] + "MB"@);
    assert(" GB"@ =~= seq![' '] + "GB"@);
    assert(text::uppercase("MB"@) =~= "MB"@);
    assert(text::uppercase("GB"@) =~= "GB"@);
    assert("KB"@[0] != "MB"@[0] && "KB"@[0] != "GB"@[0] && "MB"@[0] != "GB"@[0]);
    lemma2_to64();
}

/// What is read back of a size that is written in megabytes or gigabytes.
proof fn lemma_read_back_units(b: u64)
    requires
        b >= MB,
    ensures
        ({
            let (unit, k) = if b >= GB {
                (GB, 30nat)
            } else {
                (MB, 20nat)
            };
            let h = binary64::half_even(100 * binary64::nearest(b as nat), unit as nat);
            size_bytes(bytes_text(b)) == binary64::scaled_whole(h, 100, k)
        }),
{
    lemma_units();
    let unit = if b >= GB {
        GB
    } else {
        MB
    };
    let h = binary64::half_even(100 * binary64::nearest(b as nat), unit as nat);
    if b >= GB {
        assert(bytes_text(b) =~= with_hundredths(h) + seq![' '] + "GB"@);
        lemma_hundredths(h, 30);
        lemma_size_parts(with_hundredths(h), "GB"@);
        lemma_unit_kept("GB"@);
    } else {
        assert(bytes_text(b) =~= with_hundredths(h) + seq![' '] + "MB"@);
        lemma_hundredths(h, 20);
        lemma_size_parts(with_hundredths(h), "MB"@);
        lemma_unit_kept("MB"@);
    }
}

/// A size that is written and read back is off by what rounding to hundredths can make, and by
/// no more than two bytes beyond.
pub proof fn lemma_read_back_error(b: u64)
    requires
        MB <= b < binary64::TWO_53,
    ensures
        b < GB ==> -5245 <= size_bytes(bytes_text(b)) - b <= 5245,
        b >= GB ==> -5_368_712 <= size_bytes(bytes_text(b)) - b <= 5_368_712,
{
    lemma_units();
    lemma_read_back_units(b);
    binary64::lemma_nearest_exact(b as nat);
    let (unit, k) = if b >= GB {
        (GB as nat, 30nat)
    } else {
        (MB as nat, 20nat)
    };
    let h = binary64::half_even(100 * b as nat, unit);
    binary64::lemma_half_even(100 * b as nat, unit);
    let (m, e) = binary64::rounded(h, 100);
    assert(pow2(k) == unit);
    assert(h > 0) by (nonlinear_arith)
        requires
            2 * (100 * b) - unit <= 2 * (h * unit),
            b >= unit,
            unit > 0,
    ;
    assert(h < 100 * binary64::TWO_53) by (nonlinear_arith)
        requires
            2 * (h * unit) <= 2 * (100 * b) + unit,
            b < binary64::TWO_53,
            unit >= 2,
    ;
    binary64::lemma_scaled_error(h, 100, k);
}

/// A size is read back if it is written in bytes, or if it is a whole number of the unit that it
/// is written in.
pub proof fn lemma_size_read_back(b: u64)
    requires
        b < binary64::TWO_53,
        b < MB || (b < GB && b % MB == 0) || b % GB == 0,
    ensures
        size_bytes(bytes_text(b)) == b,
{
    if b < MB {
        lemma_bytes_read_back(b);
    } else {
        lemma_units();
        lemma_read_back_units(b);
        binary64::lemma_nearest_exact(b as nat);
        let (unit, k) = if b >= GB {
            (GB as nat, 30nat)
        } else {
            (MB as nat, 20nat)
        };
        let n = b as nat / unit;
        lemma_fundamental_div_mod(b as int, unit as int);
        assert(b as nat % unit == 0);
        assert(b == n * unit) by (nonlinear_arith)
            requires
                b == unit * n,
        ;
        let h = binary64::half_even(100 * b as nat, unit);
        assert(100 * b == (100 * n) * unit) by (nonlinear_arith)
            requires
                b == n * unit,
        ;
        lemma_div_multiples_vanish((100 * n) as int, unit as int);
        lemma_mod_multiples_basic((100 * n) as int, unit as int);
        assert((100 * n) * unit == unit * (100 * n)) by (nonlinear_arith);
        assert(h == 100 * n);
        binary64::lemma_rounded_reduced(n, 1, 100);
        binary64::lemma_scaled_exact(n, k);
    }
}

/// A size that is written in bytes is read back.
proof fn lemma_bytes_read_back(b: u64)
    requires
        b < MB,
    ensures
        size_bytes(bytes_text(b)) == b,
{
    reveal_strlit(" B");
    reveal_strlit("KB");
    reveal_strlit("MB");
    reveal_strlit("GB");
    reveal_strlit("TB");
    let d = decimal::decimal(b as nat);
    let unit = seq!['B'];
    assert(" B"@ =~= seq![' '] + unit);
    assert(bytes_text(b) =~= d + seq![' '] + unit);
    lemma_whole_sizes(b as nat, unit);
    lemma2_to64();
    assert(text::uppercase(unit).len() == 1);
    assert(b * pow2(0) == b) by (nonlinear_arith)
        requires
            pow2(0) == 1,
    ;
}

/// Where nothing but white space stands there is no size.
pub proof fn lemma_no_size(s: Seq<char>)
    requires
        forall|i: int| 0 <= i < s.len() ==> text::is_white_space(#[trigger] s[i]),
    ensures
        size_bytes(s) == 0,
{
    text::lemma_trim(s, seq![], seq![]);
    assert(s + seq![] + seq![] =~= s);
    let t = size_number(s);
    text::lemma_find(text::trim(s), ' ');
    assert(t.len() == 0);
    if decimal::number_of(t) is Some {
        decimal::lemma_number_not_empty(t);
    }
}

/// The four units in any case, and that everything else counts as bytes.
pub proof fn lemma_unit_power(unit: Seq<char>)
    ensures
        ({
            let bytes = unit.len() == 2 && (unit[1] == 'b' || unit[1] == 'B');
            let k = unit_power(unit);
            &&& bytes && (unit[0] == 'k' || unit[0] == 'K') ==> k == 10
            &&& bytes && (unit[0] == 'm' || unit[0] == 'M') ==> k == 20
            &&& bytes && (unit[0] == 'g' || unit[0] == 'G') ==> k == 30
            &&& bytes && (unit[0] == 't' || unit[0] == 'T') ==> k == 40
            &&& k != 0 ==> bytes
            &&& k == 10 ==> unit[0] == 'k' || unit[0] == 'K'
            &&& k == 20 ==> unit[0] == 'm' || unit[0] == 'M'
            &&& k == 30 ==> unit[0] == 'g' || unit[0] == 'G'
            &&& k == 40 ==> unit[0] == 't' || unit[0] == 'T'
            &&& k == 0 || k == 10 || k == 20 || k == 30 || k == 40
        }),
{
    reveal_strlit("KB");
    reveal_strlit("MB");
    reveal_strlit("GB");
    reveal_strlit("TB");
    let u = text::uppercase(unit);
    assert(u.len() == unit.len());
    assert("KB"@.len() == 2 && "MB"@.len() == 2 && "GB"@.len() == 2 && "TB"@.len() == 2);
    assert("KB"@[0] == 'K' && "MB"@[0] == 'M' && "GB"@[0] == 'G' && "TB"@[0] == 'T');
    assert("KB"@[1] == 'B' && "MB"@[1] == 'B' && "GB"@[1] == 'B' && "TB"@[1] == 'B');
    if unit.len() == 2 {
        assert(u[0] == text::upper(unit[0]) && u[1] == text::upper(unit[1]));
        if u[1] == 'B' {
            if u[0] == 'K' {
                assert(u =~= "KB"@);
            } else if u[0] == 'M' {
                assert(u =~= "MB"@);
            } else if u[0] == 'G' {
                assert(u =~= "GB"@);
            } else if u[0] == 'T' {
                assert(u =~= "TB"@);
            }
        }
    }
}

/// A size with a unit is the number before the first space, times the unit behind it; white
/// space around it does not matter.
pub proof fn lemma_size_with_unit(
    before: Seq<char>,
    number: Seq<char>,
    unit: Seq<char>,
    behind: Seq<char>,
)
    requires
        forall|i: int| 0 <= i < before.len() ==> text::is_white_space(#[trigger] before[i]),
        forall|i: int| 0 <= i < behind.len() ==> text::is_white_space(#[trigger] behind[i]),
        number.len() > 0,
        !text::is_white_space(number[0]),
        !number.contains(' '),
        unit.len() > 0,
        !text::is_white_space(unit.last()),
    ensures
        size_bytes(before + (number + seq![' '] + unit) + behind) == decimal::scaled_number(
            number,
            unit_power(unit),
        ),
{
    let t = number + seq![' '] + unit;
    assert(t[0] == number[0] && t.last() == unit.last());
    text::lemma_trim(before, t, behind);
    assert forall|i: int| 0 <= i < number.len() implies t[i] != ' ' by {
        assert(number.contains(number[i]));
    }
    text::lemma_find_is(t, ' ', number.len() as int);
    assert(t.take(number.len() as int) =~= number);
    assert(t.skip(number.len() as int + 1) =~= unit);
}

/// A size without a unit is in bytes; white space around it does not matter.
pub proof fn lemma_size_without_unit(before: Seq<char>, number: Seq<char>, behind: Seq<char>)
    requires
        forall|i: int| 0 <= i < before.len() ==> text::is_white_space(#[trigger] before[i]),
        forall|i: int| 0 <= i < behind.len() ==> text::is_white_space(#[trigger] behind[i]),
        number.len() > 0,
        !text::is_white_space(number[0]),
        !text::is_white_space(number.last()),
        !number.contains(' '),
    ensures
        size_bytes(before + number + behind) == decimal::scaled_number(number, 0),
{
    text::lemma_trim(before, number, behind);
    assert forall|i: int| 0 <= i < number.len() implies number[i] != ' ' by {
        assert(number.contains(number[i]));
    }
    text::lemma_find_is(number, ' ', number.len() as int);
    assert(number.take(number.len() as int) =~= number);
    reveal_strlit("B");
    lemma_unit_power("B"@);
}

/// Bytes are written as they are, megabytes and gigabytes as so many hundredths, which are the
/// nearest ones, a tie the even one. A number of more than 53 bits is rounded to these first.
pub proof fn lemma_bytes_text(b: u64) -> (h: nat)
    ensures
        b < 1_048_576 ==> bytes_text(b) == decimal::decimal(b as nat) + " B"@,
        b >= 1_048_576 ==> {
            let unit = if b < 1_073_741_824 {
                1_048_576nat
            } else {
                1_073_741_824nat
            };
            let name = if b < 1_073_741_824 {
                " MB"@
            } else {
                " GB"@
            };
            let n = binary64::nearest(b as nat);
            let tens = (48 + h / 10 % 10) as char;
            let ones = (48 + h % 10) as char;
            &&& bytes_text(b) == decimal::decimal(h / 100) + seq!['.', tens, ones] + name
            &&& 200 * n - unit <= 2 * (h * unit) <= 200 * n + unit
            &&& 2 * (h * unit) == 200 * n - unit || 2 * (h * unit) == 200 * n + unit ==> h % 2 == 0
            &&& b < 0x20_0000_0000_0000 ==> n == b
        },
{
    if b < 1_048_576 {
        0
    } else {
        let unit = if b < 1_073_741_824 {
            1_048_576nat
        } else {
            1_073_741_824nat
        };
        let n = binary64::nearest(b as nat);
        if b < 0x20_0000_0000_0000 {
            binary64::lemma_nearest_exact(b as nat);
        }
        let h = binary64::half_even(100 * n, unit);
        binary64::lemma_half_even(100 * n, unit);
        if 2 * (h * unit) == 200 * n - unit || 2 * (h * unit) == 200 * n + unit {
            binary64::lemma_half_even_tie(100 * n, unit);
        }
        let tens = (48 + h / 10 % 10) as char;
        let ones = (48 + h % 10) as char;
        lemma_digit_char(h / 10 % 10);
        lemma_digit_char(h % 10);
        assert(with_hundredths(h) =~= decimal::decimal(h / 100) + seq!['.', tens, ones]);
        h
    }
}

/// How many bytes the two larger units have.
pub proof fn lemma_unit_bytes()
    ensures
        MB == 1024 * 1024,
        GB == 1024 * MB,
{
}

} // verus!
