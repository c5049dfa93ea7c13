use ndnblk::binary64::{nearest_of, truncated, whole_of};
use ndnblk::size::{fmt_bytes, parse_size_bytes};

/// The size by way of doubles.
fn by_doubles(s: &str) -> u64 {
    let s = s.trim();
    let (num, unit) = s.split_once(' ').unwrap_or((s, "B"));
    let n: f64 = num.parse().unwrap_or(0.0);
    let mult = match unit.to_ascii_uppercase().as_str() {
        "KB" => 1_024.0,
        "MB" => 1_048_576.0,
        "GB" => 1_073_741_824.0,
        "TB" => 1_099_511_627_776.0,
        _ => 1.0,
    };
    (n * mult) as u64
}

/// The text by way of doubles.
fn text_by_doubles(b: u64) -> String {
    const GB: u64 = 1_073_741_824;
    const MB: u64 = 1_048_576;
    if b >= GB {
        format!("{:.2} GB", b as f64 / GB as f64)
    } else if b >= MB {
        format!("{:.2} MB", b as f64 / MB as f64)
    } else {
        format!("{} B", b)
    }
}

/// Pseudo random numbers, the same on every run.
struct Lcg(u64);

impl Lcg {
    fn next(&mut self) -> u64 {
        self.0 = self.0.wrapping_mul(6364136223846793005).wrapping_add(1442695040888963407);
        self.0 ^ (self.0 >> 29)
    }
}

#[test]
fn sizes_with_units() {
    assert_eq!(parse_size_bytes("0 B"), 0);
    assert_eq!(parse_size_bytes("512"), 512);
    assert_eq!(parse_size_bytes("1 KB"), 1024);
    assert_eq!(parse_size_bytes("1.5 GB"), 1_610_612_736);
    assert_eq!(parse_size_bytes("  700.25 mb \n"), 734_265_344);
    assert_eq!(parse_size_bytes("2 Tb"), 2_199_023_255_552);
    assert_eq!(parse_size_bytes("3 PB"), 3);
    assert_eq!(parse_size_bytes("1.1 KB"), 1126);
}

#[test]
fn sizes_that_cannot_be_read() {
    for s in ["", " ", "GB", "x MB", "-1 GB", "nan KB", "-inf", "1,5 GB", "1e", ".", "+", "-", "1.2.3 KB"] {
        assert_eq!(parse_size_bytes(s), 0, "{s:?}");
    }
    assert_eq!(parse_size_bytes("inf"), u64::MAX);
    assert_eq!(parse_size_bytes("+INFINITY kb"), u64::MAX);
    assert_eq!(parse_size_bytes("1e300 TB"), u64::MAX);
    assert_eq!(parse_size_bytes("1e99999999999999999999999999999999999999"), u64::MAX);
    assert_eq!(parse_size_bytes("1e-99999999999999999999999999999999999999 TB"), 0);
}

#[test]
fn a_second_space_belongs_to_the_unit() {
    assert_eq!(parse_size_bytes("1  GB"), 1);
}

#[test]
fn sizes_are_rounded_like_doubles() {
    // The double nearest to the number is one.
    assert_eq!(parse_size_bytes("0.99999999999999999999"), 1);
    assert_eq!(parse_size_bytes("9007199254740993"), 9007199254740992);
    assert_eq!(parse_size_bytes("9007199254740993.00000000000000000000000001"), 9007199254740994);
    assert_eq!(parse_size_bytes("18446744073709551615"), u64::MAX);
}

#[test]
fn sizes_agree_with_doubles_on_written_numbers() {
    let units = ["", " B", " KB", " mb", " Gb", " TB", " XB"];
    let numbers = [
        "0", "1", "00012.500", "5.", ".5", "1e3", "1E+3", "2.5e-1", "1e19", "1.8446744073709551615e19",
        "1.84467440737095516e19", "1e20", "4503599627370496.5", "4503599627370497.5",
        "9007199254740991.5", "0.5", "0.49999999999999999", "4.5474735088646411895751953125e-13",
        "4.547e-13", "1e-30", "123456789012345678901234567890e-25", "infinity", "iNf", "NaN", "+7.25",
        "-7.25", "1e", "e5", "1.e2", "1..2", "1_0", "\u{663}", "0x10", "999.99", "0.1", "0.3", "1023.9999999999999999",
    ];
    for n in numbers {
        for u in units {
            let s = format!("{n}{u}");
            assert_eq!(parse_size_bytes(&s), by_doubles(&s), "{s:?}");
        }
    }
}

#[test]
fn sizes_agree_with_doubles_on_many_numbers() {
    let units = ["", " KB", " MB", " GB", " TB"];
    let mut g = Lcg(1);
    for i in 0..20000u64 {
        let a = g.next() >> (g.next() % 60);
        let b = g.next() >> (g.next() % 60);
        let e = (g.next() % 40) as i64 - 20;
        let s = match i % 4 {
            0 => format!("{a}{}", units[(i % 5) as usize]),
            1 => format!("{a}.{b}{}", units[(i % 5) as usize]),
            2 => format!("{a}.{b}e{e}{}", units[(i % 5) as usize]),
            _ => format!("{}{}", f64::from_bits(a % (1 << 52) + ((1000 + b % 90) << 52)), units[(i % 5) as usize]),
        };
        assert_eq!(parse_size_bytes(&s), by_doubles(&s), "{s:?}");
    }
}

#[test]
fn halfway_sizes_round_to_even() {
    // Numbers halfway between two doubles, and the nearest decimals on either side.
    let mut g = Lcg(7);
    for _ in 0..2000 {
        let m = (1u64 << 52) + g.next() % (1 << 52);
        let sh = g.next() % 11;
        let low = ((m as u128) << sh) + if sh > 0 { 1 << (sh - 1) } else { 0 };
        let tail = if sh == 0 { ".5" } else { "" };
        for s in [
            format!("{low}{tail}"),
            format!("{low}{}0000000000000000000000000000000001", if tail.is_empty() { "." } else { tail }),
            format!("{}.4999999999999999999999999999999999", if sh == 0 { low } else { low - 1 }),
            format!("{}.9999999999999999999999999999999999", low - 1),
        ] {
            assert_eq!(parse_size_bytes(&s), by_doubles(&s), "{s:?}");
        }
    }
}

#[test]
fn bytes_as_text() {
    assert_eq!(fmt_bytes(0), "0 B");
    assert_eq!(fmt_bytes(1_048_575), "1048575 B");
    assert_eq!(fmt_bytes(1_048_576), "1.00 MB");
    assert_eq!(fmt_bytes(1_073_741_823), "1024.00 MB");
    assert_eq!(fmt_bytes(1_073_741_824), "1.00 GB");
    assert_eq!(fmt_bytes(1_610_612_736), "1.50 GB");
    // Halfway between two hundredths: to the even one.
    assert_eq!(fmt_bytes(9 << 27), "1.12 GB");
    assert_eq!(fmt_bytes(11 << 27), "1.38 GB");
    assert_eq!(fmt_bytes(u64::MAX), "17179869184.00 GB");
}

#[test]
fn text_agrees_with_doubles() {
    let mut g = Lcg(3);
    for i in 0..64 {
        for d in -3i64..4 {
            let b = (1u64 << i).wrapping_add(d as u64);
            assert_eq!(fmt_bytes(b), text_by_doubles(b), "{b}");
        }
    }
    for _ in 0..20000 {
        let b = g.next() >> (g.next() % 64);
        assert_eq!(fmt_bytes(b), text_by_doubles(b), "{b}");
        let tie = (g.next() % 10000) << 27;
        assert_eq!(fmt_bytes(tie), text_by_doubles(tie), "{tie}");
    }
}

#[test]
fn bit_patterns_truncate_like_doubles() {
    for x in [
        0.0f64, -0.0, 0.5, 0.999, 1.0, 1.5, -1.5, 1e10, 1.8e19, 1.9e19, 1e300, 5e-324, f64::MAX, f64::INFINITY,
        f64::NEG_INFINITY, f64::NAN, -f64::NAN,
    ] {
        assert_eq!(truncated(x.to_bits()), x as u64, "{x}");
    }
    let mut g = Lcg(5);
    for _ in 0..20000 {
        let bits = g.next();
        assert_eq!(truncated(bits), f64::from_bits(bits) as u64, "{bits}");
        let near = bits % (1 << 52) + ((1000 + bits % 100) << 52);
        assert_eq!(truncated(near), f64::from_bits(near) as u64, "{near}");
    }
}

#[test]
fn whole_parts() {
    assert_eq!(whole_of(3, 2), 12);
    assert_eq!(whole_of(13, -2), 3);
    assert_eq!(whole_of(1, 64), u64::MAX);
    assert_eq!(whole_of(u64::MAX, -64), 0);
    assert_eq!(whole_of(0, 1000), 0);
    assert_eq!(nearest_of(9007199254740993), 9007199254740992);
    assert_eq!(nearest_of(u64::MAX), 1 << 64);
}

#[test]
fn larger_numbers_give_no_fewer_bytes() {
    let numbers = [
        "-inf", "-1e400", "-1", "-0", "0", "1e-400", "5e-324", "0.1", "0.99999999999999999999", "1", "1.5", "1023.99",
        "9007199254740992", "9007199254740993", "1e19", "1e308", "1e309", "infinity",
    ];
    for unit in ["", " ", "B", "KB", "mb", "GB \t", "TB", "x y"] {
        for pair in numbers.windows(2) {
            let low = parse_size_bytes(&format!("{} {unit}", pair[0]));
            let high = parse_size_bytes(&format!("{} {unit}", pair[1]));
            assert!(low <= high, "{pair:?} {unit:?}");
        }
    }
    // Two numbers that round to one double give the same size.
    assert_eq!(parse_size_bytes("9007199254740993 KB"), parse_size_bytes("9007199254740992 KB"));
}

#[test]
fn sizes_are_read_back() {
    for b in [0, 1, 999, 1_048_575] {
        assert_eq!(parse_size_bytes(&fmt_bytes(b)), b);
    }
    for n in 1..1024 {
        assert_eq!(parse_size_bytes(&fmt_bytes(n << 20)), n << 20);
    }
    for n in (1..1 << 23).step_by(4001) {
        assert_eq!(parse_size_bytes(&fmt_bytes(n << 30)), n << 30);
    }
    assert_eq!(parse_size_bytes(&fmt_bytes(((1 << 23) - 1) << 30)), ((1 << 23) - 1) << 30);
    assert_eq!(parse_size_bytes(&fmt_bytes(1_073_741_823)), 1_073_741_824);
}

#[test]
fn sizes_are_read_back_up_to_rounding() {
    let mut g = Lcg(11);
    for _ in 0..20000 {
        let b = g.next() >> (11 + g.next() % 33);
        let off = parse_size_bytes(&fmt_bytes(b)).abs_diff(b);
        let most = if b < 1 << 20 {
            0
        } else if b < 1 << 30 {
            5245
        } else {
            5_368_712
        };
        assert!(off <= most, "{b} is off by {off}");
    }
}
