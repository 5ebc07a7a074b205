use docker_metrics_exporter::parser::{parse_bytes, parse_io, parse_percent, Unit};

/// The bytes of a size as floating-point arithmetic gives them: the number
/// before the unit read as an `f64`, times the unit, cut to a `u64`.
fn float_bytes(s: &str) -> u64 {
    let units = [("GiB", 1073741824u64), ("MiB", 1048576), ("kB", 1024), ("B", 1)];
    for (unit, factor) in units {
        if s.ends_with(unit) {
            let number = s[..s.len() - unit.len()].trim().replace(',', ".");
            let value = number.parse::<f64>().unwrap_or(0.0);
            return (value * factor as f64) as u64;
        }
    }
    0
}

#[test]
fn size_with_each_unit() {
    assert_eq!(parse_bytes("0B"), 0);
    assert_eq!(parse_bytes("512B"), 512);
    assert_eq!(parse_bytes("1kB"), 1024);
    assert_eq!(parse_bytes("10MiB"), 10485760);
    assert_eq!(parse_bytes("2GiB"), 2147483648);
}

#[test]
fn size_is_number_times_unit_rounded_down() {
    assert_eq!(parse_bytes("1.5kB"), 1536);
    assert_eq!(parse_bytes("1.2kB"), 1228);
    assert_eq!(parse_bytes("3.4kB"), 3481);
    assert_eq!(parse_bytes("4.2MiB"), 4404019);
    assert_eq!(parse_bytes("1.952GiB"), 2095944040);
    assert_eq!(parse_bytes("0.9B"), 0);
    assert_eq!(parse_bytes("0.001kB"), 1);
    assert_eq!(parse_bytes("0.0009kB"), 0);
}

#[test]
fn size_with_comma_for_the_point() {
    assert_eq!(parse_bytes("1,5kB"), 1536);
    assert_eq!(parse_bytes("4,2MiB"), 4404019);
    assert_eq!(parse_bytes("1,952GiB"), parse_bytes("1.952GiB"));
    assert_eq!(parse_bytes("1,2,3kB"), 0);
    assert_eq!(parse_bytes("1,000.5kB"), 0);
}

#[test]
fn size_without_a_number_or_a_unit_is_zero() {
    assert_eq!(parse_bytes("--"), 0);
    assert_eq!(parse_bytes(""), 0);
    assert_eq!(parse_bytes("B"), 0);
    assert_eq!(parse_bytes("kB"), 0);
    assert_eq!(parse_bytes("12"), 0);
    assert_eq!(parse_bytes("12KB"), 12 * 0);
    assert_eq!(parse_bytes("12kb"), 0);
    assert_eq!(parse_bytes("12 TiB"), 0);
    assert_eq!(parse_bytes("1kB "), 0);
    assert_eq!(parse_bytes("abcMiB"), 0);
    assert_eq!(parse_bytes(".kB"), 0);
}

#[test]
fn longer_unit_is_tried_before_shorter() {
    assert_eq!(parse_bytes("1GiB"), 1073741824);
    assert_eq!(parse_bytes("1MiB"), 1048576);
    assert_eq!(parse_bytes("1kB"), 1024);
    assert_eq!(parse_bytes("1B"), 1);
    assert_eq!(parse_bytes("1iB"), 0);
    assert_eq!(parse_bytes("1KiB"), 0);
    assert_eq!(parse_bytes("1GB"), 0);
}

#[test]
fn white_space_between_number_and_unit_is_left_out() {
    assert_eq!(parse_bytes("3 kB"), 3072);
    assert_eq!(parse_bytes("  3 kB"), 3072);
    assert_eq!(parse_bytes("\t3\u{a0}kB"), 3072);
    assert_eq!(parse_bytes("\u{2003}3\u{3000}kB"), 3072);
    assert_eq!(parse_bytes("3\u{200b}kB"), 0);
    assert_eq!(parse_bytes("1 2kB"), 0);
}

#[test]
fn size_in_every_form_of_number() {
    assert_eq!(parse_bytes("1e3B"), 1000);
    assert_eq!(parse_bytes("1E3kB"), 1024000);
    assert_eq!(parse_bytes("2.5e-1kB"), 256);
    assert_eq!(parse_bytes("25e-2kB"), 256);
    assert_eq!(parse_bytes("1e+2B"), 100);
    assert_eq!(parse_bytes("1e-0B"), 1);
    assert_eq!(parse_bytes("+7B"), 7);
    assert_eq!(parse_bytes(".5kB"), 512);
    assert_eq!(parse_bytes("5.kB"), 5120);
    assert_eq!(parse_bytes("007B"), 7);
    assert_eq!(parse_bytes("1eB"), 0);
    assert_eq!(parse_bytes("1e+B"), 0);
    assert_eq!(parse_bytes("e5B"), 0);
    assert_eq!(parse_bytes("1e5.0B"), 0);
    assert_eq!(parse_bytes("++1B"), 0);
    assert_eq!(parse_bytes("0x10B"), 0);
}

#[test]
fn negative_and_unbounded_sizes() {
    assert_eq!(parse_bytes("-7B"), 0);
    assert_eq!(parse_bytes("-0B"), 0);
    assert_eq!(parse_bytes("-1.5GiB"), 0);
    assert_eq!(parse_bytes("infB"), u64::MAX);
    assert_eq!(parse_bytes("+InfinityB"), u64::MAX);
    assert_eq!(parse_bytes("INFkB"), u64::MAX);
    assert_eq!(parse_bytes("-infinityB"), 0);
    assert_eq!(parse_bytes("NaNGiB"), 0);
    assert_eq!(parse_bytes("-nanB"), 0);
    assert_eq!(parse_bytes("infinitB"), 0);
}

#[test]
fn size_is_kept_within_u64() {
    assert_eq!(parse_bytes("18446744073709551614B"), 18446744073709551614);
    assert_eq!(parse_bytes("18446744073709551615B"), u64::MAX);
    assert_eq!(parse_bytes("18446744073709551616B"), u64::MAX);
    assert_eq!(parse_bytes("17179869183GiB"), 17179869183 * 1073741824);
    assert_eq!(parse_bytes("17179869184GiB"), u64::MAX);
    assert_eq!(parse_bytes("99999999999999999999999GiB"), u64::MAX);
    assert_eq!(parse_bytes("1e20B"), u64::MAX);
    assert_eq!(parse_bytes("1e19B"), 10000000000000000000);
    assert_eq!(parse_bytes("1e400B"), u64::MAX);
    assert_eq!(parse_bytes("1e99999999999999999999999999999999999999B"), u64::MAX);
    assert_eq!(parse_bytes("0e99999999999999999999999999999999999999B"), 0);
}

#[test]
fn very_small_and_very_long_numbers() {
    assert_eq!(parse_bytes("1e-400GiB"), 0);
    assert_eq!(parse_bytes("1e-99999999999999999999999999999999999999GiB"), 0);
    assert_eq!(parse_bytes("0.00000000000000000000000000001e29B"), 1);
    assert_eq!(parse_bytes("1000000000000000000000000000000e-30kB"), 1024);
    assert_eq!(parse_bytes("0.000000000931322574615478515625GiB"), 1);
    assert_eq!(parse_bytes("0.000000000931322574615478515624GiB"), 0);
    assert_eq!(parse_bytes("1.99999999999999999999999999999B"), 1);
    assert_eq!(parse_bytes("123456789.123456789kB"), 126419752062);
}

#[test]
fn size_agrees_with_floating_point_on_ordinary_input() {
    let numbers = [
        "0", "1", "5", "7.5", "10", "12.34", "45.30", "99.99", "100", "128", "256.5", "512",
        "999.9", "1023", "1.2", "3.4", "4.2", "1.952", "0.5", "0.01", "15.82", "7.629", "2,5",
        "1e3", "2.5e-1", "--", "", "abc", "-3", ".5", "5.",
    ];
    let units = ["B", "kB", "MiB", "GiB", "", "KB", "TiB"];
    for number in numbers {
        for unit in units {
            for gap in ["", " "] {
                let text = format!("{}{}{}", number, gap, unit);
                assert_eq!(parse_bytes(&text), float_bytes(&text), "{}", text);
            }
        }
    }
}

#[test]
fn unit_factors() {
    assert_eq!(Unit::Byte.bytes(), 1);
    assert_eq!(Unit::Kilobyte.bytes(), 1024);
    assert_eq!(Unit::Mebibyte.bytes(), 1024 * 1024);
    assert_eq!(Unit::Gibibyte.bytes(), 1024 * 1024 * 1024);
    assert_eq!(Unit::Byte.suffix_len(), 1);
    assert_eq!(Unit::Kilobyte.suffix_len(), 2);
    assert_eq!(Unit::Mebibyte.suffix_len(), 3);
    assert_eq!(Unit::Gibibyte.suffix_len(), 3);
}

#[test]
fn pair_of_sizes() {
    assert_eq!(parse_io("1.2kB / 3.4kB"), (1228, 3481));
    assert_eq!(parse_io("10MiB / 100MiB"), (10485760, 104857600));
    assert_eq!(parse_io("1kB / 2kB"), (1024, 2048));
    assert_eq!(parse_io("0B / 0B"), (0, 0));
    assert_eq!(parse_io("1B/2B"), (1, 2));
    assert_eq!(parse_io("  1B  /  2B  "), (1, 2));
    assert_eq!(parse_io("1,5kB / 2,5kB"), (1536, 2560));
}

#[test]
fn pair_with_a_side_missing() {
    assert_eq!(parse_io("5kB"), (5120, 0));
    assert_eq!(parse_io("5kB /"), (5120, 0));
    assert_eq!(parse_io("/ 2kB"), (0, 2048));
    assert_eq!(parse_io(""), (0, 0));
    assert_eq!(parse_io("/"), (0, 0));
    assert_eq!(parse_io("-- / --"), (0, 0));
    assert_eq!(parse_io("-- / 7B"), (0, 7));
    assert_eq!(parse_io("7B / --"), (7, 0));
}

#[test]
fn pair_reads_no_third_size() {
    assert_eq!(parse_io("1B/2B/3B"), (1, 2));
    assert_eq!(parse_io("1B//3B"), (1, 0));
}

#[test]
fn percent_literal() {
    assert_eq!(parse_percent("12.34%"), "12.34");
    assert_eq!(parse_percent("0.00%"), "0.00");
    assert_eq!(parse_percent("bogus"), "0");
    assert_eq!(parse_percent("12,34%"), "12.34");
    assert_eq!(parse_percent("5%%"), "5");
    assert_eq!(parse_percent("5"), "5");
    assert_eq!(parse_percent("1e2%"), "1e2");
    assert_eq!(parse_percent("-3.5%"), "-3.5");
    assert_eq!(parse_percent(",5%"), ".5");
    assert_eq!(parse_percent("nan%"), "nan");
}

#[test]
fn percent_that_is_no_number_is_zero() {
    assert_eq!(parse_percent(""), "0");
    assert_eq!(parse_percent("%"), "0");
    assert_eq!(parse_percent("--"), "0");
    assert_eq!(parse_percent(" 5%"), "0");
    assert_eq!(parse_percent("5 %"), "0");
    assert_eq!(parse_percent("5%x"), "0");
    assert_eq!(parse_percent("%5"), "0");
    assert_eq!(parse_percent("1,2,3%"), "0");
    assert_eq!(parse_percent("1.2.3%"), "0");
}

#[test]
fn percent_as_a_float() {
    assert_eq!(parse_percent("12.34%").parse::<f64>().unwrap(), 12.34);
    assert_eq!(parse_percent("0.00%").parse::<f64>().unwrap(), 0.0);
    assert_eq!(parse_percent("bogus").parse::<f64>().unwrap(), 0.0);
    assert_eq!(parse_percent("12,34%").parse::<f64>().unwrap(), 12.34);
}

#[test]
fn percent_literal_is_what_a_float_reader_takes() {
    let texts = [
        "", "+", "-", ".", "1", "1.", ".1", "+1", "-1", "+.5", "-5.", "1e", "1e+", "1e-", "1e5",
        "1E5", "1e+5", "1e-5", "1e05", "e5", ".e5", "1.e5", ".5e5", "1e5.0", "1e5e5", "inf",
        "INF", "Inf", "iNf", "infinity", "INFINITY", "Infinity", "infinit", "infinityy", "in",
        "+inf", "-inf", "+infinity", "-Infinity", "nan", "NaN", "NAN", "+nan", "-nan", "nana",
        "na", "++1", "+-1", "--1", "1+", "1-", "1_000", "0x10", "1f", "1f64", " 1", "1 ", "1 2",
        "1.2.3", "1..2", "..", "0", "00", "0.0", "-0", "000.000", "12.34", "١", "1\u{660}",
        "\u{ff11}", "1é", "ı", "\u{130}nf", "\u{212a}", "na\u{ff4e}", "1e\u{661}", "1.0e",
        "123456789012345678901234567890", "0.000000000000000000000000000001",
        "1e99999999999999999999", "1e-99999999999999999999",
    ];
    for text in texts {
        let expected = if text.parse::<f64>().is_ok() { text } else { "0" };
        assert_eq!(parse_percent(text), expected, "{:?}", text);
    }
}

#[test]
fn white_space_is_what_unicode_calls_so() {
    for code in 0..=0x10ffffu32 {
        if let Some(c) = char::from_u32(code) {
            let before = parse_bytes(&format!("{}7B", c));
            let after = parse_bytes(&format!("7{}B", c));
            let taken_before = c.is_whitespace() || c == '+' || c == '0';
            let taken_after = c.is_whitespace() || c == '.' || c == ',';
            assert_eq!(before == 7, taken_before, "{:?} before", c);
            assert_eq!(after == 7, taken_after, "{:?} after", c);
        }
    }
}

#[test]
fn digits_are_the_ten_of_ascii() {
    for code in 0..=0x10ffffu32 {
        if let Some(c) = char::from_u32(code) {
            let bytes = parse_bytes(&format!("{}B", c));
            let expected = match c.to_digit(10) {
                Some(d) if c.is_ascii() => u64::from(d),
                _ => 0,
            };
            assert_eq!(bytes, expected, "{:?}", c);
        }
    }
}

#[test]
fn pair_is_cut_at_slashes_only() {
    for code in 0..=0x10ffffu32 {
        if let Some(c) = char::from_u32(code) {
            let pair = parse_io(&format!("1B{}2B", c));
            if c == '/' {
                assert_eq!(pair, (1, 2));
            } else {
                assert_eq!(pair.1, 0, "{:?}", c);
            }
        }
    }
}

#[test]
fn percent_signs_alone_are_taken_from_the_end() {
    for code in 0..=0x10ffffu32 {
        if let Some(c) = char::from_u32(code) {
            let text = format!("5{}", c);
            let kept: &str = if c == '%' { "5" } else { &text };
            let kept = kept.replace(',', ".");
            let expected = if kept.parse::<f64>().is_ok() { kept.as_str() } else { "0" };
            assert_eq!(parse_percent(&text), expected, "{:?}", c);
        }
    }
}

/// A short run of numbers that looks random and is the same at every run.
struct Dice(u64);

impl Dice {
    fn roll(&mut self, sides: u64) -> u64 {
        self.0 = self.0.wrapping_mul(6364136223846793005).wrapping_add(1442695040888963407);
        (self.0 >> 33) % sides
    }
}

#[test]
fn size_of_any_plain_decimal_is_number_times_unit_rounded_down() {
    let units = [("B", 1u128), ("kB", 1024), ("MiB", 1048576), ("GiB", 1073741824)];
    let mut dice = Dice(7);
    for _ in 0..20000 {
        let whole_len = dice.roll(12) as usize;
        let frac_len = dice.roll(12) as usize;
        if whole_len + frac_len == 0 {
            continue;
        }
        let mut digits = String::new();
        for _ in 0..whole_len + frac_len {
            digits.push(char::from(b'0' + dice.roll(10) as u8));
        }
        let point = if dice.roll(2) == 0 { '.' } else { ',' };
        let (unit, factor) = units[dice.roll(4) as usize];
        let text = format!("{}{}{}{}", &digits[..whole_len], point, &digits[whole_len..], unit);
        let number: u128 = digits.parse().unwrap();
        let expected = (number * factor / 10u128.pow(frac_len as u32)).min(u64::MAX as u128);
        assert_eq!(parse_bytes(&text) as u128, expected, "{}", text);
    }
}

#[test]
fn size_agrees_with_floating_point_on_figures_as_the_runtime_writes_them() {
    let units = ["B", "kB", "MiB", "GiB"];
    let mut dice = Dice(11);
    for _ in 0..20000 {
        let whole = dice.roll(10000);
        let frac_len = dice.roll(4) as usize;
        let frac = dice.roll(10u64.pow(frac_len as u32));
        let point = if dice.roll(2) == 0 { "." } else { "," };
        let gap = if dice.roll(2) == 0 { "" } else { " " };
        let unit = units[dice.roll(4) as usize];
        let text = if frac_len == 0 {
            format!("{}{}{}", whole, gap, unit)
        } else {
            format!("{}{}{:0width$}{}{}", whole, point, frac, gap, unit, width = frac_len)
        };
        assert_eq!(parse_bytes(&text), float_bytes(&text), "{}", text);
        let pair = format!("{} / {}", text, text);
        assert_eq!(parse_io(&pair), (float_bytes(&text), float_bytes(&text)), "{}", pair);
    }
}
