use bytesize::parse_prefix;
use bytesize::ByteSize;
use bytesize::ParseByteSizeError;
use bytesize::Parsed;

/// Reads a size, multiplying a binary-prefixed number out in floating
/// point.
fn read(text: &str) -> Result<ByteSize, ParseByteSizeError> {
    match ByteSize::parse(text)? {
        Parsed::Decimal(size) => Ok(size),
        Parsed::Binary { digits, scale } => {
            let number: f64 = match text[..digits].parse() {
                Ok(f) => f,
                Err(_) => return Err(ParseByteSizeError::InvalidNumber),
            };
            let scaled = (number * 1024.0f64.powi(scale as i32)).round();
            ByteSize::from_scaled(scaled as u128)
        }
    }
}

#[test]
fn test_parse() {
    // SI sizes.
    const SIZEK: u64 = 1000;
    const SIZEM: u64 = 1000 * SIZEK;
    const SIZEG: u64 = 1000 * SIZEM;
    const SIZET: u64 = 1000 * SIZEG;
    const SIZEP: u64 = 1000 * SIZET;
    const SIZEE: u64 = 1000 * SIZEP;

    // Binary prefix sizes.
    const SIZEKI: u64 = 1 << 10;
    const SIZEMI: u64 = 1 << 20;
    const SIZEGI: u64 = 1 << 30;
    const SIZETI: u64 = 1 << 40;
    const SIZEPI: u64 = 1 << 50;
    const SIZEEI: u64 = 1 << 60;

    let tests: Vec<(&str, &str, u64)> = vec![
        // Integers + decimal units.
        ("0", "", 0),
        ("23", "", 23),
        ("103", "k", 103 * SIZEK),
        ("12", "m", 12 * SIZEM),
        ("3", "g", 3 * SIZEG),
        ("715", "t", 715 * SIZET),
        ("9", "p", 9 * SIZEP),
        ("5", "e", 5 * SIZEE),
        ("18446744073709551615", "", u64::MAX),
        // Fractions + decimal units.
        ("1.205", "k", 1205),
        ("16.6", "m", 16600 * SIZEK),
        ("18.446744073709551615", "e", u64::MAX),
        ("0.018", "z", 18 * SIZEE),
        // Fractions of a byte round to even.
        ("1.4", "", 1),
        ("1.5", "", 2),
        ("1.9", "", 2),
        ("2.1", "", 2),
        ("2.5000", "", 2),
        ("2.50001", "", 3),
        ("1.2306", "k", 1231),
        // Integers + binary units.
        ("103", "ki", 103 * SIZEKI),
        ("99", "mi", 99 * SIZEMI),
        ("2", "gi", 2 * SIZEGI),
        ("999", "ti", 999 * SIZETI),
        ("8", "pi", 8 * SIZEPI),
        ("15", "ei", 15 * SIZEEI),
        // Fractions + binary units.
        ("103.5", "ki", 103 * SIZEKI + SIZEKI / 2),
        ("593.2", "mi", 622015283),
        ("12.25", "pi", 12 * SIZEPI + SIZEPI / 4),
    ];

    let mut success = true;
    let mut s = String::new();
    for &(num, unit, expect) in tests.iter() {
        for i in 0..4 {
            s.clear();
            s.push_str(num);
            match i {
                0 => s.push_str(unit),
                1 => {
                    s.push_str(unit);
                    s.push('b');
                }
                2 => {
                    s.push_str(unit);
                    s.make_ascii_uppercase();
                    s.push('B');
                }
                3 => {
                    if !unit.is_empty() {
                        s.push(' ');
                        s.push_str(unit);
                    }
                }
                _ => panic!(),
            }
            match read(s.as_str()) {
                Ok(ByteSize(x)) => {
                    if x != expect {
                        println!("Parse({:?}) = {}, expect {}", &s, x, expect);
                        success = false;
                    }
                }
                Err(e) => {
                    println!("Parse({:?}): {}", &s, e.message());
                    success = false;
                }
            }
        }
    }
    assert!(success);
}

#[test]
fn fractions_of_a_byte_round_to_even() {
    assert_eq!(ByteSize::parse("1.5"), Ok(Parsed::Decimal(ByteSize(2))));
    assert_eq!(ByteSize::parse("2.5000"), Ok(Parsed::Decimal(ByteSize(2))));
    assert_eq!(ByteSize::parse("2.50001"), Ok(Parsed::Decimal(ByteSize(3))));
    assert_eq!(ByteSize::parse("1.4"), Ok(Parsed::Decimal(ByteSize(1))));
    assert_eq!(ByteSize::parse("0.5"), Ok(Parsed::Decimal(ByteSize(0))));
    assert_eq!(ByteSize::parse("3.5"), Ok(Parsed::Decimal(ByteSize(4))));
    assert_eq!(ByteSize::parse("1.2345k"), Ok(Parsed::Decimal(ByteSize(1234))));
    assert_eq!(ByteSize::parse("1.2355k"), Ok(Parsed::Decimal(ByteSize(1236))));
    assert_eq!(ByteSize::parse("1.23450k"), Ok(Parsed::Decimal(ByteSize(1234))));
    assert_eq!(ByteSize::parse("1.234501k"), Ok(Parsed::Decimal(ByteSize(1235))));
}

#[test]
fn binary_prefixes_name_number_and_scale() {
    assert_eq!(ByteSize::parse("103ki"), Ok(Parsed::Binary { digits: 3, scale: 1 }));
    assert_eq!(ByteSize::parse("12.25 PiB"), Ok(Parsed::Binary { digits: 5, scale: 5 }));
    assert_eq!(ByteSize::parse("7YIb"), Ok(Parsed::Binary { digits: 1, scale: 8 }));
    assert_eq!(read("103ki"), Ok(ByteSize(103 * 1024)));
    assert_eq!(read("12.25pi"), Ok(ByteSize(12 * (1u64 << 50) + (1u64 << 50) / 4)));
}

#[test]
fn decimal_scales() {
    assert_eq!(read("103k"), Ok(ByteSize(103_000)));
    assert_eq!(read("3g"), Ok(ByteSize(3_000_000_000)));
    assert_eq!(read("0.018z"), Ok(ByteSize(18_000_000_000_000_000_000)));
    assert_eq!(read("0.000018y"), Ok(ByteSize(18_000_000_000_000_000_000)));
    assert_eq!(read("1.k"), Ok(ByteSize(1000)));
    assert_eq!(read(".5k"), Ok(ByteSize(500)));
}

#[test]
fn suffixes_in_every_form() {
    let expect = Ok(ByteSize(5000));
    assert_eq!(read("5K"), expect);
    assert_eq!(read("5k"), expect);
    assert_eq!(read("5KB"), expect);
    assert_eq!(read("5kb"), expect);
    assert_eq!(read("5 K"), expect);
    assert_eq!(read("5 \t kB"), expect);
    assert_eq!(read("5b"), Ok(ByteSize(5)));
    assert_eq!(read("5 B"), Ok(ByteSize(5)));
}

#[test]
fn case_does_not_count() {
    for text in ["12.5mb", "12.5MB", "12.5Mb", "12.5mB"] {
        assert_eq!(read(text), Ok(ByteSize(12_500_000)));
    }
    for text in ["3gib", "3GiB", "3GIB", "3gIb"] {
        assert_eq!(read(text), Ok(ByteSize(3 << 30)));
        assert_eq!(ByteSize::parse(text), Ok(Parsed::Binary { digits: 1, scale: 3 }));
    }
    assert_eq!(ByteSize::parse("5Q"), ByteSize::parse("5q"));
}

#[test]
fn a_closing_letter_may_be_added() {
    for text in ["7", "7k", "7 M", "7.5Gi", "7 ", "7q", "1.2.3", "18446744073709551616"] {
        assert_eq!(ByteSize::parse(format!("{}B", text).as_str()), ByteSize::parse(text));
        assert_eq!(ByteSize::parse(format!("{}b", text).as_str()), ByteSize::parse(text));
    }
    // A second one is unknown units.
    assert_eq!(ByteSize::parse("7bB"), Err(ParseByteSizeError::InvalidUnits));
}

#[test]
fn a_blank_may_stand_before_the_units() {
    for (number, units) in [("7", "k"), ("7.5", "GiB"), ("7", ""), ("7", "q"), ("", "k"), ("7", " M")] {
        let plain = format!("{}{}", number, units);
        let spaced = format!("{} {}", number, units);
        let tabbed = format!("{}\t{}", number, units);
        assert_eq!(ByteSize::parse(spaced.as_str()), ByteSize::parse(plain.as_str()));
        assert_eq!(ByteSize::parse(tabbed.as_str()), ByteSize::parse(plain.as_str()));
    }
}

#[test]
fn blanks_alone_are_no_units() {
    assert_eq!(read("5 "), Ok(ByteSize(5)));
    assert_eq!(read("5\t "), Ok(ByteSize(5)));
}

#[test]
fn each_error() {
    assert_eq!(ByteSize::parse(""), Err(ParseByteSizeError::Empty));
    assert_eq!(ByteSize::parse("1.2.3"), Err(ParseByteSizeError::InvalidNumber));
    assert_eq!(ByteSize::parse("1..k"), Err(ParseByteSizeError::InvalidNumber));
    assert_eq!(ByteSize::parse("5q"), Err(ParseByteSizeError::InvalidUnits));
    assert_eq!(ByteSize::parse("5kk"), Err(ParseByteSizeError::InvalidUnits));
    assert_eq!(ByteSize::parse("5kib!"), Err(ParseByteSizeError::InvalidUnits));
    assert_eq!(ByteSize::parse("5ib"), Err(ParseByteSizeError::InvalidUnits));
    assert_eq!(ByteSize::parse("5 k b"), Err(ParseByteSizeError::InvalidUnits));
    assert_eq!(ByteSize::parse("-5"), Err(ParseByteSizeError::InvalidUnits));
    assert_eq!(
        ByteSize::parse("18446744073709551616"),
        Err(ParseByteSizeError::Overflow)
    );
}

#[test]
fn errors_in_order() {
    // Two decimal points count before unknown units, and those before size.
    assert_eq!(ByteSize::parse("1.2.3q"), Err(ParseByteSizeError::InvalidNumber));
    assert_eq!(
        ByteSize::parse("99999999999999999999999q"),
        Err(ParseByteSizeError::InvalidUnits)
    );
}

#[test]
fn overflow_at_the_edge() {
    assert_eq!(read("18446744073709551615"), Ok(ByteSize(u64::MAX)));
    assert_eq!(read("18446744073709551615.4"), Ok(ByteSize(u64::MAX)));
    assert_eq!(read("18446744073709551615.5"), Err(ParseByteSizeError::Overflow));
    assert_eq!(read("18446744073709551616"), Err(ParseByteSizeError::Overflow));
    assert_eq!(read("18.446744073709551616e"), Err(ParseByteSizeError::Overflow));
    assert_eq!(read("18.4467440737095516154e"), Ok(ByteSize(u64::MAX)));
    assert_eq!(read("19e"), Err(ParseByteSizeError::Overflow));
    assert_eq!(read("1y"), Err(ParseByteSizeError::Overflow));
    assert_eq!(read("000000000000000000000000018"), Ok(ByteSize(18)));
    assert_eq!(read("16ei"), Err(ParseByteSizeError::Overflow));
}

#[test]
fn scaled_values() {
    assert_eq!(ByteSize::from_scaled(0), Ok(ByteSize(0)));
    assert_eq!(ByteSize::from_scaled(105_472), Ok(ByteSize(105_472)));
    assert_eq!(ByteSize::from_scaled(u64::MAX as u128), Ok(ByteSize(u64::MAX)));
    assert_eq!(
        ByteSize::from_scaled(u64::MAX as u128 + 1),
        Err(ParseByteSizeError::Overflow)
    );
    assert_eq!(ByteSize::from_scaled(u128::MAX), Err(ParseByteSizeError::Overflow));
}

#[test]
fn a_binary_number_without_digits() {
    assert_eq!(ByteSize::parse("ki"), Err(ParseByteSizeError::InvalidNumber));
    assert_eq!(ByteSize::parse(".ki"), Err(ParseByteSizeError::InvalidNumber));
    assert_eq!(ByteSize::parse(" Mi"), Err(ParseByteSizeError::InvalidNumber));
    assert_eq!(ByteSize::parse(".5ki"), Ok(Parsed::Binary { digits: 2, scale: 1 }));
    assert_eq!(ByteSize::parse("5.ki"), Ok(Parsed::Binary { digits: 2, scale: 1 }));
    assert_eq!(read(".5ki"), Ok(ByteSize(512)));
    assert_eq!(read("5.ki"), Ok(ByteSize(5120)));
}

#[test]
fn a_decimal_number_without_digits_is_zero() {
    assert_eq!(read("k"), Ok(ByteSize(0)));
    assert_eq!(read("."), Ok(ByteSize(0)));
    assert_eq!(read(" "), Ok(ByteSize(0)));
    assert_eq!(read("B"), Ok(ByteSize(0)));
}

#[test]
fn prefix_letters() {
    let letters = "kmgtpezy";
    for (n, c) in letters.bytes().enumerate() {
        assert_eq!(parse_prefix(c), Some(n as u32 + 1));
        assert_eq!(parse_prefix(c.to_ascii_uppercase()), Some(n as u32 + 1));
    }
    assert_eq!(parse_prefix(b'q'), None);
    assert_eq!(parse_prefix(b'i'), None);
    assert_eq!(parse_prefix(b' '), None);
    assert_eq!(parse_prefix(b'5'), None);
}

#[test]
fn error_messages() {
    assert_eq!(ParseByteSizeError::Empty.message(), "cannot parse empty string");
    assert_eq!(
        ParseByteSizeError::InvalidNumber.message(),
        "string does not start with invalid number"
    );
    assert_eq!(ParseByteSizeError::InvalidUnits.message(), "string has invalid units");
    assert_eq!(ParseByteSizeError::Overflow.message(), "number is too large");
}

#[test]
fn written_sizes_read_back_within_half_a_step() {
    let cases: Vec<(u64, u64, u64)> = vec![
        (0, 0, 0),
        (999, 999, 0),
        (1005, 1000, 10),
        (2335, 2340, 10),
        (9995, 10_000, 100),
        (99_950, 100_000, 1000),
        (999_500, 1_000_000, 10_000),
        (952_500_001, 953_000_000, 1_000_000),
        (u64::MAX, 18_400_000_000_000_000_000, 100_000_000_000_000_000),
    ];
    for (n, back, step) in cases {
        let text = ByteSize(n).to_display_string();
        let got = read(text.as_str());
        assert_eq!(got, Ok(ByteSize(back)));
        let diff = if n > back { n - back } else { back - n };
        assert!(2 * (diff as u128) <= step as u128);
    }
}
