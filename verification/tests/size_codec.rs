use zfs_stats::size::{format_bytes, parse_size_string, ParseError};

#[test]
fn empty_and_dash_are_zero() {
    assert_eq!(parse_size_string("-"), Ok(0));
    assert_eq!(parse_size_string(""), Ok(0));
    assert_eq!(parse_size_string("0B"), Ok(0));
}

#[test]
fn binary_units() {
    assert_eq!(parse_size_string("1K"), Ok(1024));
    assert_eq!(parse_size_string("1M"), Ok(1048576));
    assert_eq!(parse_size_string("1G"), Ok(1073741824));
    assert_eq!(parse_size_string("1T"), Ok(1024u64.pow(4)));
    assert_eq!(parse_size_string("1P"), Ok(1024u64.pow(5)));
    assert_eq!(parse_size_string("1E"), Ok(1024u64.pow(6)));
}

#[test]
fn plain_bytes() {
    assert_eq!(parse_size_string("512B"), Ok(512));
    assert_eq!(parse_size_string("512.0B"), Ok(512));
    assert_eq!(parse_size_string("512"), Ok(512));
    assert_eq!(parse_size_string("0"), Ok(0));
}

#[test]
fn rejected_sizes() {
    assert_eq!(parse_size_string("abc"), Err(ParseError::InvalidNumber));
    assert_eq!(parse_size_string("5Q"), Err(ParseError::UnknownSuffix));
}

#[test]
fn fractions_round_down() {
    assert_eq!(parse_size_string("1.5K"), Ok(1536));
    assert_eq!(parse_size_string("12.3G"), Ok(13207024435));
    assert_eq!(parse_size_string("0.9B"), Ok(0));
    assert_eq!(parse_size_string("1.999B"), Ok(1));
    assert_eq!(parse_size_string(".5K"), Ok(512));
    assert_eq!(parse_size_string("5.K"), Ok(5120));
    assert_eq!(parse_size_string("0.0009765625K"), Ok(1));
    assert_eq!(parse_size_string("0.0009765624K"), Ok(0));
}

#[test]
fn numbers_are_rounded_to_53_bits() {
    assert_eq!(parse_size_string("512.21T"), Ok(563180850863145));
    assert_eq!(parse_size_string("0.1E"), Ok(115292150460684704));
    assert_eq!(parse_size_string("0.3E"), Ok(345876451382054080));
    assert_eq!(parse_size_string("9007199254740993"), Ok(9007199254740992));
    assert_eq!(parse_size_string("9007199254740993.0000001"), Ok(9007199254740994));
    assert_eq!(parse_size_string("9007199254740995"), Ok(9007199254740996));
    assert_eq!(parse_size_string("0.99999999999999999B"), Ok(1));
    assert_eq!(parse_size_string("0.9999999999999999B"), Ok(0));
    assert_eq!(parse_size_string("15.999999999999999E"), Ok(18446744073709549568));
    assert_eq!(parse_size_string("15.9999999999999999E"), Ok(u64::MAX));
}

#[test]
fn exponents() {
    assert_eq!(parse_size_string("1e3"), Ok(1000));
    assert_eq!(parse_size_string("1E3"), Ok(1000));
    assert_eq!(parse_size_string("1.5e3K"), Ok(1536000));
    assert_eq!(parse_size_string("25e-1K"), Ok(2560));
    assert_eq!(parse_size_string("1e+2B"), Ok(100));
    assert_eq!(parse_size_string("1e-30E"), Ok(0));
    assert_eq!(parse_size_string("0e999999999999999999999999999999999999999"), Ok(0));
    assert_eq!(
        parse_size_string("1e-999999999999999999999999999999999999999E"),
        Ok(0)
    );
    assert_eq!(parse_size_string("1e"), Err(ParseError::UnknownSuffix));
    assert_eq!(parse_size_string("1e+"), Err(ParseError::InvalidNumber));
    assert_eq!(parse_size_string("1EE"), Err(ParseError::InvalidNumber));
}

#[test]
fn large_sizes_saturate() {
    assert_eq!(parse_size_string("16E"), Ok(u64::MAX));
    assert_eq!(parse_size_string("18446744073709551615"), Ok(u64::MAX));
    assert_eq!(parse_size_string("18446744073709551616"), Ok(u64::MAX));
    assert_eq!(parse_size_string("18446744073709550591"), Ok(18446744073709549568));
    assert_eq!(parse_size_string("18446744073709550592"), Ok(u64::MAX));
    assert_eq!(parse_size_string("1e20"), Ok(u64::MAX));
    assert_eq!(
        parse_size_string("1e999999999999999999999999999999999999999"),
        Ok(u64::MAX)
    );
    assert_eq!(parse_size_string("15E"), Ok(15 * 1024u64.pow(6)));
    assert_eq!(parse_size_string("18014398509481983K"), Ok(u64::MAX));
    assert_eq!(parse_size_string("18014398509481982K"), Ok(u64::MAX - 2047));
}

#[test]
fn signs_and_special_values() {
    assert_eq!(parse_size_string("+1K"), Ok(1024));
    assert_eq!(parse_size_string("-1K"), Ok(0));
    assert_eq!(parse_size_string("-0.5B"), Ok(0));
    assert_eq!(parse_size_string("infK"), Ok(u64::MAX));
    assert_eq!(parse_size_string("InfinityB"), Ok(u64::MAX));
    assert_eq!(parse_size_string("-infK"), Ok(0));
    assert_eq!(parse_size_string("nanK"), Ok(0));
    assert_eq!(parse_size_string("NaNB"), Ok(0));
    assert_eq!(parse_size_string("inf"), Err(ParseError::InvalidNumber));
    assert_eq!(parse_size_string("infinity"), Err(ParseError::InvalidNumber));
    assert_eq!(parse_size_string("nan"), Err(ParseError::InvalidNumber));
    assert_eq!(parse_size_string("1n"), Err(ParseError::UnknownSuffix));
}

#[test]
fn whitespace_is_trimmed() {
    assert_eq!(parse_size_string(" 1K "), Ok(1024));
    assert_eq!(parse_size_string("\t2M\n"), Ok(2097152));
    assert_eq!(parse_size_string("\u{a0}3B\u{2003}"), Ok(3));
    assert_eq!(parse_size_string("1 K"), Err(ParseError::InvalidNumber));
    assert_eq!(parse_size_string(" "), Err(ParseError::InvalidNumber));
    assert_eq!(parse_size_string(" - "), Err(ParseError::InvalidNumber));
}

#[test]
fn invalid_number_cases() {
    assert_eq!(parse_size_string("B"), Err(ParseError::InvalidNumber));
    assert_eq!(parse_size_string("K"), Err(ParseError::InvalidNumber));
    assert_eq!(parse_size_string("."), Err(ParseError::InvalidNumber));
    assert_eq!(parse_size_string(".K"), Err(ParseError::InvalidNumber));
    assert_eq!(parse_size_string("1.2.3K"), Err(ParseError::InvalidNumber));
    assert_eq!(parse_size_string("1,5K"), Err(ParseError::InvalidNumber));
    assert_eq!(parse_size_string("5xB"), Err(ParseError::InvalidNumber));
    assert_eq!(parse_size_string("1KB"), Err(ParseError::InvalidNumber));
    assert_eq!(parse_size_string("xQ"), Err(ParseError::InvalidNumber));
    assert_eq!(parse_size_string("5!"), Err(ParseError::InvalidNumber));
    assert_eq!(parse_size_string("5%"), Err(ParseError::InvalidNumber));
    assert_eq!(parse_size_string("--"), Err(ParseError::InvalidNumber));
}

#[test]
fn unknown_suffix_cases() {
    assert_eq!(parse_size_string("5k"), Err(ParseError::UnknownSuffix));
    assert_eq!(parse_size_string("5b"), Err(ParseError::UnknownSuffix));
    assert_eq!(parse_size_string("1.5Z"), Err(ParseError::UnknownSuffix));
    assert_eq!(parse_size_string("5\u{e9}"), Err(ParseError::UnknownSuffix));
    assert_eq!(parse_size_string("7\u{3a9}"), Err(ParseError::UnknownSuffix));
    assert_eq!(parse_size_string("5\u{20ac}"), Err(ParseError::InvalidNumber));
}

#[test]
fn format_examples() {
    assert_eq!(format_bytes(0), "0B");
    assert_eq!(format_bytes(512), "512B");
    assert_eq!(format_bytes(1024), "1.00K");
    assert_eq!(format_bytes(10240), "10.0K");
    assert_eq!(format_bytes(1024 * 1024 * 150), "150M");
}

#[test]
fn format_each_unit() {
    assert_eq!(format_bytes(1), "1B");
    assert_eq!(format_bytes(1023), "1023B");
    assert_eq!(format_bytes(1536), "1.50K");
    assert_eq!(format_bytes(1048576), "1.00M");
    assert_eq!(format_bytes(1073741824), "1.00G");
    assert_eq!(format_bytes(1024u64.pow(4)), "1.00T");
    assert_eq!(format_bytes(1024u64.pow(5)), "1.00P");
    assert_eq!(format_bytes(1024u64.pow(6)), "1.00E");
    assert_eq!(format_bytes(13207024435), "12.3G");
    assert_eq!(format_bytes(u64::MAX), "16.0E");
}

#[test]
fn format_holds_53_bits() {
    assert_eq!(format_bytes((1 << 53) + 1), "8.00P");
    assert_eq!(format_bytes(1 << 60), "1.00E");
    assert_eq!(format_bytes((1 << 60) - 1), "1024P");
    assert_eq!(format_bytes((1 << 60) - 64), "1024P");
    assert_eq!(format_bytes((1 << 60) - 65), "1024P");
    assert_eq!(format_bytes(10 * (1 << 50) - 1), "10.0P");
    assert_eq!(format_bytes(u64::MAX - 1023), "16.0E");
    assert_eq!(format_bytes(u64::MAX - 1024), "16.0E");
    assert_eq!(format_bytes((1 << 50) - 1), "1024T");
}

#[test]
fn format_takes_the_largest_unit_not_above() {
    let letters = ['B', 'K', 'M', 'G', 'T', 'P', 'E'];
    for power in 1..=6u32 {
        let unit = 1u64 << (10 * power);
        for below in [1u64, 2, 3, 64, 65, 1000] {
            let text = format_bytes(unit - below);
            assert_eq!(text.chars().last(), Some(letters[power as usize - 1]), "{}", text);
        }
        for above in [0u64, 1, 2, 64, 1000] {
            let text = format_bytes(unit + above);
            assert_eq!(text.chars().last(), Some(letters[power as usize]), "{}", text);
        }
    }
    assert_eq!(format_bytes(1048575), "1024K");
    assert_eq!(format_bytes(1048576), "1.00M");
}

#[test]
fn format_precision_steps() {
    assert_eq!(format_bytes(9 * 1024), "9.00K");
    assert_eq!(format_bytes(10 * 1024 - 1), "10.00K");
    assert_eq!(format_bytes(99 * 1024), "99.0K");
    assert_eq!(format_bytes(100 * 1024 - 1), "100.0K");
    assert_eq!(format_bytes(100 * 1024), "100K");
    assert_eq!(format_bytes(1024 * 1024 - 1), "1024K");
    assert_eq!(format_bytes(1000 * 1024), "1000K");
}

#[test]
fn format_rounds_half_to_even() {
    assert_eq!(format_bytes(1152), "1.12K");
    assert_eq!(format_bytes(1024 + 384), "1.38K");
    assert_eq!(format_bytes(1024 * 100 + 512), "100K");
    assert_eq!(format_bytes(1024 * 101 + 512), "102K");
    assert_eq!(format_bytes(1024 * 100 + 513), "101K");
    assert_eq!(format_bytes(1029), "1.00K");
    assert_eq!(format_bytes(1030), "1.01K");
}

#[test]
fn format_has_one_unit_and_two_decimals_at_most() {
    let samples: [u64; 12] = [
        0,
        7,
        1023,
        1024,
        4097,
        123456,
        99 * 1024 + 1000,
        987654321,
        1 << 40,
        (1 << 50) - 1,
        1 << 63,
        u64::MAX,
    ];
    for n in samples {
        let text = format_bytes(n);
        let units = text.chars().filter(|c| "BKMGTPE".contains(*c)).count();
        assert_eq!(units, 1);
        assert!("BKMGTPE".contains(text.chars().last().unwrap()));
        let decimals = match text.find('.') {
            Some(at) => text.len() - 2 - at,
            None => 0,
        };
        assert!(decimals <= 2);
    }
}

#[test]
fn decode_after_encode_is_close_not_equal() {
    assert_eq!(parse_size_string(&format_bytes(1024)), Ok(1024));
    assert_eq!(parse_size_string(&format_bytes(1152)), Ok(1146));
    assert_eq!(format_bytes(parse_size_string("1.126K").unwrap()), "1.13K");
}
