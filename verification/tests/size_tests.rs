use filegen::digits::ten_to_the_power_of;
use filegen::size::{
    capture_parts, convert_to_num_parts, get_factor, parse_to_usize_with_offset, resolve_exact,
    size_parts, ParseFailure, SizeParts, Unit,
};

#[test]
fn parse_to_usize_with_offset_success() {
    assert_eq!(
        parse_to_usize_with_offset(&"123".to_string(), &Some("456".to_string()), 5),
        Some(12345600)
    );
    assert_eq!(parse_to_usize_with_offset(&"123".to_string(), &None, 4), Some(1230000));
    assert_eq!(
        parse_to_usize_with_offset(&"123".to_string(), &Some("456".to_string()), 3),
        Some(123456)
    );
    assert_eq!(parse_to_usize_with_offset(&"123".to_string(), &None, 0), Some(123));
    assert_eq!(parse_to_usize_with_offset(&"123".to_string(), &Some("456".to_string()), 2), None);
    assert_eq!(parse_to_usize_with_offset(&"abc".to_string(), &Some("456".to_string()), 4), None);
    assert_eq!(parse_to_usize_with_offset(&"123".to_string(), &Some("def".to_string()), 4), None);
}

#[test]
fn parse_to_usize_with_offset_edge_cases() {
    assert_eq!(parse_to_usize_with_offset(&"".to_string(), &Some("456".to_string()), 6), Some(456000));
    assert_eq!(parse_to_usize_with_offset(&"".to_string(), &None, 3), None);
    assert_eq!(parse_to_usize_with_offset(&"".to_string(), &Some("".to_string()), 3), None);
    assert_eq!(parse_to_usize_with_offset(&"0".to_string(), &None, 0), Some(0));
    assert_eq!(
        parse_to_usize_with_offset(&"99999999999999999999".to_string(), &None, 0),
        None
    );
}

#[test]
fn ten_to_the_power_of_values() {
    assert_eq!(ten_to_the_power_of(0), Some(1));
    assert_eq!(ten_to_the_power_of(3), Some(1000));
    assert_eq!(ten_to_the_power_of(9), Some(1000000000));
    assert_eq!(ten_to_the_power_of(100), None);
}

#[test]
fn get_factor_values() {
    assert_eq!(get_factor(None), 1);
    assert_eq!(get_factor(Some(Unit::Kilo)), 1000);
    assert_eq!(get_factor(Some(Unit::Mega)), 1000000);
    assert_eq!(get_factor(Some(Unit::Giga)), 1000000000);
}

#[test]
fn convert_to_num_parts_swaps_captures() {
    let (int_part, frac) = convert_to_num_parts(Some("123".to_string()), "456".to_string());
    assert_eq!(int_part, "123".to_string());
    assert_eq!(frac, Some("456".to_string()));

    let (int_part, frac) = convert_to_num_parts(None, "789".to_string());
    assert_eq!(int_part, "789".to_string());
    assert_eq!(frac, None);
}

#[test]
fn capture_parts_matches_grammar() {
    assert_eq!(
        capture_parts("123.456k"),
        Some((Some("123".to_string()), "456".to_string(), Some(Unit::Kilo)))
    );
    assert_eq!(
        capture_parts("123,456M"),
        Some((Some("123".to_string()), "456".to_string(), Some(Unit::Mega)))
    );
    assert_eq!(capture_parts("123456"), Some((None, "123456".to_string(), None)));
    assert_eq!(capture_parts("5G"), Some((None, "5".to_string(), Some(Unit::Giga))));
    assert_eq!(capture_parts(".456m"), Some((Some("".to_string()), "456".to_string(), Some(Unit::Mega))));
    assert_eq!(capture_parts(""), None);
    assert_eq!(capture_parts("k"), None);
    assert_eq!(capture_parts("123."), None);
    assert_eq!(capture_parts("123.m"), None);
    assert_eq!(capture_parts("12.3.4k"), None);
    assert_eq!(capture_parts("12a34"), None);
    assert_eq!(capture_parts("12k3"), None);
    assert_eq!(capture_parts("-5k"), None);
}

#[test]
fn size_parts_reports_granularity() {
    assert_eq!(size_parts("123.456m"), Ok(SizeParts { base: 123456000, granularity: 1000 }));
    assert_eq!(size_parts("5k"), Ok(SizeParts { base: 5000, granularity: 1000 }));
    assert_eq!(size_parts("123456"), Ok(SizeParts { base: 123456, granularity: 1 }));
    assert_eq!(size_parts("123.4k"), Ok(SizeParts { base: 123400, granularity: 100 }));
    assert_eq!(size_parts("1g"), Ok(SizeParts { base: 1000000000, granularity: 1000000000 }));
}

#[test]
fn resolve_exact_plain_number() {
    assert_eq!(resolve_exact("123456"), Ok(123456));
}

#[test]
fn resolve_exact_kilo_fraction_aligns() {
    assert_eq!(resolve_exact("123.456k"), Ok(123456));
}

#[test]
fn resolve_exact_mega_fraction_shifts() {
    assert_eq!(resolve_exact("123.456m"), Ok(123456000));
}

#[test]
fn resolve_exact_empty_integer_part() {
    assert_eq!(resolve_exact(".456m"), Ok(456000));
}

#[test]
fn resolve_exact_empty_fraction_rejected() {
    assert_eq!(resolve_exact("123.m"), Err(ParseFailure::InvalidFormat));
}

#[test]
fn resolve_exact_fraction_too_precise() {
    assert_eq!(resolve_exact("123.4567k"), Err(ParseFailure::FractionTooPrecise));
    assert_eq!(resolve_exact("123.456"), Err(ParseFailure::FractionTooPrecise));
}

#[test]
fn resolve_exact_invalid_format() {
    assert_eq!(resolve_exact(""), Err(ParseFailure::InvalidFormat));
    assert_eq!(resolve_exact("abc"), Err(ParseFailure::InvalidFormat));
    assert_eq!(resolve_exact("."), Err(ParseFailure::InvalidFormat));
    assert_eq!(resolve_exact(".k"), Err(ParseFailure::InvalidFormat));
    assert_eq!(resolve_exact("12 34"), Err(ParseFailure::InvalidFormat));
}

#[test]
fn resolve_exact_zero_rejected() {
    assert_eq!(resolve_exact("0"), Err(ParseFailure::ZeroSize));
    assert_eq!(resolve_exact("000"), Err(ParseFailure::ZeroSize));
    assert_eq!(resolve_exact("0.000k"), Err(ParseFailure::ZeroSize));
    assert_eq!(resolve_exact(".0m"), Err(ParseFailure::ZeroSize));
}

#[test]
fn resolve_exact_overflow_rejected() {
    assert_eq!(resolve_exact("99999999999g"), Err(ParseFailure::Overflow));
    assert_eq!(resolve_exact("18446744073709551616"), Err(ParseFailure::Overflow));
    assert_eq!(resolve_exact("18446744073709551615"), Ok(usize::MAX));
}
