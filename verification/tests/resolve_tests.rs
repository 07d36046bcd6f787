use filegen::size::{resolve_exact, resolve_randomized, size_parts, ParseFailure};

#[test]
fn size_from_success() {
    assert_eq!(resolve_exact("123.456"), Err(ParseFailure::FractionTooPrecise));
    assert_eq!(resolve_exact("123,456"), Err(ParseFailure::FractionTooPrecise));
    assert_eq!(resolve_exact("123456"), Ok(123456));

    assert_eq!(resolve_exact("123.456k"), Ok(123456));
    assert_eq!(resolve_exact("123.456m"), Ok(123456000));
    assert_eq!(resolve_exact("123.456g"), Ok(123456000000));
    assert_eq!(resolve_exact("123,456k"), Ok(123456));
    assert_eq!(resolve_exact("123,456m"), Ok(123456000));
    assert_eq!(resolve_exact("123,456g"), Ok(123456000000));
    assert_eq!(resolve_exact("123.456K"), Ok(123456));
    assert_eq!(resolve_exact("123.456M"), Ok(123456000));
    assert_eq!(resolve_exact("123.456G"), Ok(123456000000));
    assert_eq!(resolve_exact("123,456K"), Ok(123456));
    assert_eq!(resolve_exact("123,456M"), Ok(123456000));
    assert_eq!(resolve_exact("123,456G"), Ok(123456000000));

    assert_eq!(resolve_exact(".456m"), Ok(456000));
    assert_eq!(resolve_exact("123.m"), Err(ParseFailure::InvalidFormat));
    assert_eq!(resolve_exact("123.4567k"), Err(ParseFailure::FractionTooPrecise));

    let parts = size_parts("123.456m").unwrap();
    let bound = (parts.granularity as f64 * 0.2) as usize;
    assert_eq!(bound, 200);
    let result = resolve_randomized("123.456m", bound).unwrap();
    assert!(123455800 <= result && result <= 123456200);
}

#[test]
fn randomized_window_is_respected() {
    for _ in 0..200 {
        let result = resolve_randomized("123.456m", 200).unwrap();
        assert!(123455800 <= result && result <= 123456200);
    }
}

#[test]
fn randomized_with_zero_bound_is_exact() {
    for _ in 0..20 {
        assert_eq!(resolve_randomized("123.456m", 0), Ok(123456000));
    }
}

#[test]
fn randomized_parse_failures_match_exact() {
    assert_eq!(resolve_randomized("123.m", 200), Err(ParseFailure::InvalidFormat));
    assert_eq!(resolve_randomized("123.4567k", 200), Err(ParseFailure::FractionTooPrecise));
    assert_eq!(resolve_randomized("0", 200), Err(ParseFailure::ZeroSize));
    assert_eq!(resolve_randomized("99999999999g", 200), Err(ParseFailure::Overflow));
}

#[test]
fn case_insensitivity() {
    assert_eq!(resolve_exact("123.456K"), resolve_exact("123.456k"));
    assert_eq!(resolve_exact("5M"), resolve_exact("5m"));
    assert_eq!(resolve_exact("1G"), resolve_exact("1g"));
    assert_eq!(resolve_exact("12X"), resolve_exact("12x"));
}

#[test]
fn separator_equivalence() {
    assert_eq!(resolve_exact("123,456k"), resolve_exact("123.456k"));
    assert_eq!(resolve_exact("0,5k"), resolve_exact("0.5k"));
    assert_eq!(resolve_exact("12,"), resolve_exact("12."));
}

#[test]
fn resolution_is_deterministic() {
    let inputs = ["123456", "123.456k", ".456m", "1g", "0", "abc", "9,99k"];
    for input in inputs {
        assert_eq!(resolve_exact(input), resolve_exact(input));
        assert_eq!(resolve_exact(input), resolve_randomized(input, 0));
    }
}

#[test]
fn unspecified_digits_fill_with_zeros() {
    assert_eq!(resolve_exact("5k"), Ok(5000));
    assert_eq!(resolve_exact("5.1k"), Ok(5100));
    assert_eq!(resolve_exact("5.01k"), Ok(5010));
    assert_eq!(resolve_exact("5.001k"), Ok(5001));
    assert_eq!(resolve_exact("7g"), Ok(7000000000));
}
