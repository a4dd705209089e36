use rancidness::decimal::Dec;
use rancidness::scale::{best_effort_parse_value, mentions_fresh, ScaleOutcome};

fn dec(neg: bool, mant: u64, exp: u64) -> Dec {
    Dec { neg, mant, exp }
}

#[test]
fn strict_decimal_is_exact_with_no_note() {
    match best_effort_parse_value("3.5") {
        ScaleOutcome::Clean(d) => assert_eq!(d, dec(false, 35, 1)),
        _ => panic!("expected a clean parse"),
    }
}

#[test]
fn strict_integer() {
    match best_effort_parse_value("42") {
        ScaleOutcome::Clean(d) => assert_eq!(d, dec(false, 42, 0)),
        _ => panic!("expected a clean parse"),
    }
}

#[test]
fn strict_negative() {
    match best_effort_parse_value("-2") {
        ScaleOutcome::Clean(d) => assert_eq!(d, dec(true, 2, 0)),
        _ => panic!("expected a clean parse"),
    }
}

#[test]
fn strict_trims_whitespace() {
    match best_effort_parse_value("  4 ") {
        ScaleOutcome::Clean(d) => assert_eq!(d, dec(false, 4, 0)),
        _ => panic!("expected a clean parse"),
    }
}

#[test]
fn strict_trailing_zeros_are_canonical() {
    match best_effort_parse_value("3.50") {
        ScaleOutcome::Clean(d) => assert_eq!(d, dec(false, 35, 1)),
        _ => panic!("expected a clean parse"),
    }
}

#[test]
fn strict_leading_dot() {
    match best_effort_parse_value("+.5") {
        ScaleOutcome::Clean(d) => assert_eq!(d, dec(false, 5, 1)),
        _ => panic!("expected a clean parse"),
    }
}

#[test]
fn strict_zero_is_unsigned() {
    match best_effort_parse_value("-0.0") {
        ScaleOutcome::Clean(d) => assert_eq!(d, dec(false, 0, 0)),
        _ => panic!("expected a clean parse"),
    }
}

#[test]
fn strict_overlong_mantissa_saturates() {
    match best_effort_parse_value("99999999999999999999999") {
        ScaleOutcome::Clean(d) => assert_eq!(d, dec(false, u64::MAX, 0)),
        _ => panic!("expected a clean parse"),
    }
}

#[test]
fn embedded_number_keeps_full_note() {
    match best_effort_parse_value("I'd say about 2 maybe") {
        ScaleOutcome::Recovered(d, note) => {
            assert_eq!(d, dec(false, 2, 0));
            assert_eq!(note, "I'd say about 2 maybe");
        }
        _ => panic!("expected a recovered parse"),
    }
}

#[test]
fn embedded_takes_first_number() {
    match best_effort_parse_value("between 3 and 4") {
        ScaleOutcome::Recovered(d, note) => {
            assert_eq!(d, dec(false, 3, 0));
            assert_eq!(note, "between 3 and 4");
        }
        _ => panic!("expected a recovered parse"),
    }
}

#[test]
fn embedded_negative_fraction() {
    match best_effort_parse_value("around -1.5 or so") {
        ScaleOutcome::Recovered(d, note) => {
            assert_eq!(d, dec(true, 15, 1));
            assert_eq!(note, "around -1.5 or so");
        }
        _ => panic!("expected a recovered parse"),
    }
}

#[test]
fn embedded_comma_is_dropped_from_digits() {
    match best_effort_parse_value("maybe 1,000 of them") {
        ScaleOutcome::Recovered(d, _) => assert_eq!(d, dec(false, 1000, 0)),
        _ => panic!("expected a recovered parse"),
    }
}

#[test]
fn embedded_bare_fraction() {
    match best_effort_parse_value("a.5") {
        ScaleOutcome::Recovered(d, _) => assert_eq!(d, dec(false, 5, 1)),
        _ => panic!("expected a recovered parse"),
    }
}

#[test]
fn embedded_decimal_comma_reads_as_joined_digits() {
    // the stray comma is tolerated and dropped, not read as a decimal point
    match best_effort_parse_value("3,5") {
        ScaleOutcome::Recovered(d, note) => {
            assert_eq!(d, dec(false, 35, 0));
            assert_eq!(note, "3,5");
        }
        _ => panic!("expected a recovered parse"),
    }
}

#[test]
fn empty_cell_yields_missing() {
    match best_effort_parse_value("") {
        ScaleOutcome::Missing(note) => assert_eq!(note, ""),
        _ => panic!("expected a missing value"),
    }
}

#[test]
fn no_number_yields_missing_with_note() {
    match best_effort_parse_value("unsure") {
        ScaleOutcome::Missing(note) => assert_eq!(note, "unsure"),
        _ => panic!("expected a missing value"),
    }
}

#[test]
fn lone_minus_is_not_a_number() {
    assert!(matches!(
        best_effort_parse_value("-"),
        ScaleOutcome::Missing(_)
    ));
}

#[test]
fn fresh_is_found_case_insensitively() {
    assert!(mentions_fresh("Fresh!"));
    assert!(mentions_fresh("reFRESHing"));
    assert!(!mentions_fresh("unsure"));
    assert!(!mentions_fresh("fres"));
}
