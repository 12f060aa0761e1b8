use ahl_mirror::duration::{parse_checkpoint_cadence_nanos, parse_iso8601_duration_nanos};
use ahl_mirror::error::MirrorError;

#[test]
fn common_cadence_values_parse() {
    assert_eq!(parse_iso8601_duration_nanos("PT1S").expect("valid"), 1_000_000_000);
    assert_eq!(parse_iso8601_duration_nanos("PT5M").expect("valid"), 300_000_000_000);
    assert_eq!(parse_iso8601_duration_nanos("PT1H").expect("valid"), 3_600_000_000_000);
    assert_eq!(parse_iso8601_duration_nanos("P1D").expect("valid"), 86_400_000_000_000);
    assert_eq!(
        parse_iso8601_duration_nanos("P1DT12H").expect("valid"),
        (86_400 + 43_200) * 1_000_000_000
    );
}

#[test]
fn fractional_seconds_are_honoured() {
    assert_eq!(parse_iso8601_duration_nanos("PT0.5S").expect("valid"), 500_000_000);
    assert_eq!(parse_iso8601_duration_nanos("PT1.000000001S").expect("valid"), 1_000_000_001);

    assert_eq!(
        parse_iso8601_duration_nanos("PT1.123456789S").expect("nine digits is the max"),
        1_123_456_789
    );
}

#[test]
fn a_tenth_fractional_digit_is_rejected_not_truncated() {
    assert!(matches!(
        parse_iso8601_duration_nanos("PT0.0000000009S"),
        Err(MirrorError::DurationFractionTooLong { .. })
    ));
    assert!(matches!(
        parse_iso8601_duration_nanos("PT1.0000000009S"),
        Err(MirrorError::DurationFractionTooLong { .. })
    ));
}

#[test]
fn malformed_durations_are_rejected() {
    assert!(parse_iso8601_duration_nanos("5M").is_err());
    assert!(parse_iso8601_duration_nanos("P").is_err());
    assert!(parse_iso8601_duration_nanos("PT").is_err());
    assert!(parse_iso8601_duration_nanos("PTM").is_err());
    assert!(parse_iso8601_duration_nanos("PT5X").is_err());
    assert!(parse_iso8601_duration_nanos("P1H").is_err());
    assert!(parse_iso8601_duration_nanos("PT1.S").is_err());
}

#[test]
fn weeks_are_outside_the_core_spec_grammar_and_rejected() {
    assert!(matches!(
        parse_iso8601_duration_nanos("P1W"),
        Err(MirrorError::BadDuration { .. })
    ));
}

#[test]
fn years_are_rejected_as_a_prohibited_component_not_approximated() {
    let err = parse_iso8601_duration_nanos("P1Y").expect_err("years are prohibited");
    assert!(matches!(err, MirrorError::ProhibitedDurationComponent { component: 'Y', .. }));
}

#[test]
fn calendar_months_are_rejected_as_a_prohibited_component_not_approximated() {
    let err = parse_iso8601_duration_nanos("P1M").expect_err("calendar months are prohibited");
    assert!(matches!(err, MirrorError::ProhibitedDurationComponent { component: 'M', .. }));

    let err =
        parse_iso8601_duration_nanos("P1M2D").expect_err("calendar months are prohibited");
    assert!(matches!(err, MirrorError::ProhibitedDurationComponent { component: 'M', .. }));
}

#[test]
fn minutes_after_t_are_not_confused_with_calendar_months() {
    assert_eq!(parse_iso8601_duration_nanos("PT10M").expect("valid"), 600_000_000_000);
}

#[test]
fn a_year_component_is_rejected_even_alongside_other_prohibited_or_valid_parts() {
    assert!(matches!(
        parse_iso8601_duration_nanos("P1Y2D"),
        Err(MirrorError::ProhibitedDurationComponent { component: 'Y', .. })
    ));
}

#[test]
fn checkpoint_cadence_must_be_greater_than_zero() {
    assert!(matches!(
        parse_checkpoint_cadence_nanos("PT0S"),
        Err(MirrorError::NonPositiveCadence { .. })
    ));

    assert!(matches!(
        parse_checkpoint_cadence_nanos("P0DT0H0M0S"),
        Err(MirrorError::NonPositiveCadence { .. })
    ));
}

#[test]
fn a_positive_checkpoint_cadence_parses_normally() {
    assert_eq!(parse_checkpoint_cadence_nanos("PT5M").expect("positive"), 300_000_000_000);
}

#[test]
fn checkpoint_cadence_parsing_still_propagates_ordinary_duration_errors() {
    assert!(matches!(
        parse_checkpoint_cadence_nanos("P1Y"),
        Err(MirrorError::ProhibitedDurationComponent { component: 'Y', .. })
    ));
    assert!(matches!(
        parse_checkpoint_cadence_nanos("not-a-duration"),
        Err(MirrorError::BadDuration { .. })
    ));
}
