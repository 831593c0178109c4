use timecalc::formatter::duration_to_str;
use timecalc::parser::parse_expressions;
use timecalc::Duration;

#[test]
fn test_duration_to_str() {
    assert_eq!(
        duration_to_str(
            Duration::weeks(1)
                .plus(Duration::days(2))
                .plus(Duration::hours(3))
                .plus(Duration::minutes(4))
        ),
        "1w 2d 3h 4m"
    );
    assert_eq!(
        duration_to_str(
            Duration::weeks(1)
                .plus(Duration::days(2))
                .plus(Duration::hours(3))
        ),
        "1w 2d 3h"
    );
    assert_eq!(
        duration_to_str(Duration::weeks(1).plus(Duration::days(2))),
        "1w 2d"
    );
    assert_eq!(duration_to_str(Duration::weeks(1)), "1w");
    assert_eq!(duration_to_str(Duration::days(2)), "2d");
    assert_eq!(duration_to_str(Duration::hours(3)), "3h");
    assert_eq!(duration_to_str(Duration::minutes(4)), "4m");
    assert_eq!(
        duration_to_str(Duration::days(1).minus(Duration::hours(1))),
        "23h"
    );
    assert_eq!(duration_to_str(Duration::zero()), "0m");
}

#[test]
fn test_format_zero() {
    assert_eq!(duration_to_str(Duration::minutes(0)), "0m");
}

#[test]
fn test_format_negative_components() {
    assert_eq!(duration_to_str(Duration::minutes(-4)), "-4m");
    assert_eq!(
        duration_to_str(Duration::hours(-3).plus(Duration::minutes(-4))),
        "-3h -4m"
    );
    assert_eq!(
        duration_to_str(Duration::days(-1).plus(Duration::hours(1))),
        "-23h"
    );
}

#[test]
fn test_aggregate_then_format() {
    let total = parse_expressions(&["1w", "2d", "3h", "4m"]).unwrap();
    assert_eq!(total, Duration::minutes(13144));
    assert_eq!(duration_to_str(total), "1w 2d 3h 4m");

    let total = parse_expressions(&["1d", "-1h"]).unwrap();
    assert_eq!(total, Duration::minutes(1380));
    assert_eq!(duration_to_str(total), "23h");
}

#[test]
fn test_week_round_trip() {
    let total = parse_expressions(&["5w"]).unwrap();
    assert_eq!(duration_to_str(total), "5w");
    let total = parse_expressions(&["-3w"]).unwrap();
    assert_eq!(duration_to_str(total), "-3w");
    let total = parse_expressions(&["715w"]).unwrap();
    assert_eq!(duration_to_str(total), "715w");
}
