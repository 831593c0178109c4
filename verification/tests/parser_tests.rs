use timecalc::formatter::duration_to_str;
use timecalc::parser::parse_duration_expression;
use timecalc::parser::parse_expression;
use timecalc::parser::parse_expressions;
use timecalc::parser::parse_interval_expression;
use timecalc::Duration;
use timecalc::TimecalcError;

#[test]
fn test_parse_durations() -> Result<(), TimecalcError> {
    assert_eq!(parse_duration_expression("1w").unwrap(), Duration::weeks(1));
    assert_eq!(parse_duration_expression("2d").unwrap(), Duration::days(2));
    assert_eq!(parse_duration_expression("3h").unwrap(), Duration::hours(3));
    assert_eq!(
        parse_duration_expression("4m").unwrap(),
        Duration::minutes(4)
    );
    assert_eq!(
        parse_duration_expression("-1w").unwrap(),
        Duration::weeks(-1)
    );
    assert_eq!(
        parse_duration_expression("-2d").unwrap(),
        Duration::days(-2)
    );
    assert_eq!(
        parse_duration_expression("-3h").unwrap(),
        Duration::hours(-3)
    );
    assert!(parse_duration_expression("1x").is_none());
    Ok(())
}

#[test]
fn test_parse_interval() -> Result<(), TimecalcError> {
    assert_eq!(
        parse_interval_expression("08:00-12:00").unwrap(),
        Duration::hours(4)
    );
    assert_eq!(
        parse_interval_expression("08:00-08:30").unwrap(),
        Duration::minutes(30)
    );
    assert_eq!(
        parse_interval_expression("8-12").unwrap(),
        Duration::hours(4)
    );
    assert_eq!(
        parse_interval_expression("8:00-09").unwrap(),
        Duration::hours(1)
    );
    assert_eq!(
        parse_interval_expression("8-9").unwrap(),
        Duration::hours(1)
    );
    Ok(())
}

#[test]
fn test_parse_expressions() -> Result<(), TimecalcError> {
    let args_list = vec!["1w", "2d", "3h", "4m", "08:00-12:00", "08:00-08:30", "8-12"];
    assert_eq!(
        parse_expressions(&args_list)?,
        Duration::weeks(1)
            .plus(Duration::days(2))
            .plus(Duration::hours(3))
            .plus(Duration::minutes(4))
            .plus(Duration::hours(4))
            .plus(Duration::minutes(30))
            .plus(Duration::hours(4))
    );
    Ok(())
}

#[test]
fn test_parse() -> Result<(), TimecalcError> {
    assert_eq!(parse_expression("1w")?, Duration::weeks(1));
    assert_eq!(parse_expression("2d")?, Duration::days(2));
    assert_eq!(parse_expression("3h")?, Duration::hours(3));
    assert_eq!(parse_expression("4m")?, Duration::minutes(4));
    assert_eq!(parse_expression("08:00-12:00")?, Duration::hours(4));
    assert_eq!(parse_expression("08:00-08:30")?, Duration::minutes(30));
    assert_eq!(parse_expression("8-12")?, Duration::hours(4));
    Ok(())
}

#[test]
fn test_parse_error_carries_token() {
    match parse_expression("bogus") {
        Err(TimecalcError::ParseError(t)) => assert_eq!(t, "bogus"),
        other => panic!("expected a parse error, got {:?}", other),
    }
    match parse_expression("1x") {
        Err(TimecalcError::ParseError(t)) => assert_eq!(t, "1x"),
        other => panic!("expected a parse error, got {:?}", other),
    }
}

#[test]
fn test_negative_interval_rejected() {
    assert!(parse_interval_expression("12-8").is_none());
    assert_eq!(
        parse_expression("12:30-9"),
        Err(TimecalcError::ParseError("12:30-9".to_string()))
    );
    assert_eq!(parse_interval_expression("0-0").unwrap(), Duration::zero());
}

#[test]
fn test_malformed_intervals_rejected() {
    assert!(parse_interval_expression("24-25").is_none());
    assert!(parse_interval_expression("8:60-9").is_none());
    assert!(parse_interval_expression("8-9-10").is_none());
    assert!(parse_interval_expression("8").is_none());
    assert!(parse_interval_expression("-8").is_none());
    assert!(parse_interval_expression("8-").is_none());
    assert!(parse_interval_expression("123-4").is_none());
    assert!(parse_interval_expression("8:5-9").is_none());
}

#[test]
fn test_numeral_edge_cases() {
    assert_eq!(
        parse_expression("007m").unwrap(),
        Duration::minutes(7)
    );
    assert_eq!(parse_expression("-0m").unwrap(), Duration::zero());
    assert_eq!(
        parse_expression("9223372036854775807m").unwrap(),
        Duration::minutes(i64::MAX)
    );
    assert_eq!(
        parse_expression("-9223372036854775808m").unwrap(),
        Duration::minutes(i64::MIN)
    );
    assert_eq!(
        parse_expression("9223372036854775808m"),
        Err(TimecalcError::ParseError(
            "9223372036854775808m".to_string()
        ))
    );
    assert_eq!(
        parse_expression("99999999999999999999w"),
        Err(TimecalcError::ParseError(
            "99999999999999999999w".to_string()
        ))
    );
    assert_eq!(
        parse_expression("915141306071509w"),
        Err(TimecalcError::ParseError("915141306071509w".to_string()))
    );
    assert!(parse_duration_expression("+5m").is_none());
    assert!(parse_duration_expression("-m").is_none());
    assert!(parse_duration_expression("5.5h").is_none());
}

#[test]
fn test_aggregate_empty_is_zero() {
    let no_args: Vec<&str> = vec![];
    let total = parse_expressions(&no_args).unwrap();
    assert_eq!(total, Duration::zero());
    assert_eq!(duration_to_str(total), "0m");
}

#[test]
fn test_aggregate_stops_at_first_failure() {
    let result = parse_expressions(&["1h", "bogus", "2h"]);
    assert_eq!(
        result,
        Err(TimecalcError::ParseError("bogus".to_string()))
    );
    let result = parse_expressions(&["1h", "bogus", "also bad"]);
    assert_eq!(
        result,
        Err(TimecalcError::ParseError("bogus".to_string()))
    );
}

#[test]
fn test_parse_is_deterministic() {
    assert_eq!(parse_expression("8-12"), parse_expression("8-12"));
    assert_eq!(parse_expression("-4m"), parse_expression("-4m"));
    assert_eq!(parse_expression("bogus"), parse_expression("bogus"));
}

#[test]
fn test_signed_durations_scale_by_unit() {
    assert_eq!(parse_expression("-4m").unwrap(), Duration::minutes(-4));
    assert_eq!(parse_expression("2h").unwrap(), Duration::minutes(120));
    assert_eq!(parse_expression("1d").unwrap(), Duration::minutes(1440));
    assert_eq!(parse_expression("-1w").unwrap(), Duration::minutes(-10080));
}

#[test]
fn test_interval_is_end_minus_start() {
    assert_eq!(parse_expression("8-12").unwrap(), Duration::minutes(240));
    assert_eq!(
        parse_expression("08:00-08:30").unwrap(),
        Duration::minutes(30)
    );
    assert_eq!(
        parse_expression("9-12:30").unwrap(),
        Duration::minutes(210)
    );
}
