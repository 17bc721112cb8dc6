use dbrecon::config::build_query;
use dbrecon::config::parse_day;
use dbrecon::config::sanitize_identifier;
use dbrecon::config::validate_range;
use dbrecon::config::DateRange;
use dbrecon::error::exit_code;
use dbrecon::error::ConfigError;
use dbrecon::error::ReconError;
use dbrecon::numfmt::i128_to_string;
use dbrecon::numfmt::i64_to_string;
use dbrecon::numfmt::u32_to_string;
use dbrecon::render::render_line;
use dbrecon::render::render_report;
use dbrecon::render::render_summary;
use dbrecon::row::AggregateRow;
use dbrecon::row::Checksum;
use dbrecon::row::DiffOutcome;
use dbrecon::row::DiffStatus;
use dbrecon::row::Verdict;

fn whole(v: i128) -> Checksum {
    Checksum { mantissa: v, scale: 0 }
}

fn row(key: u32, count: i64, ca: i128, cb: i128) -> AggregateRow {
    AggregateRow { bucket_key: key, row_count: count, checksum_a: whole(ca), checksum_b: whole(cb) }
}

#[test]
fn parse_day_strips_non_digits() {
    assert_eq!(parse_day("2024-01-01"), Ok(20240101));
    assert_eq!(parse_day("20240101"), Ok(20240101));
    assert_eq!(parse_day(" 2024/01/01 "), Ok(20240101));
}

#[test]
fn parse_day_rejects_wrong_digit_counts() {
    assert_eq!(parse_day("abc"), Err(ConfigError::MalformedDate));
    assert_eq!(parse_day(""), Err(ConfigError::MalformedDate));
    assert_eq!(parse_day("2024010"), Err(ConfigError::MalformedDate));
    assert_eq!(parse_day("202401012"), Err(ConfigError::MalformedDate));
}

#[test]
fn inverted_range_is_rejected_before_any_fetch() {
    assert_eq!(validate_range("20240110", "20240101"), Err(ConfigError::InvertedRange));
}

#[test]
fn valid_range_is_accepted() {
    assert_eq!(
        validate_range("20240101", "20240110"),
        Ok(DateRange { first_day: 20240101, last_day: 20240110 })
    );
    assert_eq!(
        validate_range("20240101", "20240101"),
        Ok(DateRange { first_day: 20240101, last_day: 20240101 })
    );
}

#[test]
fn malformed_day_takes_precedence_in_range() {
    assert_eq!(validate_range("2024", "20240101"), Err(ConfigError::MalformedDate));
    assert_eq!(validate_range("20240101", "x"), Err(ConfigError::MalformedDate));
}

#[test]
fn sanitize_keeps_letters_only() {
    assert_eq!(sanitize_identifier("predictions").unwrap(), "predictions");
    assert_eq!(sanitize_identifier("pre_dic-tions; DROP").unwrap(), "predictionsDROP");
}

#[test]
fn sanitize_rejects_identifier_without_letters() {
    assert_eq!(sanitize_identifier("123; --"), Err(ConfigError::EmptyIdentifier));
    assert_eq!(sanitize_identifier(""), Err(ConfigError::EmptyIdentifier));
}

#[test]
fn query_is_templated_exactly() {
    let range = DateRange { first_day: 20240101, last_day: 20240131 };
    let q = build_query("predictions", &range);
    let expected = "\nSELECT\n  date_trunc('day', tmstmp) AS _date,\n  COUNT(*) AS _count,\n  SUM(id)::NUMERIC AS _id,\n  SUM(EXTRACT(EPOCH FROM tmstmp))::NUMERIC AS _tmstmp\nFROM\n  predictions\nWHERE\n  tmstmp >= '20240101'::date\nAND\n  tmstmp < ('20240131'::date + INTERVAL '24 hour')\nGROUP BY\n  _date\nORDER BY\n  _date;\n";
    assert_eq!(q, expected);
}

#[test]
fn query_pads_short_day_numbers() {
    let range = DateRange { first_day: 240101, last_day: 240102 };
    let q = build_query("t", &range);
    assert!(q.contains("'00240101'::date"));
    assert!(q.contains("'00240102'::date"));
}

#[test]
fn numbers_render_in_decimal() {
    assert_eq!(u32_to_string(0), "0");
    assert_eq!(u32_to_string(20240101), "20240101");
    assert_eq!(i64_to_string(-42), "-42");
    assert_eq!(i64_to_string(i64::MIN), "-9223372036854775808");
    assert_eq!(i128_to_string(i128::MIN), "-170141183460469231731687303715884105728");
    assert_eq!(i128_to_string(i128::MAX), "170141183460469231731687303715884105727");
}

#[test]
fn matched_line_shows_both_triples() {
    let o = DiffOutcome {
        bucket_key: 20240101,
        status: DiffStatus::Matched,
        row_a: Some(row(20240101, 10, 5, 100)),
        row_b: Some(row(20240101, 10, 5, 100)),
    };
    assert_eq!(render_line(&o), "\u{2714} 20240101 | (10, 5, 100) | (10, 5, 100)");
}

#[test]
fn missing_side_renders_as_dash() {
    let o = DiffOutcome {
        bucket_key: 20240102,
        status: DiffStatus::MissingInB,
        row_a: Some(row(20240102, 3, 1, 9)),
        row_b: None,
    };
    assert_eq!(render_line(&o), "\u{2718} 20240102 | (3, 1, 9) | -");
}

#[test]
fn scaled_checksum_renders_with_exponent() {
    let r = AggregateRow {
        bucket_key: 20240101,
        row_count: 2,
        checksum_a: Checksum { mantissa: 12345, scale: 2 },
        checksum_b: Checksum { mantissa: -7, scale: 6 },
    };
    let o = DiffOutcome {
        bucket_key: 20240101,
        status: DiffStatus::MissingInA,
        row_a: None,
        row_b: Some(r),
    };
    assert_eq!(render_line(&o), "\u{2718} 20240101 | - | (2, 12345e-2, -7e-6)");
}

#[test]
fn report_ends_with_summary_line() {
    let o = DiffOutcome {
        bucket_key: 20240101,
        status: DiffStatus::Matched,
        row_a: Some(row(20240101, 1, 1, 1)),
        row_b: Some(row(20240101, 1, 1, 1)),
    };
    let outcomes = vec![o];
    let lines = render_report(&outcomes, Verdict::Pass);
    assert_eq!(lines.len(), 2);
    assert_eq!(lines[0], render_line(&o));
    assert_eq!(lines[1], "Databases match!");
    let lines = render_report(&Vec::new(), Verdict::Fail);
    assert_eq!(lines.len(), 1);
    assert_eq!(lines[0], "Databases do not match.");
}

#[test]
fn summary_states_the_verdict() {
    assert_eq!(render_summary(Verdict::Pass), "Databases match!");
    assert_eq!(render_summary(Verdict::Fail), "Databases do not match.");
}

#[test]
fn exit_codes_follow_the_verdict() {
    assert_eq!(exit_code(&Ok(Verdict::Pass)), 0);
    assert_eq!(exit_code(&Ok(Verdict::Fail)), 1);
    assert_eq!(exit_code(&Err(ReconError::Connect)), 1);
    assert_eq!(exit_code(&Err(ReconError::Query)), 1);
    assert_eq!(exit_code(&Err(ReconError::Config(ConfigError::InvertedRange))), 1);
}

#[test]
fn errors_carry_messages() {
    assert_eq!(
        ConfigError::MalformedDate.message(),
        "day must contain exactly eight digits (YYYYMMDD)"
    );
    assert_eq!(ConfigError::InvertedRange.message(), "first day lies after last day");
    assert_eq!(
        ConfigError::EmptyIdentifier.message(),
        "table identifier has no alphabetic characters"
    );
    assert_eq!(
        ReconError::Config(ConfigError::InvertedRange).message(),
        "first day lies after last day"
    );
    assert_eq!(ReconError::Connect.message(), "could not connect to a source");
    assert_eq!(
        ReconError::Query.message(),
        "query failed or returned an unexpected result shape"
    );
}
