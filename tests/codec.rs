use ts9::{CivilDateTime, Ts9, Ts9Error};

const SHORT_CASES: [(&str, i64); 2] = [
    ("2020-03-14 01:59:26.535", 1584151166535000000),
    ("2023-12-11 10:09:08.777", 1702289348777000000),
];

#[test]
fn test_str_to_ts9() {
    for (str, ts9) in SHORT_CASES.iter() {
        assert_eq!(Ts9::str_to_ts9(str.to_string()), Ok(*ts9));
        assert_eq!(Ts9::str_to_ts9(str.to_string() + "0"), Ok(*ts9));
        assert_eq!(Ts9::str_to_ts9(str.to_string() + "00"), Ok(*ts9));
        assert_eq!(Ts9::str_to_ts9(str.to_string() + "000"), Ok(*ts9));
        assert_eq!(Ts9::str_to_ts9(str.to_string() + "0000"), Ok(*ts9));
        assert_eq!(Ts9::str_to_ts9(str.to_string() + "00000"), Ok(*ts9));
        assert_eq!(Ts9::str_to_ts9(str.to_string() + "000000"), Ok(*ts9));
    }
}

#[test]
fn test_ts9_to_str() {
    for (str, ts9) in SHORT_CASES.iter() {
        assert_eq!(Ts9::ts9_to_str(*ts9), str.to_string() + "000000");
    }
}

fn parse(s: &str) -> Result<i64, Ts9Error> {
    Ts9::str_to_ts9(s.to_string())
}

#[test]
fn parses_the_two_sample_texts() {
    assert_eq!(parse("2020-03-14 01:59:26.535"), Ok(1584151166535000000));
    assert_eq!(parse("2023-12-11 10:09:08.777"), Ok(1702289348777000000));
}

#[test]
fn formats_the_two_sample_counts() {
    assert_eq!(Ts9::ts9_to_str(1584151166535000000), "2020-03-14 01:59:26.535000000");
    assert_eq!(Ts9::ts9_to_str(1702289348777000000), "2023-12-11 10:09:08.777000000");
}

#[test]
fn epoch_and_its_neighbours() {
    assert_eq!(parse("1970-01-01 00:00:00.0"), Ok(0));
    assert_eq!(parse("1970-01-01 00:00:00.000000001"), Ok(1));
    assert_eq!(Ts9::ts9_to_str(0), "1970-01-01 00:00:00.000000000");
    assert_eq!(Ts9::ts9_to_str(1), "1970-01-01 00:00:00.000000001");
    assert_eq!(Ts9::ts9_to_str(-1), "1969-12-31 23:59:59.999999999");
    assert_eq!(parse("1969-12-31 23:59:59.999999999"), Ok(-1));
}

#[test]
fn nine_digit_texts_round_trip() {
    for s in [
        "2000-02-29 12:34:56.123456789",
        "1970-01-01 00:00:00.000000001",
        "2262-04-11 23:47:16.854775807",
        "1677-09-21 00:12:43.145224192",
        "1999-12-31 23:59:59.999999999",
    ] {
        let n = parse(s).unwrap();
        assert_eq!(Ts9::ts9_to_str(n), s);
    }
    assert_eq!(parse("2000-02-29 12:34:56.123456789"), Ok(951827696123456789));
}

#[test]
fn trailing_zeros_do_not_change_the_count() {
    let base = parse("2000-02-29 12:34:56.5").unwrap();
    assert_eq!(base, 951827696500000000);
    let mut s = String::from("2000-02-29 12:34:56.5");
    for _ in 0..8 {
        s.push('0');
        assert_eq!(parse(&s), Ok(base));
    }
}

#[test]
fn largest_count_formats_to_the_last_date() {
    assert_eq!(Ts9::ts9_to_str(i64::MAX), "2262-04-11 23:47:16.854775807");
    assert_eq!(parse("2262-04-11 23:47:16.854775807"), Ok(i64::MAX));
}

#[test]
fn one_nanosecond_past_the_largest_count_is_out_of_range() {
    assert_eq!(parse("2262-04-11 23:47:16.854775808"), Err(Ts9Error::OutOfRange));
    assert_eq!(parse("2262-04-12 00:00:00.0"), Err(Ts9Error::OutOfRange));
    assert_eq!(parse("9999-12-31 23:59:59.999999999"), Err(Ts9Error::OutOfRange));
}

#[test]
fn smallest_count_and_one_before_it() {
    assert_eq!(Ts9::ts9_to_str(i64::MIN), "1677-09-21 00:12:43.145224192");
    assert_eq!(parse("1677-09-21 00:12:43.145224192"), Ok(i64::MIN));
    assert_eq!(parse("1677-09-21 00:12:43.145224191"), Err(Ts9Error::OutOfRange));
    assert_eq!(parse("0000-01-01 00:00:00.0"), Err(Ts9Error::OutOfRange));
}

#[test]
fn rejects_missing_or_overlong_fraction() {
    assert_eq!(parse("2020-03-14 01:59:26"), Err(Ts9Error::MalformedInput));
    assert_eq!(parse("2020-03-14 01:59:26."), Err(Ts9Error::MalformedInput));
    assert_eq!(parse("2020-03-14 01:59:26.5350000000"), Err(Ts9Error::MalformedInput));
}

#[test]
fn rejects_fields_out_of_range() {
    assert_eq!(parse("2020-13-14 01:59:26.535"), Err(Ts9Error::MalformedInput));
    assert_eq!(parse("2020-00-14 01:59:26.535"), Err(Ts9Error::MalformedInput));
    assert_eq!(parse("2020-03-32 01:59:26.535"), Err(Ts9Error::MalformedInput));
    assert_eq!(parse("2020-03-00 01:59:26.535"), Err(Ts9Error::MalformedInput));
    assert_eq!(parse("2020-03-14 25:59:26.535"), Err(Ts9Error::MalformedInput));
    assert_eq!(parse("2020-03-14 24:00:00.0"), Err(Ts9Error::MalformedInput));
    assert_eq!(parse("2020-03-14 01:60:26.535"), Err(Ts9Error::MalformedInput));
    assert_eq!(parse("2020-03-14 01:59:60.535"), Err(Ts9Error::MalformedInput));
}

#[test]
fn leap_days_follow_the_gregorian_rule() {
    assert_eq!(parse("2023-02-29 00:00:00.0"), Err(Ts9Error::MalformedInput));
    assert_eq!(parse("2100-02-29 00:00:00.0"), Err(Ts9Error::MalformedInput));
    assert!(parse("2000-02-29 00:00:00.0").is_ok());
    assert!(parse("2024-02-29 00:00:00.0").is_ok());
    assert_eq!(parse("2020-04-31 00:00:00.0"), Err(Ts9Error::MalformedInput));
}

#[test]
fn rejects_non_digits_and_wrong_separators() {
    assert_eq!(parse("2020-0a-14 01:59:26.535"), Err(Ts9Error::MalformedInput));
    assert_eq!(parse("202x-03-14 01:59:26.535"), Err(Ts9Error::MalformedInput));
    assert_eq!(parse("2020-03-14 01:59:26.5x5"), Err(Ts9Error::MalformedInput));
    assert_eq!(parse("2020/03/14 01:59:26.535"), Err(Ts9Error::MalformedInput));
    assert_eq!(parse("2020-03-14T01:59:26.535"), Err(Ts9Error::MalformedInput));
    assert_eq!(parse("2020-03-14 01-59-26.535"), Err(Ts9Error::MalformedInput));
    assert_eq!(parse("2020-03-14 01:59:26,535"), Err(Ts9Error::MalformedInput));
    assert_eq!(parse("2020-3-14 01:59:26.535"), Err(Ts9Error::MalformedInput));
    assert_eq!(parse(""), Err(Ts9Error::MalformedInput));
    assert_eq!(parse("2020-03-14 01:59:26.53é"), Err(Ts9Error::MalformedInput));
}

#[test]
fn civil_fields_of_a_count() {
    let p = CivilDateTime::from_epoch_nanos(1584151166535000000);
    assert_eq!(
        p,
        CivilDateTime {
            year: 2020,
            month: 3,
            day: 14,
            hour: 1,
            minute: 59,
            second: 26,
            nanosecond: 535000000,
        }
    );
    assert_eq!(p.to_epoch_nanos(), Ok(1584151166535000000));
    assert_eq!(p.to_text(), "2020-03-14 01:59:26.535000000");
}

#[test]
fn parse_reads_fields_without_judging_them() {
    let p = CivilDateTime::parse("2023-02-30 07:08:09.12").unwrap();
    assert_eq!(
        p,
        CivilDateTime {
            year: 2023,
            month: 2,
            day: 30,
            hour: 7,
            minute: 8,
            second: 9,
            nanosecond: 120000000,
        }
    );
    assert_eq!(p.to_epoch_nanos(), Err(Ts9Error::MalformedInput));
    assert_eq!(CivilDateTime::parse("2023-02-30 07:08:09"), Err(Ts9Error::MalformedInput));
}
