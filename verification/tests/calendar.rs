//! Dates, weekdays, the trading calendar and session timestamps.

use fifo_gpu::calendar::{
    civil_from_days, date_fits, date_parts, days_from_civil, is_weekend, parse_date, trading_days,
    ts_micros, weekday, DateError, DAY_S, OPEN_OFFSET_S, SESSION_S, SESSION_US,
};
use fifo_gpu::text::NumberError;

#[test]
fn roundtrip_civil_days() {
    for &(y, m, d) in &[(1970, 1, 1), (2020, 2, 29), (2024, 12, 31), (1999, 7, 15)] {
        let z = days_from_civil(y, m, d);
        assert_eq!(civil_from_days(z), (y, m, d));
    }
}

#[test]
fn epoch_is_thursday() {
    assert_eq!(weekday(0), 4); // 1970-01-01 = Thursday
    assert_eq!(days_from_civil(1970, 1, 1), 0);
}

#[test]
fn weekends_skipped() {
    // 2020-01-01 is a Wednesday; 5 trading days lands on Tue 2020-01-07.
    let start = days_from_civil(2020, 1, 1);
    let td = trading_days(start, 5);
    assert_eq!(td.len(), 5);
    for &z in &td {
        assert!(!is_weekend(z));
    }
    assert_eq!(civil_from_days(td[4]), (2020, 1, 7));
}

#[test]
fn intraday_stays_within_day() {
    let z = days_from_civil(2020, 6, 1);
    let t0 = ts_micros(z, 0);
    let t1 = ts_micros(z, SESSION_US - 1);
    // Both timestamps fall on the same UTC calendar day-index.
    assert_eq!(t0 / (DAY_S * 1_000_000), z);
    assert_eq!(t1 / (DAY_S * 1_000_000), z);
}

#[test]
fn day_numbers_are_exact() {
    assert_eq!(days_from_civil(2000, 3, 1), 11_017);
    assert_eq!(days_from_civil(2020, 1, 1), 18_262);
    assert_eq!(days_from_civil(1969, 12, 31), -1);
    assert_eq!(days_from_civil(0, 3, 1), -719_468);
    assert_eq!(civil_from_days(-1), (1969, 12, 31));
    assert_eq!(civil_from_days(-719_469), (0, 2, 29));
    assert_eq!(days_from_civil(1900, 3, 1) - days_from_civil(1900, 2, 28), 1);
    assert_eq!(days_from_civil(2000, 3, 1) - days_from_civil(2000, 2, 28), 2);
}

#[test]
fn weekdays_run_in_sevens() {
    assert_eq!(weekday(-1), 3);
    assert_eq!(weekday(-4), 0);
    assert_eq!(weekday(-5), 6);
    for z in -20..20 {
        assert_eq!((weekday(z) + 1) % 7, weekday(z + 1));
        assert_eq!(is_weekend(z), weekday(z) == 0 || weekday(z) == 6);
    }
}

#[test]
fn a_calendar_leaves_out_no_weekday() {
    let td = trading_days(18_262, 250);
    assert_eq!(td.len(), 250);
    let mut k = 0;
    let mut z = 18_262;
    while k < td.len() {
        if !is_weekend(z) {
            assert_eq!(td[k], z);
            k += 1;
        }
        z += 1;
    }
    assert!(trading_days(18_262, 0).is_empty());
}

#[test]
fn session_timestamps_are_exact() {
    assert_eq!(OPEN_OFFSET_S, 13_500);
    assert_eq!(SESSION_US, SESSION_S * 1_000_000);
    assert_eq!(ts_micros(0, 0), 13_500_000_000);
    assert_eq!(ts_micros(1, 7), 99_900_000_007);
}

#[test]
fn dates_are_read() {
    assert_eq!(parse_date("2020-01-01"), Ok(18_262));
    assert_eq!(parse_date("1970-1-1"), Ok(0));
    assert_eq!(date_parts("2020-02-29"), Ok((2020, 2, 29)));
}

#[test]
fn what_is_no_date_is_refused() {
    assert_eq!(parse_date("2020-01"), Err(DateError::NotThreeParts));
    assert_eq!(parse_date("2020-01-01-01"), Err(DateError::NotThreeParts));
    assert_eq!(parse_date(""), Err(DateError::NotThreeParts));
    let fault = |s: &str| match parse_date(s) {
        Err(DateError::NotANumber(f)) => f,
        other => panic!("{other:?}"),
    };
    for (text, want) in [
        ("2020-x-01", NumberError::InvalidDigit),
        ("2020--01", NumberError::Empty),
        ("-01-01", NumberError::Empty),
        ("+-01-01", NumberError::InvalidDigit),
        ("2020-99999999999-x", NumberError::TooLarge),
        ("2020-01-99999999999x", NumberError::TooLarge),
        ("2020-01-9x99999999999", NumberError::InvalidDigit),
        ("9223372036854775808-01-01", NumberError::TooLarge),
    ] {
        assert_eq!(fault(text), want);
        // the texts are those of the standard library
        let part = text.split('-').find(|p| p.parse::<u32>().is_err() && p.parse::<i64>().ok() != Some(2020)).unwrap();
        let std_error = if text.starts_with(part) && !part.is_empty() {
            part.parse::<i64>().unwrap_err().to_string()
        } else {
            part.parse::<u32>().unwrap_err().to_string()
        };
        assert_eq!(DateError::NotANumber(want).message(), std_error);
    }
    assert_eq!(NumberError::TooSmall.message(), "-9223372036854775809".parse::<i64>().unwrap_err().to_string());
    assert_eq!(parse_date("2020-13-01"), Err(DateError::OutOfRange));
    assert_eq!(parse_date("2020-00-01"), Err(DateError::OutOfRange));
    assert_eq!(parse_date("2020-01-32"), Err(DateError::OutOfRange));
    assert_eq!(DateError::NotThreeParts.message(), "date must be YYYY-MM-DD, got ");
    assert_eq!(DateError::OutOfRange.message(), "bad date ");
    assert!(DateError::OutOfRange.names_text() && !DateError::NotANumber(NumberError::Empty).names_text());
}

#[test]
fn far_dates_are_told_apart_from_too_far_ones() {
    assert!(date_fits(2020, 1, 1));
    assert!(date_fits(-1_000_000, 12, 31));
    assert!(!date_fits(i64::MAX, 1, 1));
    assert!(!date_fits(i64::MIN, 1, 1));
}
