use chrono::NaiveDate;
use rates_cache::calendar::CivilDate;
use rates_cache::errors::Error;
use rates_cache::key::date_as_key;
use rates_cache::key::key_for;
use rates_cache::key::to_be_bytes;
use std::str::FromStr;

fn date(year: i32, month: u32, day: u32) -> CivilDate {
    CivilDate::new(year, month, day).unwrap()
}

#[test]
fn test_date_as_key() {
    let key = date_as_key("1999-01-04").unwrap();
    assert_eq!(key, vec![0, 0, 0, 0, 54, 144, 4, 128]);
}

#[test]
fn key_of_the_epoch_is_zero() {
    assert_eq!(date_as_key("1970-01-01").unwrap(), vec![0, 0, 0, 0, 0, 0, 0, 0]);
    assert_eq!(date(1970, 1, 1).day_number(), 0);
    assert_eq!(date(1970, 1, 1).midnight(), 0);
}

#[test]
fn key_of_the_day_before_the_epoch() {
    // -86400 in two's complement
    assert_eq!(
        date_as_key("1969-12-31").unwrap(),
        vec![0xff, 0xff, 0xff, 0xff, 0xff, 0xfe, 0xae, 0x80]
    );
    assert_eq!(date(1969, 12, 31).midnight(), -86_400);
}

#[test]
fn key_has_eight_bytes() {
    assert_eq!(date_as_key("2020-04-15").unwrap().len(), 8);
    assert_eq!(date_as_key("0001-01-01").unwrap().len(), 8);
}

#[test]
fn big_endian_bytes() {
    assert_eq!(to_be_bytes(0), vec![0, 0, 0, 0, 0, 0, 0, 0]);
    assert_eq!(to_be_bytes(1), vec![0, 0, 0, 0, 0, 0, 0, 1]);
    assert_eq!(to_be_bytes(0x0102_0304_0506_0708), vec![1, 2, 3, 4, 5, 6, 7, 8]);
    assert_eq!(to_be_bytes(u64::MAX), vec![255; 8]);
    assert_eq!(to_be_bytes(915_408_000), 915_408_000u64.to_be_bytes().to_vec());
}

#[test]
fn equal_dates_in_other_words_have_equal_keys() {
    let plain = date_as_key("2020-01-02").unwrap();
    assert_eq!(date_as_key("2020-1-2").unwrap(), plain);
    assert_eq!(date_as_key("+2020-01-02").unwrap(), plain);
    assert_eq!(date_as_key(" 2020-01-02").unwrap(), plain);
    assert_eq!(key_for(&date(2020, 1, 2)), plain);
}

#[test]
fn parse_reads_what_the_text_says() {
    assert_eq!(CivilDate::parse("2020-01-02"), Some(date(2020, 1, 2)));
    assert_eq!(CivilDate::parse("1999-12-31"), Some(date(1999, 12, 31)));
    assert_eq!(CivilDate::parse("2020-02-30"), None);
    assert_eq!(CivilDate::parse("20200102"), None);
    assert_eq!(CivilDate::parse(""), None);
}

#[test]
fn unreadable_date_is_a_parse_error_with_the_text() {
    match date_as_key("not a date") {
        Err(Error::DateParseError(text)) => assert_eq!(text, "not a date"),
        other => panic!("expected a parse error, got {:?}", other),
    }
    assert!(matches!(date_as_key("2019-02-29"), Err(Error::DateParseError(_))));
    assert!(matches!(date_as_key("2019-13-01"), Err(Error::DateParseError(_))));
    assert!(matches!(date_as_key(""), Err(Error::DateParseError(_))));
}

#[test]
fn later_dates_have_later_keys() {
    let days = [
        "1970-01-01",
        "1970-01-02",
        "1999-01-04",
        "1999-12-31",
        "2000-01-01",
        "2000-02-29",
        "2000-03-01",
        "2020-04-15",
        "2106-02-07",
        "9999-12-31",
    ];
    for pair in days.windows(2) {
        let earlier = date_as_key(pair[0]).unwrap();
        let later = date_as_key(pair[1]).unwrap();
        assert!(earlier < later, "{} before {}", pair[0], pair[1]);
    }
}

#[test]
fn dates_before_the_epoch_keep_their_order_among_themselves() {
    let days = ["0001-01-01", "1582-10-15", "1900-03-01", "1969-12-30", "1969-12-31"];
    for pair in days.windows(2) {
        let earlier = date_as_key(pair[0]).unwrap();
        let later = date_as_key(pair[1]).unwrap();
        assert!(earlier < later, "{} before {}", pair[0], pair[1]);
    }
}

#[test]
fn a_date_before_the_epoch_sorts_after_a_date_from_it_on() {
    let before = date_as_key("1969-12-31").unwrap();
    let after = date_as_key("1970-01-01").unwrap();
    assert!(after < before);
}

#[test]
fn valid_and_invalid_dates() {
    assert!(CivilDate::new(2000, 2, 29).is_some());
    assert!(CivilDate::new(1900, 2, 29).is_none());
    assert!(CivilDate::new(2004, 2, 29).is_some());
    assert!(CivilDate::new(2001, 2, 29).is_none());
    assert!(CivilDate::new(2001, 4, 31).is_none());
    assert!(CivilDate::new(2001, 12, 31).is_some());
    assert!(CivilDate::new(2001, 0, 1).is_none());
    assert!(CivilDate::new(2001, 13, 1).is_none());
    assert!(CivilDate::new(2001, 1, 0).is_none());
    assert!(CivilDate::new(-4, 2, 29).is_some());
    assert!(date(2001, 4, 30).is_valid());
    assert!(!CivilDate { year: 2001, month: 4, day: 31 }.is_valid());
}

#[test]
fn day_numbers() {
    assert_eq!(date(1999, 1, 4).day_number(), 10_595);
    assert_eq!(date(1999, 1, 4).midnight(), 915_408_000);
    assert_eq!(date(2000, 3, 1).day_number(), 11_017);
    assert_eq!(date(1969, 12, 31).day_number(), -1);
    assert_eq!(date(1, 1, 1).day_number(), -719_162);
    assert_eq!(date(2020, 4, 15).days_since(&date(2020, 1, 1)), 105);
    assert_eq!(date(2020, 1, 1).days_since(&date(2020, 4, 15)), -105);
    assert_eq!(date(2020, 3, 1).days_since(&date(2020, 2, 28)), 2);
    assert_eq!(date(2019, 3, 1).days_since(&date(2019, 2, 28)), 1);
}

#[test]
fn order_of_dates() {
    assert!(date(2020, 1, 1).is_before(&date(2020, 1, 2)));
    assert!(date(2019, 12, 31).is_before(&date(2020, 1, 1)));
    assert!(date(2020, 1, 31).is_before(&date(2020, 2, 1)));
    assert!(!date(2020, 1, 2).is_before(&date(2020, 1, 2)));
    assert!(!date(2020, 1, 3).is_before(&date(2020, 1, 2)));
}

fn chrono_timestamp(year: i32, month: u32, day: u32) -> i64 {
    NaiveDate::from_ymd_opt(year, month, day)
        .unwrap()
        .and_hms_opt(0, 0, 0)
        .unwrap()
        .and_utc()
        .timestamp()
}

#[test]
fn timestamps_are_those_of_chrono_day_by_day() {
    let mut day = NaiveDate::from_ymd_opt(1890, 1, 1).unwrap();
    let end = NaiveDate::from_ymd_opt(2110, 1, 1).unwrap();
    while day < end {
        let text = day.to_string();
        let ours = CivilDate::parse(&text).unwrap();
        let theirs = day.and_hms_opt(0, 0, 0).unwrap().and_utc().timestamp();
        assert_eq!(ours.midnight(), theirs, "{}", text);
        assert_eq!(key_for(&ours), theirs.to_be_bytes().to_vec(), "{}", text);
        day = day.succ_opt().unwrap();
    }
}

#[test]
fn timestamps_are_those_of_chrono_far_away() {
    let years = [-262_000, -10_000, -401, -400, -101, -100, -5, -4, -1, 0, 1, 4, 100, 400, 1600,
        10_000, 262_000];
    for year in years {
        for (month, day) in [(1, 1), (2, 28), (3, 1), (12, 31)] {
            assert_eq!(
                date(year, month, day).midnight(),
                chrono_timestamp(year, month, day),
                "{}-{}-{}",
                year,
                month,
                day
            );
        }
    }
}

#[test]
fn keys_are_what_the_text_of_a_date_gives() {
    let day = NaiveDate::from_str("2012-01-04").unwrap();
    let through_text = date_as_key(&day.to_string()).unwrap();
    assert_eq!(through_text, key_for(&date(2012, 1, 4)));
}
