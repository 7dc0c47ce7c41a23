use rates_cache::errors::recover;
use rates_cache::errors::Error;

fn all() -> Vec<Error> {
    vec![
        Error::DateNotFound("2020-01-02".to_string()),
        Error::DateParseError("soon".to_string()),
        Error::PastDate("start_at"),
        Error::InvalidPort("eighty".to_string()),
        Error::InvalidDateRange,
        Error::InvalidDateFormat("end_at", "2020/01/02".to_string()),
        Error::InvalidBase("ZZZ".to_string()),
        Error::EmpyDataset,
        Error::InvalidSymbol,
        Error::MissingDateBoundaries,
        Error::DatabaseError("disk full".to_string()),
        Error::FetcherError("no route".to_string()),
        Error::TemplateError("no such field".to_string()),
    ]
}

#[test]
fn failures_in_words() {
    let texts: Vec<String> = all().iter().map(|failure| failure.message()).collect();
    assert_eq!(
        texts,
        vec![
            "no curencies found for date `2020-01-02`",
            "could not parse `soon` as NaiveDate",
            "`start_at` is invalid, there are no currency rates for dates older then 1999-01-04.",
            "`eighty` is an invalid port",
            "start_at must be older than end_at",
            "`end_at`: `2020/01/02` is in an invalid date format, date must be in the format %Y-%m-%d",
            "`ZZZ` is an invalid base currency",
            "empty currency dataset, should have at least 1 element",
            "symbol list contains invalid symbols",
            "both start_at and end_at parameters must be present",
            "database error, `disk full`",
            "error fetching currencies from ECB, `no route`",
            "error rendering template, `no such field`",
        ]
    );
}

#[test]
fn statuses_of_failures() {
    let codes: Vec<u16> = all().iter().map(|failure| failure.status_code()).collect();
    assert_eq!(codes, vec![404, 400, 400, 500, 400, 400, 400, 400, 400, 400, 500, 500, 500]);
}

#[test]
fn a_request_to_mend_is_told_in_words() {
    let told = recover(&Error::InvalidDateRange);
    assert_eq!(told.code, 400);
    assert_eq!(told.msg, "start_at must be older than end_at");
    let told = recover(&Error::DateParseError("soon".to_string()));
    assert_eq!(told.code, 400);
    assert_eq!(told.msg, "could not parse `soon` as NaiveDate");
    let told = recover(&Error::EmpyDataset);
    assert_eq!(told.code, 400);
    assert_eq!(told.msg, "empty currency dataset, should have at least 1 element");
}

#[test]
fn a_missing_day_is_not_found() {
    let told = recover(&Error::DateNotFound("2020-01-02".to_string()));
    assert_eq!(told.code, 404);
    assert_eq!(told.msg, "Not Found");
}

#[test]
fn a_failure_on_this_side_is_not_told_in_detail() {
    for failure in [
        Error::DatabaseError("disk full".to_string()),
        Error::FetcherError("no route".to_string()),
        Error::TemplateError("no such field".to_string()),
        Error::InvalidPort("eighty".to_string()),
    ] {
        let told = recover(&failure);
        assert_eq!(told.code, 500);
        assert_eq!(told.msg, "Internal Server Error");
    }
}
