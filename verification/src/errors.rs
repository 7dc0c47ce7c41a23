//! The failures of the cache and how they are shown to a client.

use vstd::prelude::*;
use vstd::string::StringExecFns;

verus! {

/// The status of a request that the client has to mend.
pub const BAD_REQUEST: u16 = 400;

/// The status of a request for what is not there.
pub const NOT_FOUND: u16 = 404;

/// The status of a failure on this side.
pub const INTERNAL_SERVER_ERROR: u16 = 500;

/// Everything that can go wrong between a request and the store.
#[derive(Debug)]
pub enum Error {
    DateNotFound(String),
    DateParseError(String),
    PastDate(&'static str),
    InvalidPort(String),
    InvalidDateRange,
    InvalidDateFormat(&'static str, String),
    InvalidBase(String),
    EmpyDataset,
    InvalidSymbol,
    MissingDateBoundaries,
    DatabaseError(String),
    FetcherError(String),
    TemplateError(String),
}

/// What a client is told of a failure.
#[derive(Debug)]
pub struct ErrorMessage {
    pub code: u16,
    pub msg: String,
}

/// `inner` between `before` and `after`.
fn framed(before: &str, inner: &str, after: &str) -> (text: String)
    ensures
        text@ == before@ + inner@ + after@,
{
    let mut text: String = before.to_owned();
    text.append(inner);
    text.append(after);
    text
}

impl Error {
    /// The failure in words.
    pub open spec fn text(&self) -> Seq<char> {
        match self {
            Error::DateNotFound(date) => "no curencies found for date `"@ + date@ + "`"@,
            Error::DateParseError(text) => "could not parse `"@ + text@ + "` as NaiveDate"@,
            Error::PastDate(name) => "`"@ + name@
                + "` is invalid, there are no currency rates for dates older then 1999-01-04."@,
            Error::InvalidPort(port) => "`"@ + port@ + "` is an invalid port"@,
            Error::InvalidDateRange => "start_at must be older than end_at"@,
            Error::InvalidDateFormat(name, text) => "`"@ + name@ + "`: `"@ + text@
                + "` is in an invalid date format, date must be in the format %Y-%m-%d"@,
            Error::InvalidBase(base) => "`"@ + base@ + "` is an invalid base currency"@,
            Error::EmpyDataset => "empty currency dataset, should have at least 1 element"@,
            Error::InvalidSymbol => "symbol list contains invalid symbols"@,
            Error::MissingDateBoundaries => "both start_at and end_at parameters must be present"@,
            Error::DatabaseError(cause) => "database error, `"@ + cause@ + "`"@,
            Error::FetcherError(cause) => "error fetching currencies from ECB, `"@ + cause@ + "`"@,
            Error::TemplateError(cause) => "error rendering template, `"@ + cause@ + "`"@,
        }
    }

    /// The status under which the failure is reported: a request that
    /// cannot be read or served as asked is the client's to mend, a day that
    /// is not there is not found, and all else is a failure on this side.
    pub open spec fn status(&self) -> u16 {
        match self {
            Error::DateNotFound(_) => NOT_FOUND,
            Error::DateParseError(_) => BAD_REQUEST,
            Error::PastDate(_) => BAD_REQUEST,
            Error::InvalidPort(_) => INTERNAL_SERVER_ERROR,
            Error::InvalidDateRange => BAD_REQUEST,
            Error::InvalidDateFormat(_, _) => BAD_REQUEST,
            Error::InvalidBase(_) => BAD_REQUEST,
            Error::EmpyDataset => BAD_REQUEST,
            Error::InvalidSymbol => BAD_REQUEST,
            Error::MissingDateBoundaries => BAD_REQUEST,
            Error::DatabaseError(_) => INTERNAL_SERVER_ERROR,
            Error::FetcherError(_) => INTERNAL_SERVER_ERROR,
            Error::TemplateError(_) => INTERNAL_SERVER_ERROR,
        }
    }

    /// What the client is told: the failure in words where the request is to
    /// mend, and no more than the kind of failure otherwise.
    pub open spec fn shown(&self) -> Seq<char> {
        if self.status() == BAD_REQUEST {
            self.text()
        } else if self.status() == NOT_FOUND {
            "Not Found"@
        } else {
            "Internal Server Error"@
        }
    }

    /// The failure in words.
    pub fn message(&self) -> (text: String)
        ensures
            text@ == self.text(),
    {
        match self {
            Error::DateNotFound(date) => framed("no curencies found for date `", date.as_str(), "`"),
            Error::DateParseError(text) => framed(
                "could not parse `",
                text.as_str(),
                "` as NaiveDate",
            ),
            Error::PastDate(name) => framed(
                "`",
                name,
                "` is invalid, there are no currency rates for dates older then 1999-01-04.",
            ),
            Error::InvalidPort(port) => framed("`", port.as_str(), "` is an invalid port"),
            Error::InvalidDateRange => "start_at must be older than end_at".to_owned(),
            Error::InvalidDateFormat(name, text) => {
                let mut told: String = framed("`", name, "`: `");
                told.append(text.as_str());
                told.append("` is in an invalid date format, date must be in the format %Y-%m-%d");
                told
            },
            Error::InvalidBase(base) => framed("`", base.as_str(), "` is an invalid base currency"),
            Error::EmpyDataset => "empty currency dataset, should have at least 1 element".to_owned(),
            Error::InvalidSymbol => "symbol list contains invalid symbols".to_owned(),
            Error::MissingDateBoundaries => "both start_at and end_at parameters must be present".to_owned(),
            Error::DatabaseError(cause) => framed("database error, `", cause.as_str(), "`"),
            Error::FetcherError(cause) => framed(
                "error fetching currencies from ECB, `",
                cause.as_str(),
                "`",
            ),
            Error::TemplateError(cause) => framed(
                "error rendering template, `",
                cause.as_str(),
                "`",
            ),
        }
    }

    /// The status under which the failure is reported.
    pub fn status_code(&self) -> (code: u16)
        ensures
            code == self.status(),
    {
        match self {
            Error::DateNotFound(_) => NOT_FOUND,
            Error::DateParseError(_)
            | Error::PastDate(_)
            | Error::InvalidDateRange
            | Error::InvalidDateFormat(_, _)
            | Error::InvalidBase(_)
            | Error::EmpyDataset
            | Error::InvalidSymbol
            | Error::MissingDateBoundaries => BAD_REQUEST,
            Error::InvalidPort(_)
            | Error::DatabaseError(_)
            | Error::FetcherError(_)
            | Error::TemplateError(_) => INTERNAL_SERVER_ERROR,
        }
    }
}

/// What a client is told of a failure: its status, and its words where the
/// client can mend the request. Of a failure on this side the client learns
/// the kind only.
pub fn recover(err: &Error) -> (told: ErrorMessage)
    ensures
        told.code == err.status(),
        told.msg@ == err.shown(),
{
    let code: u16 = err.status_code();
    let msg: String = if code == BAD_REQUEST {
        err.message()
    } else if code == NOT_FOUND {
        "Not Found".to_owned()
    } else {
        "Internal Server Error".to_owned()
    };
    ErrorMessage { code, msg }
}

} // verus!
