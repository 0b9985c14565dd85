//! Errors of the library.
use vstd::prelude::*;
use vstd::string::*;

verus! {

#[derive(Debug, Clone)]
pub enum ScraperError {
    ApiError(String),
    ParseError(String),
    ValidationError(String),
    RateLimitError(String),
    NetworkError(String),
    IoError(String),
    DatabaseError(String),
    MigrationError(String),
}

/// The label a message of each kind starts with.
pub open spec fn error_label(e: ScraperError) -> Seq<char> {
    match e {
        ScraperError::ApiError(_) => "API Error: "@,
        ScraperError::ParseError(_) => "Parse Error: "@,
        ScraperError::ValidationError(_) => "Validation Error: "@,
        ScraperError::RateLimitError(_) => "Rate Limit Error: "@,
        ScraperError::NetworkError(_) => "Network Error: "@,
        ScraperError::IoError(_) => "IO Error: "@,
        ScraperError::DatabaseError(_) => "Database Error: "@,
        ScraperError::MigrationError(_) => "Migration Error: "@,
    }
}

pub open spec fn error_detail(e: ScraperError) -> Seq<char> {
    match e {
        ScraperError::ApiError(m) => m@,
        ScraperError::ParseError(m) => m@,
        ScraperError::ValidationError(m) => m@,
        ScraperError::RateLimitError(m) => m@,
        ScraperError::NetworkError(m) => m@,
        ScraperError::IoError(m) => m@,
        ScraperError::DatabaseError(m) => m@,
        ScraperError::MigrationError(m) => m@,
    }
}

impl ScraperError {
    /// The message: the kind's label followed by the detail.
    pub fn to_string(&self) -> (r: String)
        ensures
            r@ == error_label(*self) + error_detail(*self),
    {
        let (label, detail) = match self {
            ScraperError::ApiError(m) => ("API Error: ", m),
            ScraperError::ParseError(m) => ("Parse Error: ", m),
            ScraperError::ValidationError(m) => ("Validation Error: ", m),
            ScraperError::RateLimitError(m) => ("Rate Limit Error: ", m),
            ScraperError::NetworkError(m) => ("Network Error: ", m),
            ScraperError::IoError(m) => ("IO Error: ", m),
            ScraperError::DatabaseError(m) => ("Database Error: ", m),
            ScraperError::MigrationError(m) => ("Migration Error: ", m),
        };
        let mut r = String::from_str(label);
        r.append(detail.as_str());
        r
    }
}

} // verus!
