//! Trusted declarations for the outside crates the library calls: the
//! timestamp parsers of `chrono` and the pattern matcher of `regex`, plus
//! one helper over `str::chars` of the standard library.
//!
//! Each result below depends on the string arguments alone, so it carries a
//! name (an uninterpreted function) that the callers' contracts build on.
use vstd::prelude::*;

verus! {

/// What `chrono::NaiveDateTime::parse_from_str` parses out of a value under
/// a format string, as milliseconds since the epoch; depends on the two
/// strings alone.
pub uninterp spec fn chrono_datetime_parse(value: Seq<char>, fmt: Seq<char>) -> Option<i64>;

/// What `chrono::NaiveDate::parse_from_str` parses out of a value under a
/// format string, as milliseconds since the epoch at midnight.
pub uninterp spec fn chrono_date_parse(value: Seq<char>, fmt: Seq<char>) -> Option<i64>;

/// What parsing a value as an offset-carrying timestamp text yields, as
/// milliseconds since the epoch.
pub uninterp spec fn chrono_rfc_parse(value: Seq<char>) -> Option<i64>;

/// Whether `regex::Regex::new` accepts the pattern.
pub uninterp spec fn regex_valid(pattern: Seq<char>) -> bool;

/// Whether the regular expression of `pattern` matches somewhere in `text`.
pub uninterp spec fn regex_match(pattern: Seq<char>, text: Seq<char>) -> bool;

/// Relies on chrono::NaiveDateTime::parse_from_str: whether the value
/// parses under the format, and the parsed timestamp in milliseconds. The
/// result depends on the two strings alone.
#[verifier::external_body]
pub fn parse_naive_datetime_millis(value: &str, fmt: &str) -> (r: Option<i64>)
    ensures
        r == chrono_datetime_parse(value@, fmt@),
{
    chrono::NaiveDateTime::parse_from_str(value, fmt).ok().map(|dt| dt.and_utc().timestamp_millis())
}

/// Relies on chrono::NaiveDate::parse_from_str: whether the value parses as
/// a date under the format, and midnight of that date in milliseconds. The
/// result depends on the two strings alone.
#[verifier::external_body]
pub fn parse_naive_date_millis(value: &str, fmt: &str) -> (r: Option<i64>)
    ensures
        r == chrono_date_parse(value@, fmt@),
{
    chrono::NaiveDate::parse_from_str(value, fmt)
        .ok()
        .and_then(|d| d.and_hms_opt(0, 0, 0))
        .map(|dt| dt.and_utc().timestamp_millis())
}

/// Relies on chrono's `FromStr` for offset-carrying timestamps: whether the
/// value parses as a full timestamp text, and its milliseconds. The result
/// depends on the value alone.
#[verifier::external_body]
pub fn parse_rfc_datetime_millis(value: &str) -> (r: Option<i64>)
    ensures
        r == chrono_rfc_parse(value@),
{
    value.parse::<chrono::DateTime<chrono::FixedOffset>>().ok().map(|dt| dt.timestamp_millis())
}

/// The compile error type of the regex crate, declared so that it can stand
/// in result signatures; opaque to the verifier.
#[verifier::external_type_specification]
#[verifier::external_body]
pub struct ExRegexError(regex::Error);

/// Relies on regex::Regex::new: whether the pattern is a valid regular
/// expression, with the crate's own error on refusal; acceptance depends on
/// the pattern alone.
#[verifier::external_body]
pub fn regex_compile(pattern: &str) -> (r: Result<(), regex::Error>)
    ensures
        r.is_ok() == regex_valid(pattern@),
{
    regex::Regex::new(pattern).map(|_| ())
}

/// Relies on regex::Regex::new and regex::Regex::is_match: whether the
/// pattern, as a regular expression, matches somewhere in the text; depends
/// on the two strings alone. The pattern must be valid, so the compilation
/// cannot fail.
#[verifier::external_body]
pub fn regex_is_match(pattern: &str, text: &str) -> (r: bool)
    requires
        regex_valid(pattern@),
    ensures
        r == regex_match(pattern@, text@),
{
    match regex::Regex::new(pattern) {
        Ok(re) => re.is_match(text),
        Err(_) => false,
    }
}

/// Relies on str::chars: the characters of the string, in order.
#[verifier::external_body]
pub fn chars_vec(s: &str) -> (r: Vec<char>)
    ensures
        r@ == s@,
{
    s.chars().collect()
}

} // verus!
