//! Unix timestamps written as RFC 3339 date-times through `chrono`.
//!
//! `chrono::DateTime` is bounded by `chrono::TimeZone`, which Verus does not
//! accept in a type declaration, so each trusted item below makes the date
//! with `DateTime::from_timestamp` and writes it in one step.
use vstd::prelude::*;

verus! {

/// Unix timestamps within a trillion seconds of the epoch (some 31,000
/// years either way): `chrono` represents every one of them, its dates
/// reaching about 262,000 years from the common era.
pub open spec fn within_chrono_range(secs: int) -> bool {
    -1_000_000_000_000 <= secs <= 1_000_000_000_000
}

/// The RFC 3339 text, in UTC with `Z` and whole seconds, of the Unix
/// timestamp `secs`, or `None` where `chrono` cannot represent it.
pub uninterp spec fn chrono_rfc3339_z(secs: int) -> Option<Seq<char>>;

/// The RFC 3339 text, in UTC with a `+00:00` offset, of the Unix timestamp
/// `secs`, or `None` where `chrono` cannot represent it.
pub uninterp spec fn chrono_rfc3339(secs: int) -> Option<Seq<char>>;

/// `chrono::DateTime::<Utc>::from_timestamp(secs, 0)`, then
/// `to_rfc3339_opts(SecondsFormat::Secs, true)`. Claims: the result is
/// `chrono_rfc3339_z(secs)`, and it is present for every timestamp within
/// `within_chrono_range` (`from_timestamp` is documented to give `None`
/// only for an out-of-range number of seconds or an invalid nanosecond
/// part, and the nanosecond part here is 0).
#[verifier::external_body]
pub(crate) fn rfc3339_z(secs: i64) -> (res: Option<String>)
    ensures
        match res {
            Some(text) => chrono_rfc3339_z(secs as int) == Some(text@),
            None => chrono_rfc3339_z(secs as int) is None,
        },
        within_chrono_range(secs as int) ==> res is Some,
{
    match chrono::DateTime::<chrono::Utc>::from_timestamp(secs, 0) {
        Some(time) => Some(time.to_rfc3339_opts(chrono::SecondsFormat::Secs, true)),
        None => None,
    }
}

/// `chrono::DateTime::<Utc>::from_timestamp(secs, 0)`, then `to_rfc3339`.
/// Claims: the result is `chrono_rfc3339(secs)`, and it is present for
/// every timestamp within `within_chrono_range`, as for `rfc3339_z`.
#[verifier::external_body]
pub(crate) fn rfc3339(secs: i64) -> (res: Option<String>)
    ensures
        match res {
            Some(text) => chrono_rfc3339(secs as int) == Some(text@),
            None => chrono_rfc3339(secs as int) is None,
        },
        within_chrono_range(secs as int) ==> res is Some,
{
    match chrono::DateTime::<chrono::Utc>::from_timestamp(secs, 0) {
        Some(time) => Some(time.to_rfc3339()),
        None => None,
    }
}

} // verus!
