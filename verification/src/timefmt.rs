//! Timestamp rendering. The conversion from seconds to calendar text is
//! chrono's; the library only names its result.

use vstd::prelude::*;

verus! {

/// The text rendered for a second-resolution UTC timestamp under the
/// `%Y-%m-%d %H:%M:%S` layout (the epoch's text for a timestamp out of
/// range); a function of the seconds alone.
pub uninterp spec fn timestamp_text(secs: int) -> Seq<char>;

/// Whether the timestamp lies in the representable range of seconds.
pub uninterp spec fn timestamp_valid(secs: int) -> bool;

/// Relies on chrono's `DateTime::from_timestamp`: it returns `Some` exactly
/// on the representable range of seconds.
#[verifier::external_body]
pub(crate) fn timestamp_representable(secs: i64) -> (r: bool)
    ensures
        r == timestamp_valid(secs as int),
{
    chrono::DateTime::from_timestamp(secs, 0).is_some()
}

/// Relies on chrono's `DateTime::from_timestamp`, `DateTime::format` with
/// `"%Y-%m-%d %H:%M:%S"`, and the `Default` of `DateTime<Utc>` (the epoch)
/// for an out-of-range timestamp: the text depends on the seconds alone.
#[verifier::external_body]
pub(crate) fn format_timestamp(secs: i64) -> (r: String)
    ensures
        r@ == timestamp_text(secs as int),
{
    chrono::DateTime::from_timestamp(secs, 0).unwrap_or_default().format(
        "%Y-%m-%d %H:%M:%S",
    ).to_string()
}

} // verus!
