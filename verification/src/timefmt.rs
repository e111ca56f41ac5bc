use vstd::prelude::*;

verus! {

/// What chrono reads a timestamp rendering as: the UTC epoch seconds of a
/// `YYYY-MM-DD_HH-MM-SS` string, or nothing when the bytes are not such a
/// rendering of a valid instant. A function of the bytes alone.
pub uninterp spec fn utc_epoch_of(s: Seq<u8>) -> Option<i64>;

/// Relies on chrono's `NaiveDateTime::parse_from_str` with the format
/// `%Y-%m-%d_%H-%M-%S`, read as UTC: the result depends on the bytes alone.
#[verifier::external_body]
pub(crate) fn parse_utc_epoch(ts: &Vec<u8>) -> (r: Option<i64>)
    ensures
        r == utc_epoch_of(ts@),
{
    std::str::from_utf8(ts).ok().and_then(
        |s| chrono::NaiveDateTime::parse_from_str(s, "%Y-%m-%d_%H-%M-%S").ok(),
    ).map(|dt| dt.and_utc().timestamp())
}

} // verus!
