//! Snapshot directory names are date-time strings with second precision.
//! Rendering and parsing are done by chrono; the library names the parse
//! result and builds its contracts on it.
use vstd::prelude::*;

verus! {

/// The timestamp a snapshot directory name denotes, if the name is a
/// well-formed date-time string. The result depends on the characters of
/// the name alone.
pub uninterp spec fn parse_ts_of(s: Seq<char>) -> Option<i64>;

/// Relies on chrono: `str::parse::<DateTime<Utc>>` (RFC 3339 and close
/// relatives) followed by `DateTime::timestamp`.
#[verifier::external_body]
pub fn parse_snapshot_ts(name: &str) -> (r: Option<i64>)
    ensures
        r == parse_ts_of(name@),
{
    let parsed: Result<chrono::DateTime<chrono::Utc>, _> = name.parse();
    parsed.ok().map(|t| t.timestamp())
}

/// Relies on chrono: `DateTime::from_timestamp` (`None` only outside the
/// representable date range, which reaches years around ±262000 and so
/// covers every timestamp within four trillion seconds of the epoch —
/// far beyond any wall clock; round-trips with `timestamp`) and
/// `to_rfc3339_opts(SecondsFormat::Secs, true)`, whose rendering
/// `str::parse::<DateTime<Utc>>` reads back to the same instant.
#[verifier::external_body]
pub fn snapshot_name(ts: i64) -> (r: Option<String>)
    ensures
        r matches Option::Some(name) ==> parse_ts_of(name@) == Option::Some(ts),
        -4_000_000_000_000 <= ts <= 4_000_000_000_000 ==> r is Some,
{
    chrono::DateTime::<chrono::Utc>::from_timestamp(ts, 0)
        .map(|d| d.to_rfc3339_opts(chrono::SecondsFormat::Secs, true))
}

} // verus!
