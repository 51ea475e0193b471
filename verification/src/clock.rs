use vstd::prelude::*;
use std::time::{SystemTime, UNIX_EPOCH};

verus! {

/// Reads the system clock through `SystemTime::now` and returns whole seconds since the
/// Unix epoch, or 0 when the clock reads earlier than the epoch.
/// Nothing is promised about the value: it depends on the machine's clock.
#[verifier::external_body]
pub(crate) fn unix_now_secs() -> u64 {
    SystemTime::now().duration_since(UNIX_EPOCH).map(|d| d.as_secs()).unwrap_or(0)
}

/// Reads the system clock through `SystemTime::now`: whole seconds since the Unix epoch and
/// the nanoseconds past them (`Duration::subsec_nanos`, below one billion), or `(0, 0)`
/// when the clock reads earlier than the epoch. The reading itself depends on the clock.
#[verifier::external_body]
fn unix_now() -> (r: (u64, u32))
    ensures
        r.1 < 1_000_000_000,
{
    SystemTime::now().duration_since(UNIX_EPOCH).map(|d| (d.as_secs(), d.subsec_nanos())).unwrap_or((0, 0))
}

/// Named result: how `chrono` writes the UTC instant `secs` seconds and `nanos`
/// nanoseconds after the Unix epoch in RFC 3339 form (`DateTime::to_rfc3339`).
pub uninterp spec fn rfc3339_text(secs: i64, nanos: u32) -> Seq<char>;

/// The last second of the year 262142, the latest instant that `chrono` can hold.
pub const LATEST_SECS: u64 = 8210266876799;

/// Calls `chrono::DateTime::from_timestamp(secs, nanos)` and writes the instant with
/// `to_rfc3339`. `from_timestamp` gives `None` only for an instant outside the dates that
/// `chrono` holds (years beyond ±262142) or for `nanos` of a billion or more outside a
/// leap second, so every instant from the epoch to the end of the year 262142 is written.
#[verifier::external_body]
fn rfc3339_utc(secs: i64, nanos: u32) -> (r: Option<String>)
    ensures
        r matches Some(t) ==> t@ == rfc3339_text(secs, nanos),
        0 <= secs <= LATEST_SECS && nanos < 1_000_000_000 ==> r is Some,
{
    chrono::DateTime::from_timestamp(secs, nanos).map(|d| d.to_rfc3339())
}

/// The current UTC time in RFC 3339 form. `chrono::Utc::now` fails on a clock earlier
/// than the epoch or later than the year 262142; such a clock reads here as the epoch, or
/// as the last second of the year 262142.
pub(crate) fn now_rfc3339() -> (r: String)
    ensures
        exists|secs: i64, nanos: u32| 0 <= secs <= LATEST_SECS && r@ == rfc3339_text(secs, nanos),
{
    let (secs, nanos) = unix_now();
    let s: u64 = if secs > LATEST_SECS { LATEST_SECS } else { secs };
    match rfc3339_utc(s as i64, nanos) {
        Some(t) => t,
        None => String::new(),
    }
}

} // verus!
