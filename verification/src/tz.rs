//! Trusted boundary to the time-zone database and the host environment.
//!
//! Everything this crate knows about real time zones comes through the
//! wrappers below. Offsets and local-time mappings are pure functions of
//! the zone identifier and the instant, so they are given names
//! (`zone_offset`, `local_epoch`) that the rest of the crate reasons with.
use vstd::prelude::*;

use core::str::FromStr;

use chrono::Offset;
use chrono::TimeZone;

use crate::calendar::CivilDateTime;
use crate::calendar::MAX_EPOCH;
use crate::calendar::MIN_EPOCH;
use crate::calendar::civil_from_epoch;
use crate::calendar::civil_valid;
use crate::calendar::epoch_of_civil;

verus! {

/// Holds exactly when `name` is an identifier that the time-zone database
/// recognizes (a name `chrono_tz::Tz::from_str` accepts).
pub uninterp spec fn is_iana_zone(name: Seq<char>) -> bool;

/// The UTC offset, in seconds, of zone `tz` at the given instant.
pub uninterp spec fn zone_offset(tz: Seq<char>, epoch: int) -> int;

/// The instant, if any, at which zone `tz`'s wall clock reads the given
/// civil fields; where a clock change makes the reading ambiguous, the
/// earlier instant.
pub uninterp spec fn local_epoch(
    tz: Seq<char>,
    y: int,
    mo: int,
    d: int,
    h: int,
    mi: int,
    s: int,
) -> Option<int>;

/// Relies on `chrono_tz::TZ_VARIANTS` and `Tz::name`: every listed name is
/// accepted back by `Tz::from_str`, and the list is not empty.
#[verifier::external_body]
pub fn tz_names() -> (r: Vec<String>)
    ensures
        r@.len() > 0,
        forall|i: int| 0 <= i < r@.len() ==> is_iana_zone(#[trigger] r@[i]@),
{
    chrono_tz::TZ_VARIANTS.iter().map(|z| z.name().to_string()).collect()
}

/// Relies on `localzone::get_local_zone`: the host's zone, if determinable.
/// The result depends on the host configuration, so nothing is promised of it.
#[verifier::external_body]
pub fn host_local_zone() -> (r: Option<String>) {
    localzone::get_local_zone()
}

/// Relies on `std::time::SystemTime::now`: the host clock, as seconds
/// since the Unix epoch, readings before the epoch counted negative. The
/// result depends on the clock, so nothing is promised of it.
#[verifier::external_body]
pub fn now_epoch() -> (r: i64) {
    match std::time::SystemTime::now().duration_since(std::time::UNIX_EPOCH) {
        Ok(d) => d.as_secs() as i64,
        Err(e) => -(e.duration().as_secs() as i64),
    }
}

/// Relies on `chrono_tz::Tz::from_str` and
/// `chrono_tz::Tz::offset_from_utc_datetime`: the UTC offset of `tz` at the
/// given instant. Offsets come from `chrono::FixedOffset`, which keeps them
/// strictly within a day.
#[verifier::external_body]
pub(crate) fn utc_offset_at(tz: &str, epoch: i64) -> (r: Option<i64>)
    requires
        MIN_EPOCH - 172800 <= epoch <= MAX_EPOCH + 172800,
    ensures
        r matches Some(o) ==> o == zone_offset(tz@, epoch as int) && -86400 < o < 86400,
        is_iana_zone(tz@) ==> r is Some,
{
    match (chrono_tz::Tz::from_str(tz), chrono::DateTime::from_timestamp(epoch, 0)) {
        (Ok(z), Some(dt)) => Some(
            z.offset_from_utc_datetime(&dt.naive_utc()).fix().local_minus_utc() as i64,
        ),
        _ => None,
    }
}

/// Relies on `chrono::TimeZone::from_local_datetime` (on `chrono_tz::Tz`) and
/// `chrono::LocalResult::earliest`: the earliest instant whose wall clock in
/// `tz` reads `c`, or `None` when a clock change skips that reading or the
/// zone is unknown. When it exists, its wall clock reads `c`, which ties it
/// to `zone_offset` and `epoch_of_civil`.
#[verifier::external_body]
pub(crate) fn local_epoch_at(tz: &str, c: &CivilDateTime) -> (r: Option<i64>)
    requires
        civil_valid(*c),
    ensures
        (r is Some) == (local_epoch(
            tz@,
            c.year as int,
            c.month as int,
            c.day as int,
            c.hour as int,
            c.minute as int,
            c.second as int,
        ) is Some),
        r matches Some(e) ==> {
            &&& local_epoch(
                tz@,
                c.year as int,
                c.month as int,
                c.day as int,
                c.hour as int,
                c.minute as int,
                c.second as int,
            ) == Some(e as int)
            &&& e + zone_offset(tz@, e as int) == epoch_of_civil(*c)
            &&& MIN_EPOCH - 86400 <= e <= MAX_EPOCH + 86400
        },
        !is_iana_zone(tz@) ==> r is None,
{
    let z = match chrono_tz::Tz::from_str(tz) {
        Ok(z) => z,
        Err(_) => return None,
    };
    let nd = chrono::NaiveDate::from_ymd_opt(c.year, c.month, c.day)?;
    let nt = nd.and_hms_opt(c.hour, c.minute, c.second)?;
    z.from_local_datetime(&nt).earliest().map(|dt| dt.timestamp())
}

/// The wall-clock reading of `epoch` in zone `tz`, when the zone is known
/// and the shifted instant stays in the supported range of years.
pub fn civil_in_zone(epoch: i64, tz: &str) -> (r: Option<CivilDateTime>)
    requires
        MIN_EPOCH - 86400 <= epoch <= MAX_EPOCH + 86400,
    ensures
        r matches Some(c) ==> civil_valid(c) && epoch_of_civil(c) == epoch + zone_offset(
            tz@,
            epoch as int,
        ),
        is_iana_zone(tz@) && MIN_EPOCH <= epoch + zone_offset(tz@, epoch as int) <= MAX_EPOCH
            ==> r is Some,
{
    match utc_offset_at(tz, epoch) {
        Some(off) => {
            let shifted = epoch + off;
            if MIN_EPOCH <= shifted && shifted <= MAX_EPOCH {
                Some(civil_from_epoch(shifted))
            } else {
                None
            }
        },
        None => None,
    }
}

} // verus!
