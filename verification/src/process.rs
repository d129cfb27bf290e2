//! The temporal evaluator and the chain processor.
//!
//! A `TimeAtLocation` pairs an instant (seconds since the Unix epoch) with
//! a resolved zone. Applying an expression moves the instant: absolute
//! overrides set wall-clock fields read in the zone, relative overrides
//! add signed durations to the instant itself. Converting a result into
//! another zone never changes the instant, only the zone it is read in —
//! which is why every entry of a processed chain carries the same epoch.
use vstd::prelude::*;

use crate::calendar::CivilDateTime;
use crate::calendar::MAX_EPOCH;
use crate::calendar::MIN_EPOCH;
use crate::calendar::civil_from_epoch;
use crate::calendar::civil_valid;
use crate::calendar::days_in_month;
use crate::calendar::days_in_month_spec;
use crate::calendar::epoch_of_civil;
use crate::location::Gazetteer;
use crate::location::ZoneRef;
use crate::location::ZoneRefV;
use crate::location::effective_token;
use crate::location::find_zone;
use crate::location::resolve_spec;
use crate::parser::DateParseError;
use crate::parser::DateSpec;
use crate::parser::Field;
use crate::parser::InputExpr;
use crate::parser::TimeSpec;
use crate::text::chars_of;
use crate::text::str_eq;
use crate::text::string_of;
use crate::tz::civil_in_zone;
use crate::tz::is_iana_zone;
use crate::tz::local_epoch;
use crate::tz::local_epoch_at;
use crate::tz::now_epoch;
use crate::tz::utc_offset_at;
use crate::tz::zone_offset;

verus! {

/// A tuple of time and location: an instant together with the zone it is
/// read in.
#[derive(Debug)]
pub struct TimeAtLocation {
    pub epoch: i64,
    pub zone_ref: ZoneRef,
}

/// The identifier a reference converts through, at the view level.
pub open spec fn zref_tz(z: ZoneRefV) -> Seq<char> {
    match z {
        ZoneRefV::Tz(n) => n,
        ZoneRefV::Location(l) => l.tz,
    }
}

impl TimeAtLocation {
    /// Instants a result can carry: at most a day beyond the supported
    /// years, which zone offsets can reach.
    pub open spec fn wf(&self) -> bool {
        MIN_EPOCH - 86400 <= self.epoch <= MAX_EPOCH + 86400
    }

    /// Returns the instant.
    pub fn epoch(&self) -> (r: i64)
        ensures
            r == self.epoch,
    {
        self.epoch
    }

    /// Returns the zone reference for the timestamp.
    pub fn zone(&self) -> (r: &ZoneRef)
        ensures
            r == &self.zone_ref,
    {
        &self.zone_ref
    }

    /// Returns the wall-clock reading of the timestamp in its zone.
    pub fn datetime(&self) -> (r: Option<CivilDateTime>)
        requires
            self.wf(),
        ensures
            r matches Some(c) ==> civil_valid(c) && epoch_of_civil(c) == self.epoch + zone_offset(
                self.zone_ref.tz_spec(),
                self.epoch as int,
            ),
            is_iana_zone(self.zone_ref.tz_spec()) && MIN_EPOCH <= self.epoch + zone_offset(
                self.zone_ref.tz_spec(),
                self.epoch as int,
            ) <= MAX_EPOCH ==> r is Some,
    {
        civil_in_zone(self.epoch, self.zone_ref.tz())
    }
}

/// The same instant read in another zone.
pub open spec fn converted(t: TimeAtLocation, z: ZoneRef) -> TimeAtLocation {
    TimeAtLocation { epoch: t.epoch, zone_ref: z }
}

/// Reading an instant in another zone and back reproduces the original
/// exactly: conversion never moves the instant.
pub proof fn lemma_conversion_round_trip(t: TimeAtLocation, z: ZoneRef)
    ensures
        converted(converted(t, z), t.zone_ref) == t,
        converted(t, z).epoch == t.epoch,
{
}

/// What the time override does to the instant `e0`, read in zone `tz`:
/// `Ok` with the moved instant, or the field that failed.
#[verifier::opaque]
pub open spec fn time_step_rel(
    ts: Option<TimeSpec>,
    tz: Seq<char>,
    e0: int,
    r: Result<int, Field>,
) -> bool {
    match ts {
        None => r == Ok::<int, Field>(e0),
        Some(TimeSpec::Rel { hours, minutes, seconds }) => {
            let e1 = e0 + hours * 3600 + minutes * 60 + seconds;
            if MIN_EPOCH <= e1 <= MAX_EPOCH {
                r == Ok::<int, Field>(e1)
            } else {
                r == Err::<int, Field>(Field::UnixTimestamp)
            }
        },
        Some(TimeSpec::Abs { hour, minute, second }) => {
            let shifted = e0 + zone_offset(tz, e0);
            if MIN_EPOCH <= shifted <= MAX_EPOCH {
                exists|c0: CivilDateTime|
                    {
                        &&& #[trigger] civil_valid(c0)
                        &&& epoch_of_civil(c0) == shifted
                        &&& match local_epoch(
                            tz,
                            c0.year as int,
                            c0.month as int,
                            c0.day as int,
                            hour as int,
                            minute as int,
                            second as int,
                        ) {
                            Some(e1) => r == Ok::<int, Field>(e1),
                            None => r == Err::<int, Field>(Field::Time),
                        }
                    }
            } else {
                r == Err::<int, Field>(Field::Time)
            }
        },
    }
}

/// What the date fields do to the wall-clock reading `c1`: each field is
/// set in turn and validated against the date so far, exactly as the
/// errors name them.
pub open spec fn date_fields_rel(
    day: int,
    month: Option<i32>,
    year: Option<i32>,
    tz: Seq<char>,
    c1: CivilDateTime,
    r: Result<int, Field>,
) -> bool {
    if day < 1 || day > days_in_month_spec(c1.year as int, c1.month as int) {
        r == Err::<int, Field>(Field::Day)
    } else {
        let m2: int = match month {
            Some(m) => m as int,
            None => c1.month as int,
        };
        if month is Some && !(1 <= m2 <= 12) {
            r == Err::<int, Field>(Field::Month)
        } else if month is Some && day > days_in_month_spec(c1.year as int, m2) {
            r == Err::<int, Field>(Field::Month)
        } else {
            let y2: int = match year {
                Some(y) => y as int,
                None => c1.year as int,
            };
            if year is Some && !(1 <= y2 <= 9999) {
                r == Err::<int, Field>(Field::Year)
            } else if year is Some && day > days_in_month_spec(y2, m2) {
                r == Err::<int, Field>(Field::Year)
            } else {
                match local_epoch(
                    tz,
                    y2,
                    m2,
                    day,
                    c1.hour as int,
                    c1.minute as int,
                    c1.second as int,
                ) {
                    Some(e2) => r == Ok::<int, Field>(e2),
                    None => r == Err::<int, Field>(Field::Day),
                }
            }
        }
    }
}

/// An absolute day override outside the reference month's length always
/// fails naming the day, whatever month and year fields accompany it:
/// there is no clamping and no wrapping into the next month.
pub proof fn lemma_day_override_out_of_range(
    day: int,
    month: Option<i32>,
    year: Option<i32>,
    tz: Seq<char>,
    c1: CivilDateTime,
    r: Result<int, Field>,
)
    requires
        date_fields_rel(day, month, year, tz, c1, r),
        day < 1 || day > days_in_month_spec(c1.year as int, c1.month as int),
    ensures
        r == Err::<int, Field>(Field::Day),
{
}

/// What the date override does to the instant `e1`, read in zone `tz`.
#[verifier::opaque]
pub open spec fn date_step_rel(
    ds: Option<DateSpec>,
    tz: Seq<char>,
    e1: int,
    r: Result<int, Field>,
) -> bool {
    match ds {
        None => r == Ok::<int, Field>(e1),
        Some(DateSpec::Rel { days }) => {
            let e2 = e1 + days * 86400;
            if MIN_EPOCH <= e2 <= MAX_EPOCH {
                r == Ok::<int, Field>(e2)
            } else {
                r == Err::<int, Field>(Field::UnixTimestamp)
            }
        },
        Some(DateSpec::Abs { day, month, year }) => {
            let shifted = e1 + zone_offset(tz, e1);
            if MIN_EPOCH <= shifted <= MAX_EPOCH {
                exists|c1: CivilDateTime|
                    {
                        &&& #[trigger] civil_valid(c1)
                        &&& epoch_of_civil(c1) == shifted
                        &&& date_fields_rel(day as int, month, year, tz, c1, r)
                    }
            } else {
                r == Err::<int, Field>(Field::Day)
            }
        },
    }
}

/// The whole evaluation: the time override moves the instant, then the
/// date override moves the result.
#[verifier::opaque]
pub open spec fn eval_rel(
    ts: Option<TimeSpec>,
    ds: Option<DateSpec>,
    tz: Seq<char>,
    e0: int,
    out: int,
) -> bool {
    exists|e1: int|
        #[trigger] time_step_rel(ts, tz, e0, Ok(e1)) && date_step_rel(ds, tz, e1, Ok(out))
}

/// The whole evaluation failing: the time override fails with `f`, or it
/// succeeds and the date override fails with `f`.
#[verifier::opaque]
pub open spec fn eval_err_rel(
    ts: Option<TimeSpec>,
    ds: Option<DateSpec>,
    tz: Seq<char>,
    e0: int,
    f: Field,
) -> bool {
    ||| time_step_rel(ts, tz, e0, Err(f))
    ||| exists|e1: int|
        #[trigger] time_step_rel(ts, tz, e0, Ok(e1)) && date_step_rel(ds, tz, e1, Err(f))
}

/// The time step relates its inputs to at most one outcome.
pub proof fn lemma_time_step_unique(
    ts: Option<TimeSpec>,
    tz: Seq<char>,
    e0: int,
    r1: Result<int, Field>,
    r2: Result<int, Field>,
)
    requires
        time_step_rel(ts, tz, e0, r1),
        time_step_rel(ts, tz, e0, r2),
    ensures
        r1 == r2,
{
    reveal(time_step_rel);
    match ts {
        Some(TimeSpec::Abs { hour, minute, second }) => {
            let shifted = e0 + zone_offset(tz, e0);
            if MIN_EPOCH <= shifted <= MAX_EPOCH {
                let c1 = choose|c0: CivilDateTime|
                    {
                        &&& #[trigger] civil_valid(c0)
                        &&& epoch_of_civil(c0) == shifted
                        &&& match local_epoch(
                            tz,
                            c0.year as int,
                            c0.month as int,
                            c0.day as int,
                            hour as int,
                            minute as int,
                            second as int,
                        ) {
                            Some(e1) => r1 == Ok::<int, Field>(e1),
                            None => r1 == Err::<int, Field>(Field::Time),
                        }
                    };
                let c2 = choose|c0: CivilDateTime|
                    {
                        &&& #[trigger] civil_valid(c0)
                        &&& epoch_of_civil(c0) == shifted
                        &&& match local_epoch(
                            tz,
                            c0.year as int,
                            c0.month as int,
                            c0.day as int,
                            hour as int,
                            minute as int,
                            second as int,
                        ) {
                            Some(e1) => r2 == Ok::<int, Field>(e1),
                            None => r2 == Err::<int, Field>(Field::Time),
                        }
                    };
                crate::calendar::lemma_epoch_of_civil_injective(c1, c2);
            }
        },
        _ => {},
    }
}

/// The date step relates its inputs to at most one outcome.
pub proof fn lemma_date_step_unique(
    ds: Option<DateSpec>,
    tz: Seq<char>,
    e1: int,
    r1: Result<int, Field>,
    r2: Result<int, Field>,
)
    requires
        date_step_rel(ds, tz, e1, r1),
        date_step_rel(ds, tz, e1, r2),
    ensures
        r1 == r2,
{
    reveal(date_step_rel);
    match ds {
        Some(DateSpec::Abs { day, month, year }) => {
            let shifted = e1 + zone_offset(tz, e1);
            if MIN_EPOCH <= shifted <= MAX_EPOCH {
                let c1 = choose|c: CivilDateTime|
                    {
                        &&& #[trigger] civil_valid(c)
                        &&& epoch_of_civil(c) == shifted
                        &&& date_fields_rel(day as int, month, year, tz, c, r1)
                    };
                let c2 = choose|c: CivilDateTime|
                    {
                        &&& #[trigger] civil_valid(c)
                        &&& epoch_of_civil(c) == shifted
                        &&& date_fields_rel(day as int, month, year, tz, c, r2)
                    };
                crate::calendar::lemma_epoch_of_civil_injective(c1, c2);
            }
        },
        _ => {},
    }
}

/// An evaluation cannot both succeed and fail.
pub proof fn lemma_eval_exclusive(
    ts: Option<TimeSpec>,
    ds: Option<DateSpec>,
    tz: Seq<char>,
    e0: int,
    out: int,
    f: Field,
)
    requires
        eval_rel(ts, ds, tz, e0, out),
    ensures
        !eval_err_rel(ts, ds, tz, e0, f),
{
    reveal(eval_rel);
    reveal(eval_err_rel);
    let e1 = choose|e1: int|
        #[trigger] time_step_rel(ts, tz, e0, Ok(e1)) && date_step_rel(ds, tz, e1, Ok(out));
    if time_step_rel(ts, tz, e0, Err(f)) {
        lemma_time_step_unique(ts, tz, e0, Ok(e1), Err(f));
    }
    if exists|e2: int|
        #[trigger] time_step_rel(ts, tz, e0, Ok(e2)) && date_step_rel(ds, tz, e2, Err(f)) {
        let e2 = choose|e2: int|
            #[trigger] time_step_rel(ts, tz, e0, Ok(e2)) && date_step_rel(ds, tz, e2, Err(f));
        lemma_time_step_unique(ts, tz, e0, Ok(e1), Ok(e2));
        lemma_date_step_unique(ds, tz, e1, Ok(out), Err(f));
    }
}

/// Applies the time override to the instant `e0` in zone `tz`.
fn apply_time(ts: &Option<TimeSpec>, tz: &str, e0: i64) -> (r: Result<i64, Field>)
    requires
        MIN_EPOCH - 86400 <= e0 <= MAX_EPOCH + 86400,
        match ts {
            Some(t) => t.wf(),
            None => true,
        },
    ensures
        r matches Ok(e1) ==> MIN_EPOCH - 86400 <= e1 <= MAX_EPOCH + 86400,
        is_iana_zone(tz@) ==> time_step_rel(
            *ts,
            tz@,
            e0 as int,
            match r {
                Ok(e1) => Ok(e1 as int),
                Err(f) => Err(f),
            },
        ),
{
    proof {
        reveal(time_step_rel);
    }
    match ts {
        None => Ok(e0),
        Some(TimeSpec::Rel { hours, minutes, seconds }) => {
            let e1 = e0 + (*hours as i64) * 3600 + (*minutes as i64) * 60 + (*seconds as i64);
            if MIN_EPOCH <= e1 && e1 <= MAX_EPOCH {
                Ok(e1)
            } else {
                Err(Field::UnixTimestamp)
            }
        },
        Some(TimeSpec::Abs { hour, minute, second }) => {
            let off = match utc_offset_at(tz, e0) {
                Some(o) => o,
                None => {
                    return Err(Field::Time);
                },
            };
            let shifted = e0 + off;
            if shifted < MIN_EPOCH || shifted > MAX_EPOCH {
                return Err(Field::Time);
            }
            let c0 = civil_from_epoch(shifted);
            let c1 = CivilDateTime {
                year: c0.year,
                month: c0.month,
                day: c0.day,
                hour: *hour as u32,
                minute: *minute as u32,
                second: *second as u32,
            };
            match local_epoch_at(tz, &c1) {
                Some(e1) => Ok(e1),
                None => Err(Field::Time),
            }
        },
    }
}

/// Applies the date override to the instant `e1` in zone `tz`.
fn apply_date(ds: &Option<DateSpec>, tz: &str, e1: i64) -> (r: Result<i64, Field>)
    requires
        MIN_EPOCH - 86400 <= e1 <= MAX_EPOCH + 86400,
        match ds {
            Some(d) => d.wf(),
            None => true,
        },
    ensures
        r matches Ok(e2) ==> MIN_EPOCH - 86400 <= e2 <= MAX_EPOCH + 86400,
        is_iana_zone(tz@) ==> date_step_rel(
            *ds,
            tz@,
            e1 as int,
            match r {
                Ok(e2) => Ok(e2 as int),
                Err(f) => Err(f),
            },
        ),
{
    proof {
        reveal(date_step_rel);
    }
    match ds {
        None => Ok(e1),
        Some(DateSpec::Rel { days }) => {
            let e2 = e1 + (*days as i64) * 86400;
            if MIN_EPOCH <= e2 && e2 <= MAX_EPOCH {
                Ok(e2)
            } else {
                Err(Field::UnixTimestamp)
            }
        },
        Some(DateSpec::Abs { day, month, year }) => {
            let off = match utc_offset_at(tz, e1) {
                Some(o) => o,
                None => {
                    return Err(Field::Day);
                },
            };
            let shifted = e1 + off;
            if shifted < MIN_EPOCH || shifted > MAX_EPOCH {
                return Err(Field::Day);
            }
            let c1 = civil_from_epoch(shifted);
            if *day < 1 || *day > days_in_month(c1.year, c1.month) as i32 {
                return Err(Field::Day);
            }
            let m2: u32 = match month {
                Some(m) => {
                    if *m < 1 || *m > 12 {
                        return Err(Field::Month);
                    }
                    if *day > days_in_month(c1.year, *m as u32) as i32 {
                        return Err(Field::Month);
                    }
                    *m as u32
                },
                None => c1.month,
            };
            let y2: i32 = match year {
                Some(y) => {
                    if *y < 1 || *y > 9999 {
                        return Err(Field::Year);
                    }
                    if *day > days_in_month(*y, m2) as i32 {
                        return Err(Field::Year);
                    }
                    *y
                },
                None => c1.year,
            };
            let c2 = CivilDateTime {
                year: y2,
                month: m2,
                day: *day as u32,
                hour: c1.hour,
                minute: c1.minute,
                second: c1.second,
            };
            match local_epoch_at(tz, &c2) {
                Some(e2) => Ok(e2),
                None => Err(Field::Day),
            }
        },
    }
}

impl InputExpr {
    /// Applies the expression to a reference timestamp: the time override
    /// first, then the date override, each exactly as `time_step_rel` and
    /// `date_step_rel` state it. Only out-of-range errors can come back.
    pub fn apply(&self, t: &TimeAtLocation) -> (r: Result<TimeAtLocation, DateParseError>)
        requires
            self.wf(),
            t.wf(),
        ensures
            r matches Ok(out) ==> out.wf() && out.zone_ref@ == t.zone_ref@,
            r matches Err(e) ==> e is OutOfRange,
            is_iana_zone(t.zone_ref.tz_spec()) ==> match r {
                Ok(out) => eval_rel(
                    self.time_spec,
                    self.date_spec,
                    t.zone_ref.tz_spec(),
                    t.epoch as int,
                    out.epoch as int,
                ),
                Err(err) => (err matches DateParseError::OutOfRange(f) && eval_err_rel(
                    self.time_spec,
                    self.date_spec,
                    t.zone_ref.tz_spec(),
                    t.epoch as int,
                    f,
                )),
            },
    {
        let tz = t.zone_ref.tz();
        let e1 = match apply_time(&self.time_spec, tz, t.epoch) {
            Ok(e1) => e1,
            Err(f) => {
                proof {
                    reveal(eval_err_rel);
                }
                return Err(DateParseError::OutOfRange(f));
            },
        };
        let e2 = match apply_date(&self.date_spec, tz, e1) {
            Ok(e2) => e2,
            Err(f) => {
                proof {
                    if is_iana_zone(t.zone_ref.tz_spec()) {
                        assert(eval_err_rel(
                            self.time_spec,
                            self.date_spec,
                            t.zone_ref.tz_spec(),
                            t.epoch as int,
                            f,
                        )) by {
                            reveal(eval_err_rel);
                            assert(time_step_rel(
                                self.time_spec,
                                t.zone_ref.tz_spec(),
                                t.epoch as int,
                                Ok(e1 as int),
                            ));
                        }
                    }
                }
                return Err(DateParseError::OutOfRange(f));
            },
        };
        proof {
            if is_iana_zone(t.zone_ref.tz_spec()) {
                assert(eval_rel(
                    self.time_spec,
                    self.date_spec,
                    t.zone_ref.tz_spec(),
                    t.epoch as int,
                    e2 as int,
                )) by {
                    reveal(eval_rel);
                    assert(time_step_rel(
                        self.time_spec,
                        t.zone_ref.tz_spec(),
                        t.epoch as int,
                        Ok(e1 as int),
                    ));
                }
            }
        }
        Ok(TimeAtLocation { epoch: e2, zone_ref: t.zone_ref.duplicate() })
    }

    /// Resolves the expression into all referenced locations, against an
    /// explicit reference instant.
    ///
    /// The source zone comes from the first location token, or `local`
    /// when none is given; the expression is applied to `now` read there;
    /// each chained token is resolved and receives the same instant. With
    /// no explicit chain, the host zone is appended as an implicit second
    /// result exactly when it converts through a different identifier
    /// than the source zone.
    #[verifier::spinoff_prover]
    #[verifier::rlimit(100)]
    pub fn process_at(&self, gaz: &Gazetteer, now: i64) -> (r: Result<
        Vec<TimeAtLocation>,
        DateParseError,
    >)
        requires
            self.wf(),
            MIN_EPOCH <= now <= MAX_EPOCH,
        ensures
            r matches Ok(list) ==> ({
                let locs = self.locations@;
                let src = if locs.len() == 0 {
                    "local"@
                } else {
                    locs[0]@
                };
                &&& list.len() >= 1
                &&& forall|i: int|
                    0 <= i < list@.len() ==> (#[trigger] list@[i]).epoch == list@[0].epoch
                        && list@[i].wf()
                &&& match resolve_spec(gaz@, effective_token(gaz@, src)) {
                    Some(z0) => list@[0].zone_ref@ == z0 && (is_iana_zone(zref_tz(z0))
                        ==> eval_rel(
                        self.time_spec,
                        self.date_spec,
                        zref_tz(z0),
                        now as int,
                        list@[0].epoch as int,
                    )),
                    None => false,
                }
                &&& if locs.len() > 1 {
                    list@.len() == locs.len() && forall|i: int|
                        1 <= i < list@.len() ==> ((#[trigger] resolve_spec(
                            gaz@,
                            effective_token(gaz@, locs[i]@),
                        )) matches Some(z) && list@[i].zone_ref@ == z)
                } else {
                    match resolve_spec(gaz@, effective_token(gaz@, "local"@)) {
                        Some(lz) => if zref_tz(lz) == zref_tz(list@[0].zone_ref@) {
                            list@.len() == 1
                        } else {
                            list@.len() == 2 && list@[1].zone_ref@ == lz
                        },
                        None => list@.len() == 1,
                    }
                }
            }),
            r matches Err(DateParseError::MissingLocation(tok)) ==> resolve_spec(
                gaz@,
                effective_token(gaz@, tok@),
            ) is None,
            r matches Err(e) ==> (e is MissingLocation || e is OutOfRange),
            r matches Err(DateParseError::MissingLocation(tok)) ==> ({
                let locs = self.locations@;
                let src = if locs.len() == 0 {
                    "local"@
                } else {
                    locs[0]@
                };
                match resolve_spec(gaz@, effective_token(gaz@, src)) {
                    None => tok@ == src,
                    Some(_) => exists|i: int|
                        {
                            &&& 1 <= i < locs.len()
                            &&& tok@ == locs[i]@
                            &&& (#[trigger] resolve_spec(gaz@, effective_token(gaz@, locs[i]@)))
                                is None
                            &&& forall|j: int|
                                1 <= j < i ==> (#[trigger] resolve_spec(
                                    gaz@,
                                    effective_token(gaz@, locs[j]@),
                                )) is Some
                        },
                }
            }),
            ({
                let locs = self.locations@;
                let src = if locs.len() == 0 {
                    "local"@
                } else {
                    locs[0]@
                };
                match resolve_spec(gaz@, effective_token(gaz@, src)) {
                    None => (r matches Err(DateParseError::MissingLocation(tok)) && tok@ == src),
                    Some(z0) => is_iana_zone(zref_tz(z0)) ==> {
                        &&& (r matches Err(DateParseError::OutOfRange(f)) ==> eval_err_rel(
                            self.time_spec,
                            self.date_spec,
                            zref_tz(z0),
                            now as int,
                            f,
                        ))
                        &&& ((exists|out: int|
                            #[trigger] eval_rel(
                                self.time_spec,
                                self.date_spec,
                                zref_tz(z0),
                                now as int,
                                out,
                            )) && (forall|j: int|
                            1 <= j < locs.len() ==> (#[trigger] resolve_spec(
                                gaz@,
                                effective_token(gaz@, locs[j]@),
                            )) is Some) ==> r is Ok)
                    },
                }
            }),
    {
        let ghost locs = self.locations@;
        let ghost src = if locs.len() == 0 {
            "local"@
        } else {
            locs[0]@
        };
        let from_zone = match self.location() {
            Some(s) => {
                let s_str = s.as_str();
                match find_zone(gaz, s_str) {
                    Some(z) => z,
                    None => {
                        return Err(DateParseError::MissingLocation(s.clone()));
                    },
                }
            },
            None => match find_zone(gaz, "local") {
                Some(z) => z,
                None => {
                    let l = chars_of("local");
                    return Err(DateParseError::MissingLocation(string_of(&l)));
                },
            },
        };
        let base = TimeAtLocation { epoch: now, zone_ref: from_zone };
        let from = match self.apply(&base) {
            Ok(f) => f,
            Err(e) => {
                proof {
                    match resolve_spec(gaz@, effective_token(gaz@, src)) {
                        Some(z0) => {
                            assert(base.zone_ref@ == z0);
                            assert(base.zone_ref.tz_spec() == zref_tz(z0));
                            if is_iana_zone(zref_tz(z0)) {
                                match e {
                                    DateParseError::OutOfRange(f) => {
                                        assert(eval_err_rel(
                                            self.time_spec,
                                            self.date_spec,
                                            zref_tz(z0),
                                            now as int,
                                            f,
                                        ));
                                        if exists|out: int|
                                            #[trigger] eval_rel(
                                                self.time_spec,
                                                self.date_spec,
                                                zref_tz(z0),
                                                now as int,
                                                out,
                                            ) {
                                            let out = choose|out: int|
                                                #[trigger] eval_rel(
                                                    self.time_spec,
                                                    self.date_spec,
                                                    zref_tz(z0),
                                                    now as int,
                                                    out,
                                                );
                                            lemma_eval_exclusive(
                                                self.time_spec,
                                                self.date_spec,
                                                zref_tz(z0),
                                                now as int,
                                                out,
                                                f,
                                            );
                                        }
                                    },
                                    _ => {},
                                }
                            }
                        },
                        None => {},
                    }
                }
                return Err(e);
            },
        };
        let epoch0 = from.epoch;
        proof {
            match resolve_spec(gaz@, effective_token(gaz@, src)) {
                Some(z0) => {
                    assert(base.zone_ref@ == z0);
                    assert(base.zone_ref.tz_spec() == zref_tz(z0));
                },
                None => {},
            }
        }
        let mut rv: Vec<TimeAtLocation> = Vec::new();
        rv.push(from);
        let targets = self.to_locations();
        let mut i: usize = 0;
        while i < targets.len()
            invariant
                locs == self.locations@,
                src == if locs.len() == 0 {
                    "local"@
                } else {
                    locs[0]@
                },
                i <= targets@.len(),
                rv@.len() == i + 1,
                targets@.len() == if locs.len() > 0 {
                    locs.len() - 1
                } else {
                    0
                },
                forall|j: int| 0 <= j < targets@.len() ==> (#[trigger] targets@[j])@ == locs[j + 1]@,
                forall|j: int|
                    0 <= j < rv@.len() ==> (#[trigger] rv@[j]).epoch == epoch0 && rv@[j].wf(),
                match resolve_spec(gaz@, effective_token(gaz@, src)) {
                    Some(z0) => rv@[0].zone_ref@ == z0 && (is_iana_zone(zref_tz(z0))
                        ==> eval_rel(
                        self.time_spec,
                        self.date_spec,
                        zref_tz(z0),
                        now as int,
                        epoch0 as int,
                    )),
                    None => false,
                },
                forall|j: int|
                    1 <= j < rv@.len() ==> ((#[trigger] resolve_spec(
                        gaz@,
                        effective_token(gaz@, locs[j]@),
                    )) matches Some(z) && rv@[j].zone_ref@ == z),
            decreases targets.len() - i,
        {
            let tok = &targets[i];
            match find_zone(gaz, tok.as_str()) {
                Some(z) => {
                    let ghost old_rv = rv@;
                    rv.push(TimeAtLocation { epoch: epoch0, zone_ref: z });
                    assert(forall|j: int| 0 <= j < old_rv.len() ==> rv@[j] == old_rv[j]);
                },
                None => {
                    proof {
                        let ghost i_w: int = i as int + 1;
                        assert(tok@ == locs[i_w]@);
                        assert(resolve_spec(gaz@, effective_token(gaz@, locs[i_w]@)) is None);
                        assert forall|j: int| 1 <= j < i_w implies (#[trigger] resolve_spec(
                            gaz@,
                            effective_token(gaz@, locs[j]@),
                        )) is Some by {
                            assert(j < rv@.len());
                        }
                    }
                    return Err(DateParseError::MissingLocation(tok.clone()));
                },
            }
            i = i + 1;
        }
        if rv.len() == 1 {
            if let Some(lz) = find_zone(gaz, "local") {
                let same = str_eq(lz.tz(), rv[0].zone_ref.tz());
                proof {
                    assert(lz.tz_spec() == zref_tz(lz@));
                    assert(rv@[0].zone_ref.tz_spec() == zref_tz(rv@[0].zone_ref@));
                }
                if !same {
                    let ghost old_rv = rv@;
                    rv.push(TimeAtLocation { epoch: epoch0, zone_ref: lz });
                    assert(forall|j: int| 0 <= j < old_rv.len() ==> rv@[j] == old_rv[j]);
                }
            }
        }
        proof {
            if locs.len() > 1 {
                assert(rv@.len() == locs.len());
            }
            match resolve_spec(gaz@, effective_token(gaz@, src)) {
                Some(z0) => {
                    assert(rv@[0].zone_ref@ == z0);
                    assert(rv@[0].epoch == epoch0);
                },
                None => {},
            }
        }
        Ok(rv)
    }

    /// Resolves the expression into all referenced locations, against the
    /// host clock. Whatever the clock read, every returned entry carries
    /// the same instant; a reading outside the supported years is an
    /// out-of-range error.
    pub fn process(&self, gaz: &Gazetteer) -> (r: Result<Vec<TimeAtLocation>, DateParseError>)
        requires
            self.wf(),
        ensures
            r matches Ok(list) ==> list@.len() >= 1 && forall|i: int|
                0 <= i < list@.len() ==> (#[trigger] list@[i]).epoch == list@[0].epoch
                    && list@[i].wf(),
            r matches Err(e) ==> (e is MissingLocation || e is OutOfRange),
            r matches Err(DateParseError::MissingLocation(tok)) ==> ({
                let locs = self.locations@;
                let src = if locs.len() == 0 {
                    "local"@
                } else {
                    locs[0]@
                };
                match resolve_spec(gaz@, effective_token(gaz@, src)) {
                    None => tok@ == src,
                    Some(_) => exists|i: int|
                        {
                            &&& 1 <= i < locs.len()
                            &&& tok@ == locs[i]@
                            &&& (#[trigger] resolve_spec(gaz@, effective_token(gaz@, locs[i]@)))
                                is None
                            &&& forall|j: int|
                                1 <= j < i ==> (#[trigger] resolve_spec(
                                    gaz@,
                                    effective_token(gaz@, locs[j]@),
                                )) is Some
                        },
                }
            }),
            ({
                let locs = self.locations@;
                let src = if locs.len() == 0 {
                    "local"@
                } else {
                    locs[0]@
                };
                resolve_spec(gaz@, effective_token(gaz@, src)) is None ==> r is Err
            }),
    {
        let now = now_epoch();
        if now < MIN_EPOCH || now > MAX_EPOCH {
            return Err(DateParseError::OutOfRange(Field::UnixTimestamp));
        }
        self.process_at(gaz, now)
    }
}

} // verus!
