//! Human-readable time-of-day descriptions.
use vstd::prelude::*;

use crate::calendar::CivilDateTime;
use crate::calendar::civil_valid;

verus! {

/// Human-readable time-of-day description.
#[derive(Clone, Copy, Debug, PartialEq, Eq, Structural)]
pub enum TimeOfDay {
    EarlyMorning,
    Morning,
    LateMorning,
    Noon,
    Afternoon,
    EarlyEvening,
    Evening,
    LateEvening,
    Night,
}

/// The description each hour falls under.
pub open spec fn time_of_day_spec(hour: int) -> TimeOfDay {
    if hour == 5 {
        TimeOfDay::EarlyMorning
    } else if 6 <= hour <= 8 {
        TimeOfDay::Morning
    } else if 9 <= hour <= 11 {
        TimeOfDay::LateMorning
    } else if hour == 12 {
        TimeOfDay::Noon
    } else if 13 <= hour <= 16 {
        TimeOfDay::Afternoon
    } else if 17 <= hour <= 18 {
        TimeOfDay::EarlyEvening
    } else if 19 <= hour <= 20 {
        TimeOfDay::Evening
    } else if 21 <= hour <= 22 {
        TimeOfDay::LateEvening
    } else {
        TimeOfDay::Night
    }
}

impl TimeOfDay {
    /// The description as display text.
    pub fn text(&self) -> (r: &'static str)
        ensures
            r@ == match self {
                TimeOfDay::EarlyMorning => "early morning"@,
                TimeOfDay::Morning => "morning"@,
                TimeOfDay::LateMorning => "late morning"@,
                TimeOfDay::Noon => "noon"@,
                TimeOfDay::Afternoon => "afternoon"@,
                TimeOfDay::EarlyEvening => "early evening"@,
                TimeOfDay::Evening => "evening"@,
                TimeOfDay::LateEvening => "late evening"@,
                TimeOfDay::Night => "night"@,
            },
    {
        match self {
            TimeOfDay::EarlyMorning => "early morning",
            TimeOfDay::Morning => "morning",
            TimeOfDay::LateMorning => "late morning",
            TimeOfDay::Noon => "noon",
            TimeOfDay::Afternoon => "afternoon",
            TimeOfDay::EarlyEvening => "early evening",
            TimeOfDay::Evening => "evening",
            TimeOfDay::LateEvening => "late evening",
            TimeOfDay::Night => "night",
        }
    }
}

/// Given a wall-clock reading, returns its human-readable time-of-day
/// description.
pub fn get_time_of_day(c: &CivilDateTime) -> (r: TimeOfDay)
    requires
        civil_valid(*c),
    ensures
        r == time_of_day_spec(c.hour as int),
{
    if c.hour == 5 {
        TimeOfDay::EarlyMorning
    } else if 6 <= c.hour && c.hour <= 8 {
        TimeOfDay::Morning
    } else if 9 <= c.hour && c.hour <= 11 {
        TimeOfDay::LateMorning
    } else if c.hour == 12 {
        TimeOfDay::Noon
    } else if 13 <= c.hour && c.hour <= 16 {
        TimeOfDay::Afternoon
    } else if 17 <= c.hour && c.hour <= 18 {
        TimeOfDay::EarlyEvening
    } else if 19 <= c.hour && c.hour <= 20 {
        TimeOfDay::Evening
    } else if 21 <= c.hour && c.hour <= 22 {
        TimeOfDay::LateEvening
    } else {
        TimeOfDay::Night
    }
}

} // verus!
