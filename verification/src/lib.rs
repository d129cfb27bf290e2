//! Parsing and evaluation of short human-typed time expressions such as
//! `2pm in vie -> yyz`, together with a gazetteer-backed resolver that maps
//! location tokens to time zones and a verified calendar core that applies
//! the parsed overrides to a reference instant.
mod calendar;
mod location;
mod parser;
mod process;
mod text;
mod tz;
mod utils;

pub use calendar::CivilDateTime;
pub use calendar::MAX_EPOCH;
pub use calendar::MIN_EPOCH;
pub use calendar::civil_from_epoch;
pub use calendar::days_in_month;
pub use calendar::epoch_from_civil;
pub use calendar::is_leap_year;
pub use location::Gazetteer;
pub use location::Location;
pub use location::LocationKind;
pub use location::ZoneRef;
pub use location::find_zone;
pub use parser::DateParseError;
pub use parser::DateSpec;
pub use parser::Field;
pub use parser::InputExpr;
pub use parser::TimeSpec;
pub use parser::TokenKind;
pub use parser::parse_input;
pub use process::TimeAtLocation;
pub use text::chars_of;
pub use text::string_of;
pub use tz::civil_in_zone;
pub use tz::now_epoch;
pub use utils::TimeOfDay;
pub use utils::get_time_of_day;
