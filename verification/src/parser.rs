//! The expression grammar and its parser.
//!
//! An expression is an optional time or date part followed by an optional
//! location clause:
//!
//! ```text
//! spec      := ( unix | signed-rel | components )? ( "in" ws+ locations )?
//! unix      := digits{1..18}                      (standalone number)
//! signed-rel:= ("+" | "-") ( digits unit )+        unit := "h" | "m" | "s"
//! components:= one time and/or one date, in either order, ws-separated
//! time      := "noon" | "midnight" | "now"
//!            | digits ":" digits (":" digits)? (ws* meridiem)?
//!            | digits ws* meridiem               meridiem := "am" | "pm"
//! date      := "today" | "tomorrow" | "yesterday"
//!            | "in" ws+ ("-"|"+")? digits ws+ "day" "s"?
//!            | month ws+ day-token (ws+ year)?    (textual month first)
//!            | day-token ws+ month (ws+ year)?    (day first)
//!            | digits sep digits (sep digits{4})? sep := "/" | "." | "-"
//! locations := text split at "->", tokens trimmed, empties dropped
//! ```
//!
//! Keywords and month names are ASCII-case-insensitive; a day token is one
//! or two digits with an optional ordinal suffix (`st`, `nd`, `rd`, `th`);
//! numeric fields admit at most nine digits, a unix literal eighteen.
//! Parsing the whole input distinguishes a grammar failure (nothing
//! understood at some position) from trailing garbage (a valid prefix with
//! unparsed text after it).
use vstd::prelude::*;

use crate::calendar::CivilDateTime;
use crate::calendar::MAX_EPOCH;
use crate::calendar::civil_from_epoch;
use crate::calendar::civil_valid;
use crate::calendar::epoch_of_civil;
use crate::text::chars_of;
use crate::text::eq_ci;
use crate::text::eq_ci_range;
use crate::text::lower_cp;
use crate::text::string_of;
use crate::text::string_of_range;
use crate::location::is_ws;
use crate::location::str_views;
use crate::location::trim_end_spec;
use crate::location::trim_start_spec;

verus! {

/// A time-of-day override: absolute wall-clock fields, or a signed offset.
#[derive(Clone, Copy, Debug, PartialEq, Eq)]
pub enum TimeSpec {
    Abs { hour: i32, minute: i32, second: i32 },
    Rel { hours: i32, minutes: i32, seconds: i32 },
}

/// A date override: absolute fields (month and year optional), or a signed
/// day offset.
#[derive(Clone, Copy, Debug, PartialEq, Eq)]
pub enum DateSpec {
    Abs { day: i32, month: Option<i32>, year: Option<i32> },
    Rel { days: i32 },
}

/// The calendar field an out-of-range error names.
#[derive(Clone, Copy, Debug, PartialEq, Eq, Structural)]
pub enum Field {
    Day,
    Month,
    Year,
    Time,
    UnixTimestamp,
}

impl Field {
    /// The field's name as it appears in messages.
    pub fn as_text(&self) -> (r: &'static str)
        ensures
            r@ == match self {
                Field::Day => "day"@,
                Field::Month => "month"@,
                Field::Year => "year"@,
                Field::Time => "time"@,
                Field::UnixTimestamp => "unix timestamp"@,
            },
    {
        match self {
            Field::Day => "day",
            Field::Month => "month",
            Field::Year => "year",
            Field::Time => "time",
            Field::UnixTimestamp => "unix timestamp",
        }
    }
}

/// The token categories a failed parse can have expected.
#[derive(Clone, Copy, Debug, PartialEq, Eq)]
pub enum TokenKind {
    Number,
    TimeWord,
    DateWord,
    MonthName,
    Meridiem,
    UnitSuffix,
    DaysWord,
    InWord,
    LocationText,
}

/// Represents a parsing error.
#[derive(Debug)]
pub enum DateParseError {
    /// No form of the grammar was recognized; carries the token categories
    /// that would have been accepted, and where.
    Parser { expected: Vec<TokenKind>, position: usize },
    /// A valid prefix was recognized; carries the unparsed suffix.
    Garbage(String),
    /// A calendar field or timestamp fell outside its valid range.
    OutOfRange(Field),
    /// A location token resolved to no zone; carries the token.
    MissingLocation(String),
}

/// The bound on parsed numeric fields: at most nine digits.
pub open spec fn rel_bound() -> int {
    1000000000
}

impl TimeSpec {
    /// The field ranges the grammar guarantees.
    pub open spec fn wf(&self) -> bool {
        match *self {
            TimeSpec::Abs { hour, minute, second } => 0 <= hour <= 23 && 0 <= minute <= 59 && 0
                <= second <= 59,
            TimeSpec::Rel { hours, minutes, seconds } => {
                &&& -rel_bound() < hours < rel_bound()
                &&& -rel_bound() < minutes < rel_bound()
                &&& -rel_bound() < seconds < rel_bound()
                &&& ((hours >= 0 && minutes >= 0 && seconds >= 0) || (hours <= 0 && minutes <= 0
                    && seconds <= 0))
            },
        }
    }
}

impl DateSpec {
    /// The field ranges the grammar guarantees; real calendar validation
    /// happens at evaluation time.
    pub open spec fn wf(&self) -> bool {
        match *self {
            DateSpec::Abs { day, month, year } => {
                &&& 0 <= day <= 99
                &&& match month {
                    Some(m) => 0 <= m <= 99,
                    None => true,
                }
                &&& match year {
                    Some(y) => 0 <= y <= 9999,
                    None => true,
                }
            },
            DateSpec::Rel { days } => -rel_bound() < days < rel_bound(),
        }
    }
}

/// A location token as the parser hands it out: nonempty, trimmed, and
/// free of the chain separator.
pub open spec fn loc_token_wf(t: Seq<char>) -> bool {
    &&& t.len() > 0
    &&& !is_ws(t[0])
    &&& !is_ws(t[t.len() - 1])
    &&& forall|i: int| 0 <= i < t.len() - 1 ==> !(t[i] == '-' && #[trigger] t[i + 1] == '>')
}

/// Represents a parsed human-readable date expression.
#[derive(Debug)]
pub struct InputExpr {
    pub time_spec: Option<TimeSpec>,
    pub date_spec: Option<DateSpec>,
    pub locations: Vec<String>,
}

impl InputExpr {
    /// What every successfully parsed expression satisfies.
    pub open spec fn wf(&self) -> bool {
        &&& match self.time_spec {
            Some(t) => t.wf(),
            None => true,
        }
        &&& match self.date_spec {
            Some(d) => d.wf(),
            None => true,
        }
        &&& forall|i: int| 0 <= i < self.locations@.len() ==> loc_token_wf(
            #[trigger] self.locations@[i]@,
        )
    }
}

/// A decimal digit.
pub open spec fn is_digit(c: char) -> bool {
    48 <= c as int <= 57
}

/// The value of a decimal digit.
pub open spec fn digit_val(c: char) -> int {
    c as int - 48
}

/// The value of a run of decimal digits.
pub open spec fn digits_val(s: Seq<char>) -> int
    decreases s.len(),
{
    if s.len() == 0 {
        0
    } else {
        digits_val(s.drop_last()) * 10 + digit_val(s.last())
    }
}

/// Ten to the `n`.
pub open spec fn pow10(n: nat) -> int
    decreases n,
{
    if n == 0 {
        1
    } else {
        10 * pow10((n - 1) as nat)
    }
}

proof fn lemma_pow10_18()
    ensures
        pow10(18) == 1000000000000000000,
        pow10(9) == 1000000000,
        pow10(4) == 10000,
        pow10(2) == 100,
{
    assert(pow10(0) == 1);
    assert(pow10(1) == 10);
    assert(pow10(2) == 100);
    assert(pow10(3) == 1000);
    assert(pow10(4) == 10000);
    assert(pow10(5) == 100000);
    assert(pow10(6) == 1000000);
    assert(pow10(7) == 10000000);
    assert(pow10(8) == 100000000);
    assert(pow10(9) == 1000000000);
    assert(pow10(10) == 10000000000);
    assert(pow10(11) == 100000000000);
    assert(pow10(12) == 1000000000000);
    assert(pow10(13) == 10000000000000);
    assert(pow10(14) == 100000000000000);
    assert(pow10(15) == 1000000000000000);
    assert(pow10(16) == 10000000000000000);
    assert(pow10(17) == 100000000000000000);
    assert(pow10(18) == 1000000000000000000);
}

/// First position at or after `pos` that is not whitespace.
fn skip_ws(v: &Vec<char>, pos: usize) -> (r: usize)
    requires
        pos <= v.len(),
    ensures
        pos <= r <= v.len(),
        forall|j: int| pos <= j < r ==> is_ws(#[trigger] v@[j]),
        r < v.len() ==> !is_ws(v@[r as int]),
{
    let mut r = pos;
    while r < v.len() && (v[r] == ' ' || v[r] == '\t')
        invariant
            pos <= r <= v.len(),
            forall|j: int| pos <= j < r ==> is_ws(#[trigger] v@[j]),
        decreases v.len() - r,
    {
        r = r + 1;
    }
    r
}

/// End of the digit run starting at `pos`.
fn scan_digits(v: &Vec<char>, pos: usize) -> (r: usize)
    requires
        pos <= v.len(),
    ensures
        pos <= r <= v.len(),
        forall|j: int| pos <= j < r ==> is_digit(#[trigger] v@[j]),
        r < v.len() ==> !is_digit(v@[r as int]),
{
    let mut r = pos;
    while r < v.len() && '0' <= v[r] && v[r] <= '9'
        invariant
            pos <= r <= v.len(),
            forall|j: int| pos <= j < r ==> is_digit(#[trigger] v@[j]),
        decreases v.len() - r,
    {
        r = r + 1;
    }
    r
}

/// The value of the digit run `v[lo..hi]`.
fn digits_value(v: &Vec<char>, lo: usize, hi: usize) -> (r: i64)
    requires
        lo <= hi <= v.len(),
        hi - lo <= 18,
        forall|j: int| lo <= j < hi ==> is_digit(#[trigger] v@[j]),
    ensures
        r == digits_val(v@.subrange(lo as int, hi as int)),
        0 <= r < pow10((hi - lo) as nat),
{
    proof {
        lemma_pow10_18();
    }
    let mut r: i64 = 0;
    let mut i: usize = lo;
    while i < hi
        invariant
            lo <= i <= hi <= v.len(),
            hi - lo <= 18,
            forall|j: int| lo <= j < hi ==> is_digit(#[trigger] v@[j]),
            r == digits_val(v@.subrange(lo as int, i as int)),
            0 <= r < pow10((i - lo) as nat),
            pow10(18) == 1000000000000000000,
        decreases hi - i,
    {
        proof {
            let s = v@.subrange(lo as int, i as int + 1);
            assert(s.drop_last() =~= v@.subrange(lo as int, i as int));
            assert(s.last() == v@[i as int]);
            assert(pow10(((i + 1) - lo) as nat) == 10 * pow10((i - lo) as nat));
            assert(pow10((i - lo) as nat) <= pow10(17)) by {
                lemma_pow10_mono((i - lo) as nat, 17);
            }
        }
        let c = v[i];
        r = r * 10 + (c as i64 - 48);
        i = i + 1;
    }
    r
}

/// `pow10` is monotone.
proof fn lemma_pow10_mono(a: nat, b: nat)
    requires
        a <= b,
    ensures
        pow10(a) <= pow10(b),
        1 <= pow10(a),
    decreases b,
{
    if a < b {
        lemma_pow10_mono(a, (b - 1) as nat);
    } else if b > 0 {
        lemma_pow10_mono((a - 1) as nat, (b - 1) as nat);
    }
}

/// If the characters of `s` stand at `pos` (ignoring case), the position
/// just after them.
fn keyword_at(v: &Vec<char>, pos: usize, s: &str) -> (r: Option<usize>)
    requires
        pos <= v.len(),
    ensures
        match r {
            Some(e) => pos <= e <= v.len() && e - pos == s@.len() && eq_ci(
                v@.subrange(pos as int, e as int),
                s@,
            ),
            None => !(pos + s@.len() <= v.len() && eq_ci(
                v@.subrange(pos as int, pos + s@.len() as int),
                s@,
            )),
        },
        s@.len() > 0 && r is Some ==> (r matches Some(e) && e > pos),
{
    let n = s.unicode_len();
    if n <= v.len() && pos <= v.len() - n {
        if eq_ci_range(v, pos, pos + n, s) {
            return Some(pos + n);
        }
    }
    None
}

/// The whole remaining input from `pos` is the keyword `s`, up to case.
pub open spec fn only_kw(v: Seq<char>, pos: int, s: Seq<char>) -> bool {
    pos + s.len() == v.len() && eq_ci(v.subrange(pos, v.len() as int), s)
}

/// A case-insensitive match pins the folded first character.
proof fn lemma_match_head(v: Seq<char>, pos: int, e: int, s: Seq<char>)
    requires
        0 <= pos <= e <= v.len(),
        e - pos == s.len(),
        s.len() > 0,
        eq_ci(v.subrange(pos, e), s),
    ensures
        lower_cp(v[pos]) == lower_cp(s[0]),
{
    assert(v.subrange(pos, e)[0] == v[pos]);
}

/// A token whose folded first character is neither `t` nor `y` is none of
/// the relative date words.
proof fn lemma_not_relword(v: Seq<char>, pos: int, head: int)
    requires
        0 <= pos < v.len(),
        lower_cp(v[pos]) == head,
        head != 116,
        head != 121,
    ensures
        !only_kw(v, pos, "today"@),
        !only_kw(v, pos, "tomorrow"@),
        !only_kw(v, pos, "yesterday"@),
{
    reveal_strlit("today");
    reveal_strlit("tomorrow");
    reveal_strlit("yesterday");
    if only_kw(v, pos, "today"@) {
        lemma_match_head(v, pos, v.len() as int, "today"@);
    }
    if only_kw(v, pos, "tomorrow"@) {
        lemma_match_head(v, pos, v.len() as int, "tomorrow"@);
    }
    if only_kw(v, pos, "yesterday"@) {
        lemma_match_head(v, pos, v.len() as int, "yesterday"@);
    }
}

/// A bare 12-hour reading stands at `pos`: one or two digits followed
/// directly by an `am`/`pm` marker, ending at a blank or at the end of
/// the input.
pub open spec fn hour_meridiem_prefix(v: Seq<char>, pos: int, k: int, is_pm: bool) -> bool {
    &&& 1 <= k <= 2
    &&& 0 <= pos
    &&& pos + k + 2 <= v.len()
    &&& forall|j: int| pos <= j < pos + k ==> is_digit(#[trigger] v[j])
    &&& eq_ci(
        v.subrange(pos + k, pos + k + 2),
        if is_pm {
            "pm"@
        } else {
            "am"@
        },
    )
    &&& (pos + k + 2 == v.len() || is_ws(v[pos + k + 2]))
}

/// The whole remaining input from `pos` is a bare 12-hour reading.
pub open spec fn hour_meridiem_form(v: Seq<char>, pos: int, k: int, is_pm: bool) -> bool {
    &&& pos + k + 2 == v.len()
    &&& hour_meridiem_prefix(v, pos, k, is_pm)
}

/// In a 12-hour reading, the maximal digit run is exactly the hour digits.
proof fn lemma_form_run(v: Seq<char>, pos: int, k: int, is_pm: bool, d1: int)
    requires
        hour_meridiem_prefix(v, pos, k, is_pm),
        pos <= d1 <= v.len(),
        forall|j: int| pos <= j < d1 ==> is_digit(#[trigger] v[j]),
        d1 < v.len() ==> !is_digit(v[d1]),
    ensures
        d1 == pos + k,
        lower_cp(v[pos + k]) == if is_pm {
            112int
        } else {
            97int
        },
{
    reveal_strlit("pm");
    reveal_strlit("am");
    if is_pm {
        lemma_match_head(v, pos + k, pos + k + 2, "pm"@);
    } else {
        lemma_match_head(v, pos + k, pos + k + 2, "am"@);
    }
    if d1 > pos + k {
        assert(is_digit(v[pos + k]));
    }
    if d1 < pos + k {
        assert(is_digit(v[d1]));
    }
}

/// The whole remaining input is a bare digit run: a unix epoch-seconds
/// literal.
pub open spec fn unix_form(v: Seq<char>) -> bool {
    1 <= v.len() <= 18 && forall|j: int| 0 <= j < v.len() ==> is_digit(#[trigger] v[j])
}

/// The hour a 12-hour reading denotes: noon stays 12, midnight becomes 0,
/// other `pm` hours gain 12 and other `am` hours stay.
pub open spec fn meridiem_hour(h: int, is_pm: bool) -> int {
    if is_pm {
        if h == 12 {
            12
        } else {
            h + 12
        }
    } else {
        if h == 12 {
            0
        } else {
            h
        }
    }
}

/// Executable form of `meridiem_hour`.
fn meridiem_hour_of(h: i32, is_pm: bool) -> (r: i32)
    requires
        1 <= h <= 12,
    ensures
        r == meridiem_hour(h as int, is_pm),
        0 <= r <= 23,
{
    if is_pm {
        if h == 12 {
            12
        } else {
            h + 12
        }
    } else {
        if h == 12 {
            0
        } else {
            h
        }
    }
}

/// An `am` or `pm` marker at `pos`; the flag is true for `pm`.
fn try_meridiem(v: &Vec<char>, pos: usize) -> (r: Option<(usize, bool)>)
    requires
        pos <= v.len(),
    ensures
        r matches Some((e, _)) ==> pos < e <= v.len() && e == pos + 2,
        pos + 2 <= v.len() && eq_ci(v@.subrange(pos as int, pos + 2), "pm"@) ==> (r matches Some(
            (e, f),
        ) && f),
        pos + 2 <= v.len() && eq_ci(v@.subrange(pos as int, pos + 2), "am"@) ==> (r matches Some(
            (e, f),
        ) && !f),
{
    proof {
        reveal_strlit("pm");
        reveal_strlit("am");
    }
    if let Some(e) = keyword_at(v, pos, "pm") {
        proof {
            if pos + 2 <= v@.len() && eq_ci(v@.subrange(pos as int, pos + 2), "am"@) {
                assert(v@.subrange(pos as int, e as int)[0] == v@[pos as int]);
                assert(lower_cp(v@[pos as int]) == lower_cp("pm"@[0]));
                assert(lower_cp(v@[pos as int]) == lower_cp("am"@[0]));
            }
        }
        return Some((e, true));
    }
    if let Some(e) = keyword_at(v, pos, "am") {
        return Some((e, false));
    }
    None
}

/// A time component at `pos`: a named special or a clock reading. The
/// inner `None` is the literal `now`, which produces no override.
#[verifier::rlimit(60)]
fn try_time(v: &Vec<char>, pos: usize) -> (r: Option<(usize, Option<TimeSpec>)>)
    requires
        pos <= v.len(),
    ensures
        r matches Some((e, ts)) ==> pos < e <= v.len() && match ts {
            Some(t) => t.wf() && t is Abs,
            None => true,
        },
        only_kw(v@, pos as int, "now"@) ==> (r matches Some((e, ts)) && e == v@.len() && ts
            is None),
        only_kw(v@, pos as int, "noon"@) ==> (r matches Some((e, ts)) && e == v@.len() && ts
            == Some(TimeSpec::Abs { hour: 12, minute: 0, second: 0 })),
        only_kw(v@, pos as int, "midnight"@) ==> (r matches Some((e, ts)) && e == v@.len() && ts
            == Some(TimeSpec::Abs { hour: 0, minute: 0, second: 0 })),
        only_kw(v@, pos as int, "today"@) || only_kw(v@, pos as int, "tomorrow"@) || only_kw(
            v@,
            pos as int,
            "yesterday"@,
        ) ==> r is None,
        forall|k: int, ipm: bool| #[trigger] hour_meridiem_prefix(v@, pos as int, k, ipm) ==> ({
            let h = digits_val(v@.subrange(pos as int, pos + k));
            if 1 <= h <= 12 {
                r matches Some((e, ts)) && e == pos + k + 2 && ts == Some(
                    TimeSpec::Abs { hour: meridiem_hour(h, ipm) as i32, minute: 0, second: 0 },
                )
            } else {
                r is None
            }
        }),
        pos < v.len() && lower_cp(v@[pos as int]) == 105 ==> r is None,
{
    proof {
        reveal_strlit("midnight");
        reveal_strlit("noon");
        reveal_strlit("now");
    }
    if let Some(e) = keyword_at(v, pos, "midnight") {
        proof {
            lemma_match_head(v@, pos as int, e as int, "midnight"@);
            lemma_not_relword(v@, pos as int, lower_cp(v@[pos as int]));
            assert forall|k: int, ipm: bool| !(#[trigger] hour_meridiem_prefix(
                v@,
                pos as int,
                k,
                ipm,
            )) by {
                if hour_meridiem_prefix(v@, pos as int, k, ipm) {
                    assert(is_digit(v@[pos as int]));
                }
            }
        }
        return Some((e, Some(TimeSpec::Abs { hour: 0, minute: 0, second: 0 })));
    }
    if let Some(e) = keyword_at(v, pos, "noon") {
        proof {
            lemma_match_head(v@, pos as int, e as int, "noon"@);
            lemma_not_relword(v@, pos as int, lower_cp(v@[pos as int]));
            if only_kw(v@, pos as int, "midnight"@) {
                lemma_match_head(v@, pos as int, v@.len() as int, "midnight"@);
            }
            assert forall|k: int, ipm: bool| !(#[trigger] hour_meridiem_prefix(
                v@,
                pos as int,
                k,
                ipm,
            )) by {
                if hour_meridiem_prefix(v@, pos as int, k, ipm) {
                    assert(is_digit(v@[pos as int]));
                }
            }
        }
        return Some((e, Some(TimeSpec::Abs { hour: 12, minute: 0, second: 0 })));
    }
    if let Some(e) = keyword_at(v, pos, "now") {
        proof {
            lemma_match_head(v@, pos as int, e as int, "now"@);
            lemma_not_relword(v@, pos as int, lower_cp(v@[pos as int]));
            if only_kw(v@, pos as int, "midnight"@) {
                lemma_match_head(v@, pos as int, v@.len() as int, "midnight"@);
            }
            if only_kw(v@, pos as int, "noon"@) {
                assert(v@.subrange(pos as int, e as int)[2] == v@[pos as int + 2]);
                assert(v@.subrange(pos as int, v@.len() as int)[2] == v@[pos as int + 2]);
                assert(lower_cp(v@[pos as int + 2]) == lower_cp("now"@[2]));
                assert(lower_cp(v@[pos as int + 2]) == lower_cp("noon"@[2]));
            }
            assert forall|k: int, ipm: bool| !(#[trigger] hour_meridiem_prefix(
                v@,
                pos as int,
                k,
                ipm,
            )) by {
                if hour_meridiem_prefix(v@, pos as int, k, ipm) {
                    assert(is_digit(v@[pos as int]));
                }
            }
        }
        return Some((e, None));
    }
    let d1 = scan_digits(v, pos);
    if d1 == pos || d1 - pos > 2 {
        proof {
            assert forall|k: int, ipm: bool| !(#[trigger] hour_meridiem_prefix(
                v@,
                pos as int,
                k,
                ipm,
            )) by {
                if hour_meridiem_prefix(v@, pos as int, k, ipm) {
                    lemma_form_run(v@, pos as int, k, ipm, d1 as int);
                }
            }
        }
        return None;
    }
    proof {
        lemma_pow10_18();
        lemma_pow10_mono((d1 - pos) as nat, 9);
        assert(is_digit(v@[pos as int]));
        lemma_not_relword(v@, pos as int, lower_cp(v@[pos as int]));
    }
    let hour = digits_value(v, pos, d1) as i32;
    if d1 < v.len() && v[d1] == ':' {
        proof {
            assert forall|k: int, ipm: bool| !(#[trigger] hour_meridiem_prefix(
                v@,
                pos as int,
                k,
                ipm,
            )) by {
                if hour_meridiem_prefix(v@, pos as int, k, ipm) {
                    lemma_form_run(v@, pos as int, k, ipm, d1 as int);
                }
            }
        }
        let m0 = d1 + 1;
        let m1 = scan_digits(v, m0);
        if m1 == m0 || m1 - m0 > 2 {
            return None;
        }
        proof {
            lemma_pow10_mono((m1 - m0) as nat, 9);
        }
        let minute = digits_value(v, m0, m1) as i32;
        let mut second: i32 = 0;
        let mut end = m1;
        if m1 < v.len() && v[m1] == ':' {
            let s0 = m1 + 1;
            let s1 = scan_digits(v, s0);
            if s1 == s0 || s1 - s0 > 2 {
                return None;
            }
            proof {
                lemma_pow10_mono((s1 - s0) as nat, 9);
            }
            second = digits_value(v, s0, s1) as i32;
            end = s1;
        }
        if minute > 59 || second > 59 {
            return None;
        }
        let p2 = skip_ws(v, end);
        if let Some((e2, is_pm)) = try_meridiem(v, p2) {
            if 1 <= hour && hour <= 12 {
                return Some(
                    (e2, Some(TimeSpec::Abs { hour: meridiem_hour_of(hour, is_pm), minute, second })),
                );
            }
            return None;
        }
        if hour <= 23 {
            return Some((end, Some(TimeSpec::Abs { hour, minute, second })));
        }
        return None;
    }
    let p2 = skip_ws(v, d1);
    let mer = try_meridiem(v, p2);
    match mer {
        Some((e2, is_pm)) => {
            if 1 <= hour && hour <= 12 {
                proof {
                    assert forall|k: int, ipm: bool| #[trigger] hour_meridiem_prefix(
                        v@,
                        pos as int,
                        k,
                        ipm,
                    ) implies d1 == pos + k && ipm == is_pm && p2 == d1 by {
                        lemma_form_run(v@, pos as int, k, ipm, d1 as int);
                        assert(p2 == d1);
                        if ipm {
                            assert(eq_ci(v@.subrange(p2 as int, p2 as int + 2), "pm"@));
                        } else {
                            assert(eq_ci(v@.subrange(p2 as int, p2 as int + 2), "am"@));
                        }
                    }
                }
                return Some(
                    (e2, Some(TimeSpec::Abs { hour: meridiem_hour_of(hour, is_pm), minute: 0, second: 0 })),
                );
            }
        },
        None => {},
    }
    proof {
        assert forall|k: int, ipm: bool| #[trigger] hour_meridiem_prefix(
            v@,
            pos as int,
            k,
            ipm,
        ) implies !(1 <= digits_val(v@.subrange(pos as int, pos + k)) <= 12) by {
            lemma_form_run(v@, pos as int, k, ipm, d1 as int);
            assert(p2 == d1);
            if ipm {
                assert(eq_ci(v@.subrange(p2 as int, p2 as int + 2), "pm"@));
            } else {
                assert(eq_ci(v@.subrange(p2 as int, p2 as int + 2), "am"@));
            }
        }
    }
    None
}

/// A month name at `pos`, full or three-letter.
fn try_month(v: &Vec<char>, pos: usize) -> (r: Option<(usize, i32)>)
    requires
        pos <= v.len(),
    ensures
        r matches Some((e, m)) ==> pos < e <= v.len() && 1 <= m <= 12,
        pos < v.len() && (is_digit(v@[pos as int]) || lower_cp(v@[pos as int]) == 105) ==> r
            is None,
{
    proof {
        reveal_strlit("january");
        reveal_strlit("february");
        reveal_strlit("march");
        reveal_strlit("april");
        reveal_strlit("may");
        reveal_strlit("june");
        reveal_strlit("july");
        reveal_strlit("august");
        reveal_strlit("september");
        reveal_strlit("october");
        reveal_strlit("november");
        reveal_strlit("december");
        reveal_strlit("jan");
        reveal_strlit("feb");
        reveal_strlit("mar");
        reveal_strlit("apr");
        reveal_strlit("jun");
        reveal_strlit("jul");
        reveal_strlit("aug");
        reveal_strlit("sep");
        reveal_strlit("oct");
        reveal_strlit("nov");
        reveal_strlit("dec");
    }
    if let Some(e) = keyword_at(v, pos, "january") {
        proof {
            lemma_match_head(v@, pos as int, e as int, "january"@);
        }
        return Some((e, 1));
    }
    if let Some(e) = keyword_at(v, pos, "february") {
        proof {
            lemma_match_head(v@, pos as int, e as int, "february"@);
        }
        return Some((e, 2));
    }
    if let Some(e) = keyword_at(v, pos, "march") {
        proof {
            lemma_match_head(v@, pos as int, e as int, "march"@);
        }
        return Some((e, 3));
    }
    if let Some(e) = keyword_at(v, pos, "april") {
        proof {
            lemma_match_head(v@, pos as int, e as int, "april"@);
        }
        return Some((e, 4));
    }
    if let Some(e) = keyword_at(v, pos, "june") {
        proof {
            lemma_match_head(v@, pos as int, e as int, "june"@);
        }
        return Some((e, 6));
    }
    if let Some(e) = keyword_at(v, pos, "july") {
        proof {
            lemma_match_head(v@, pos as int, e as int, "july"@);
        }
        return Some((e, 7));
    }
    if let Some(e) = keyword_at(v, pos, "august") {
        proof {
            lemma_match_head(v@, pos as int, e as int, "august"@);
        }
        return Some((e, 8));
    }
    if let Some(e) = keyword_at(v, pos, "september") {
        proof {
            lemma_match_head(v@, pos as int, e as int, "september"@);
        }
        return Some((e, 9));
    }
    if let Some(e) = keyword_at(v, pos, "october") {
        proof {
            lemma_match_head(v@, pos as int, e as int, "october"@);
        }
        return Some((e, 10));
    }
    if let Some(e) = keyword_at(v, pos, "november") {
        proof {
            lemma_match_head(v@, pos as int, e as int, "november"@);
        }
        return Some((e, 11));
    }
    if let Some(e) = keyword_at(v, pos, "december") {
        proof {
            lemma_match_head(v@, pos as int, e as int, "december"@);
        }
        return Some((e, 12));
    }
    if let Some(e) = keyword_at(v, pos, "jan") {
        proof {
            lemma_match_head(v@, pos as int, e as int, "jan"@);
        }
        return Some((e, 1));
    }
    if let Some(e) = keyword_at(v, pos, "feb") {
        proof {
            lemma_match_head(v@, pos as int, e as int, "feb"@);
        }
        return Some((e, 2));
    }
    if let Some(e) = keyword_at(v, pos, "mar") {
        proof {
            lemma_match_head(v@, pos as int, e as int, "mar"@);
        }
        return Some((e, 3));
    }
    if let Some(e) = keyword_at(v, pos, "apr") {
        proof {
            lemma_match_head(v@, pos as int, e as int, "apr"@);
        }
        return Some((e, 4));
    }
    if let Some(e) = keyword_at(v, pos, "may") {
        proof {
            lemma_match_head(v@, pos as int, e as int, "may"@);
        }
        return Some((e, 5));
    }
    if let Some(e) = keyword_at(v, pos, "jun") {
        proof {
            lemma_match_head(v@, pos as int, e as int, "jun"@);
        }
        return Some((e, 6));
    }
    if let Some(e) = keyword_at(v, pos, "jul") {
        proof {
            lemma_match_head(v@, pos as int, e as int, "jul"@);
        }
        return Some((e, 7));
    }
    if let Some(e) = keyword_at(v, pos, "aug") {
        proof {
            lemma_match_head(v@, pos as int, e as int, "aug"@);
        }
        return Some((e, 8));
    }
    if let Some(e) = keyword_at(v, pos, "sep") {
        proof {
            lemma_match_head(v@, pos as int, e as int, "sep"@);
        }
        return Some((e, 9));
    }
    if let Some(e) = keyword_at(v, pos, "oct") {
        proof {
            lemma_match_head(v@, pos as int, e as int, "oct"@);
        }
        return Some((e, 10));
    }
    if let Some(e) = keyword_at(v, pos, "nov") {
        proof {
            lemma_match_head(v@, pos as int, e as int, "nov"@);
        }
        return Some((e, 11));
    }
    if let Some(e) = keyword_at(v, pos, "dec") {
        proof {
            lemma_match_head(v@, pos as int, e as int, "dec"@);
        }
        return Some((e, 12));
    }
    None
}

/// A four-digit year at `pos`, if one stands there.
fn try_year(v: &Vec<char>, pos: usize) -> (r: Option<(usize, i32)>)
    requires
        pos <= v.len(),
    ensures
        r matches Some((e, y)) ==> pos < e <= v.len() && 0 <= y <= 9999,
{
    let d1 = scan_digits(v, pos);
    if d1 - pos == 4 {
        proof {
            lemma_pow10_18();
            lemma_pow10_mono(4, 9);
        }
        let y = digits_value(v, pos, d1) as i32;
        return Some((d1, y));
    }
    None
}

/// A day token at `pos`: one or two digits, optionally with an ordinal
/// suffix. The flag is true when a suffix was present.
fn try_day_token(v: &Vec<char>, pos: usize) -> (r: Option<(usize, i32, bool)>)
    requires
        pos <= v.len(),
    ensures
        r matches Some((e, d, _)) ==> pos < e <= v.len() && 0 <= d <= 99,
{
    let d1 = scan_digits(v, pos);
    if d1 == pos || d1 - pos > 2 {
        return None;
    }
    proof {
        lemma_pow10_18();
        lemma_pow10_mono((d1 - pos) as nat, 2);
        reveal_strlit("st");
        reveal_strlit("nd");
        reveal_strlit("rd");
        reveal_strlit("th");
    }
    let d = digits_value(v, pos, d1) as i32;
    if let Some(e) = keyword_at(v, d1, "st") {
        return Some((e, d, true));
    }
    if let Some(e) = keyword_at(v, d1, "nd") {
        return Some((e, d, true));
    }
    if let Some(e) = keyword_at(v, d1, "rd") {
        return Some((e, d, true));
    }
    if let Some(e) = keyword_at(v, d1, "th") {
        return Some((e, d, true));
    }
    Some((d1, d, false))
}

/// An optional trailing year after whitespace; returns the new position
/// and the year, or the old position and none.
fn opt_year_after(v: &Vec<char>, pos: usize) -> (r: (usize, Option<i32>))
    requires
        pos <= v.len(),
    ensures
        pos <= r.0 <= v.len(),
        match r.1 {
            Some(y) => 0 <= y <= 9999,
            None => r.0 == pos,
        },
{
    let p = skip_ws(v, pos);
    if p > pos {
        if let Some((e, y)) = try_year(v, p) {
            return (e, Some(y));
        }
    }
    (pos, None)
}

/// The remaining input from `pos` is a pure location clause: the keyword
/// `in`, whitespace, then text starting at `q` with a character that can
/// begin no date form (not blank, not a digit, not a sign).
pub open spec fn in_clause_form(v: Seq<char>, pos: int, q: int) -> bool {
    &&& 0 <= pos
    &&& pos + 2 < q < v.len()
    &&& eq_ci(v.subrange(pos, pos + 2), "in"@)
    &&& (forall|w2: int| pos + 2 <= w2 < q ==> is_ws(#[trigger] v[w2]))
    &&& !is_ws(v[q])
    &&& !is_digit(v[q])
    &&& v[q] != '-'
    &&& v[q] != '+'
}

/// A date component at `pos`: a relative word, an `in N days` offset, a
/// textual date, or a numeric `d/m/y` date.
fn try_date(v: &Vec<char>, pos: usize) -> (r: Option<(usize, DateSpec)>)
    requires
        pos <= v.len(),
    ensures
        r matches Some((e, d)) ==> pos < e <= v.len() && d.wf(),
        only_kw(v@, pos as int, "today"@) ==> (r matches Some((e, d)) && e == v@.len() && d
            == DateSpec::Rel { days: 0 }),
        only_kw(v@, pos as int, "tomorrow"@) ==> (r matches Some((e, d)) && e == v@.len() && d
            == DateSpec::Rel { days: 1 }),
        only_kw(v@, pos as int, "yesterday"@) ==> (r matches Some((e, d)) && e == v@.len() && d
            == DateSpec::Rel { days: -1i32 }),
        forall|q: int| #[trigger] in_clause_form(v@, pos as int, q) ==> r is None,
{
    proof {
        reveal_strlit("today");
        reveal_strlit("tomorrow");
        reveal_strlit("yesterday");
        reveal_strlit("in");
        reveal_strlit("days");
        reveal_strlit("day");
    }
    if let Some(e) = keyword_at(v, pos, "today") {
        proof {
            if only_kw(v@, pos as int, "tomorrow"@) {
                assert(v@.subrange(pos as int, e as int)[2] == v@[pos as int + 2]);
                assert(v@.subrange(pos as int, v@.len() as int)[2] == v@[pos as int + 2]);
                assert(lower_cp(v@[pos as int + 2]) == lower_cp("today"@[2]));
                assert(lower_cp(v@[pos as int + 2]) == lower_cp("tomorrow"@[2]));
            }
            if only_kw(v@, pos as int, "yesterday"@) {
                lemma_match_head(v@, pos as int, e as int, "today"@);
                lemma_match_head(v@, pos as int, v@.len() as int, "yesterday"@);
            }
            lemma_match_head(v@, pos as int, e as int, "today"@);
            assert forall|q2: int| !(#[trigger] in_clause_form(v@, pos as int, q2)) by {
                if in_clause_form(v@, pos as int, q2) {
                    lemma_match_head(v@, pos as int, pos as int + 2, "in"@);
                }
            }
        }
        return Some((e, DateSpec::Rel { days: 0 }));
    }
    if let Some(e) = keyword_at(v, pos, "tomorrow") {
        proof {
            if only_kw(v@, pos as int, "yesterday"@) {
                lemma_match_head(v@, pos as int, e as int, "tomorrow"@);
                lemma_match_head(v@, pos as int, v@.len() as int, "yesterday"@);
            }
            lemma_match_head(v@, pos as int, e as int, "tomorrow"@);
            assert forall|q2: int| !(#[trigger] in_clause_form(v@, pos as int, q2)) by {
                if in_clause_form(v@, pos as int, q2) {
                    lemma_match_head(v@, pos as int, pos as int + 2, "in"@);
                }
            }
        }
        return Some((e, DateSpec::Rel { days: 1 }));
    }
    if let Some(e) = keyword_at(v, pos, "yesterday") {
        proof {
            lemma_match_head(v@, pos as int, e as int, "yesterday"@);
            assert forall|q2: int| !(#[trigger] in_clause_form(v@, pos as int, q2)) by {
                if in_clause_form(v@, pos as int, q2) {
                    lemma_match_head(v@, pos as int, pos as int + 2, "in"@);
                }
            }
        }
        return Some((e, DateSpec::Rel { days: -1 }));
    }
    if let Some(e1) = keyword_at(v, pos, "in") {
        let p = skip_ws(v, e1);
        if p > e1 && p < v.len() {
            let mut neg = false;
            let mut q = p;
            if v[q] == '-' {
                neg = true;
                q = q + 1;
            } else if v[q] == '+' {
                q = q + 1;
            }
            let d1 = scan_digits(v, q);
            if d1 > q && d1 - q <= 9 {
                proof {
                    lemma_pow10_18();
                    lemma_pow10_mono((d1 - q) as nat, 9);
                    assert(is_digit(v@[q as int]));
                    assert forall|q2: int| !(#[trigger] in_clause_form(v@, pos as int, q2)) by {
                        if in_clause_form(v@, pos as int, q2) {
                            assert(p == q2) by {
                                if p < q2 {
                                    assert(is_ws(v@[p as int]));
                                }
                                if p > q2 {
                                    assert(is_ws(v@[q2]));
                                }
                            }
                        }
                    }
                }
                let val = digits_value(v, q, d1) as i32;
                let days: i32 = if neg {
                    -val
                } else {
                    val
                };
                let p2 = skip_ws(v, d1);
                if p2 > d1 {
                    if let Some(e3) = keyword_at(v, p2, "days") {
                        return Some((e3, DateSpec::Rel { days }));
                    }
                    if let Some(e3) = keyword_at(v, p2, "day") {
                        return Some((e3, DateSpec::Rel { days }));
                    }
                }
            }
        }
        return None;
    }
    if let Some((e1, m)) = try_month(v, pos) {
        proof {
            assert forall|q2: int| !(#[trigger] in_clause_form(v@, pos as int, q2)) by {
                if in_clause_form(v@, pos as int, q2) {
                    lemma_match_head(v@, pos as int, pos as int + 2, "in"@);
                }
            }
        }
        let p = skip_ws(v, e1);
        if p > e1 {
            if let Some((e2, d, _)) = try_day_token(v, p) {
                let (e3, year) = opt_year_after(v, e2);
                return Some((e3, DateSpec::Abs { day: d, month: Some(m), year }));
            }
        }
        return None;
    }
    let d1 = scan_digits(v, pos);
    if d1 == pos || d1 - pos > 2 {
        return None;
    }
    proof {
        lemma_pow10_18();
        lemma_pow10_mono((d1 - pos) as nat, 2);
        reveal_strlit("st");
        reveal_strlit("nd");
        reveal_strlit("rd");
        reveal_strlit("th");
        assert(is_digit(v@[pos as int]));
            assert forall|q2: int| !(#[trigger] in_clause_form(v@, pos as int, q2)) by {
                if in_clause_form(v@, pos as int, q2) {
                    lemma_match_head(v@, pos as int, pos as int + 2, "in"@);
                }
            }
    }
    let day = digits_value(v, pos, d1) as i32;
    let mut suf_end: usize = d1;
    let mut has_suf = false;
    if let Some(e) = keyword_at(v, d1, "st") {
        suf_end = e;
        has_suf = true;
    } else if let Some(e) = keyword_at(v, d1, "nd") {
        suf_end = e;
        has_suf = true;
    } else if let Some(e) = keyword_at(v, d1, "rd") {
        suf_end = e;
        has_suf = true;
    } else if let Some(e) = keyword_at(v, d1, "th") {
        suf_end = e;
        has_suf = true;
    }
    if has_suf {
        let p = skip_ws(v, suf_end);
        if p > suf_end {
            if let Some((e2, m)) = try_month(v, p) {
                let (e3, year) = opt_year_after(v, e2);
                return Some((e3, DateSpec::Abs { day, month: Some(m), year }));
            }
        }
        return Some((suf_end, DateSpec::Abs { day, month: None, year: None }));
    }
    if d1 < v.len() && (v[d1] == '/' || v[d1] == '.' || v[d1] == '-') {
        let m0 = d1 + 1;
        let m1 = scan_digits(v, m0);
        if m1 == m0 || m1 - m0 > 2 {
            return None;
        }
        proof {
            lemma_pow10_mono((m1 - m0) as nat, 2);
        }
        let month = digits_value(v, m0, m1) as i32;
        if m1 < v.len() && (v[m1] == '/' || v[m1] == '.' || v[m1] == '-') {
            if let Some((e2, y)) = try_year(v, m1 + 1) {
                return Some((e2, DateSpec::Abs { day, month: Some(month), year: Some(y) }));
            }
            return None;
        }
        return Some((m1, DateSpec::Abs { day, month: Some(month), year: None }));
    }
    let p = skip_ws(v, d1);
    if p > d1 {
        if let Some((e2, m)) = try_month(v, p) {
            let (e3, year) = opt_year_after(v, e2);
            return Some((e3, DateSpec::Abs { day, month: Some(m), year }));
        }
    }
    None
}

/// A signed relative-time group starting at the leading sign.
/// A digits-and-unit group: `k` digits at `pos` followed directly by the
/// unit letter `u` (`h`, `m` or `s`, either case).
pub open spec fn rel_group_form(v: Seq<char>, pos: int, k: int, u: char) -> bool {
    &&& 1 <= k <= 9
    &&& 0 <= pos
    &&& pos + k < v.len()
    &&& forall|j: int| pos <= j < pos + k ==> is_digit(#[trigger] v[j])
    &&& (u == 'h' || u == 'm' || u == 's')
    &&& lower_cp(v[pos + k]) == u as int
}

/// The whole input is a sign followed by exactly one digits-and-unit group.
pub open spec fn rel_single_form(v: Seq<char>, neg: bool, k: int, u: char) -> bool {
    &&& v.len() == k + 2
    &&& v[0] == (if neg {
        '-'
    } else {
        '+'
    })
    &&& rel_group_form(v, 1, k, u)
}

/// One relative-offset group at `pos`: digits then a unit letter. `None`
/// when no digit stands at `pos`.
fn rel_group(v: &Vec<char>, pos: usize) -> (r: Result<Option<(usize, i32, char)>, DateParseError>)
    requires
        pos <= v.len(),
    ensures
        pos == v.len() ==> (r matches Ok(g) && g is None),
        r matches Ok(g) ==> (g matches Some((e, val, u)) ==> {
            &&& pos + 2 <= e <= v.len()
            &&& (u == 'h' || u == 'm' || u == 's')
            &&& lower_cp(v@[e - 1]) == u as int
            &&& val == digits_val(v@.subrange(pos as int, e - 1))
            &&& 0 <= val < rel_bound()
        }),
        r matches Err(e) ==> (e matches DateParseError::Parser { expected, position }
            && expected@.len() > 0),
        forall|k: int, u: char| #[trigger] rel_group_form(v@, pos as int, k, u) ==> (r matches Ok(g)
            && g matches Some((e, val, uu)) && e == pos + k + 1 && uu == u && val == digits_val(
            v@.subrange(pos as int, pos + k),
        )),
{
    if pos == v.len() {
        return Ok(None);
    }
    let c = v[pos];
    if !('0' <= c && c <= '9') {
        return Ok(None);
    }
    let d1 = scan_digits(v, pos);
    proof {
        lemma_pow10_18();
        assert forall|k: int, u: char| #[trigger] rel_group_form(v@, pos as int, k, u) implies d1
            == pos + k by {
            if d1 > pos + k {
                assert(is_digit(v@[pos + k]));
            }
            if d1 < pos + k {
                assert(is_digit(v@[d1 as int]));
            }
        }
    }
    if d1 - pos > 9 {
        return Err(DateParseError::Parser { expected: vec![TokenKind::Number], position: pos });
    }
    proof {
        lemma_pow10_mono((d1 - pos) as nat, 9);
    }
    let val = digits_value(v, pos, d1) as i32;
    if d1 == v.len() {
        return Err(DateParseError::Parser { expected: vec![TokenKind::UnitSuffix], position: d1 });
    }
    let u = v[d1];
    if u == 'h' || u == 'H' {
        return Ok(Some((d1 + 1, val, 'h')));
    }
    if u == 'm' || u == 'M' {
        return Ok(Some((d1 + 1, val, 'm')));
    }
    if u == 's' || u == 'S' {
        return Ok(Some((d1 + 1, val, 's')));
    }
    Err(DateParseError::Parser { expected: vec![TokenKind::UnitSuffix], position: d1 })
}

/// A signed relative-time group starting at the leading sign: an `h`, `m`
/// and `s` group in that order, each optional, at least one present, with
/// one sign applied to every present field.
fn try_rel(v: &Vec<char>) -> (r: Result<(usize, TimeSpec), DateParseError>)
    requires
        v.len() > 0,
        v@[0] == '+' || v@[0] == '-',
    ensures
        r matches Ok((e, t)) ==> 0 < e <= v.len() && t.wf() && t is Rel,
        r matches Err(e) ==> (e matches DateParseError::Parser { expected, position }
            && expected@.len() > 0),
        forall|negf: bool, k: int, u: char| #[trigger] rel_single_form(v@, negf, k, u) ==> ({
            let val = digits_val(v@.subrange(1, 1 + k));
            let sv = if negf {
                -val
            } else {
                val
            };
            r matches Ok((e, t)) && e == v@.len() && t == TimeSpec::Rel {
                hours: if u == 'h' {
                    sv as i32
                } else {
                    0i32
                },
                minutes: if u == 'm' {
                    sv as i32
                } else {
                    0i32
                },
                seconds: if u == 's' {
                    sv as i32
                } else {
                    0i32
                },
            }
        }),
{
    let neg = v[0] == '-';
    let mut hours: i32 = 0;
    let mut minutes: i32 = 0;
    let mut seconds: i32 = 0;
    let g1 = match rel_group(v, 1) {
        Ok(g) => g,
        Err(e) => {
            return Err(e);
        },
    };
    let (e1, val1, u1) = match g1 {
        Some(t) => t,
        None => {
            return Err(
                DateParseError::Parser { expected: vec![TokenKind::Number], position: 1 },
            );
        },
    };
    let mut stage: u8;
    if u1 == 'h' {
        hours = val1;
        stage = 1;
    } else if u1 == 'm' {
        minutes = val1;
        stage = 2;
    } else {
        seconds = val1;
        stage = 3;
    }
    let mut pos = skip_ws(v, e1);
    let g2 = match rel_group(v, pos) {
        Ok(g) => g,
        Err(e) => {
            return Err(e);
        },
    };
    match g2 {
        None => {},
        Some((e2, val2, u2)) => {
            if u2 == 'm' && stage <= 1 {
                minutes = val2;
                stage = 2;
            } else if u2 == 's' && stage <= 2 {
                seconds = val2;
                stage = 3;
            } else {
                return Err(
                    DateParseError::Parser {
                        expected: vec![TokenKind::UnitSuffix],
                        position: e2 - 1,
                    },
                );
            }
            pos = skip_ws(v, e2);
            let g3 = match rel_group(v, pos) {
                Ok(g) => g,
                Err(e) => {
                    return Err(e);
                },
            };
            match g3 {
                None => {},
                Some((e3, val3, u3)) => {
                    if u3 == 's' && stage <= 2 {
                        seconds = val3;
                        stage = 3;
                    } else {
                        return Err(
                            DateParseError::Parser {
                                expected: vec![TokenKind::UnitSuffix],
                                position: e3 - 1,
                            },
                        );
                    }
                    pos = skip_ws(v, e3);
                    let g4 = match rel_group(v, pos) {
                        Ok(g) => g,
                        Err(e) => {
                            return Err(e);
                        },
                    };
                    if g4.is_some() {
                        return Err(
                            DateParseError::Parser {
                                expected: vec![TokenKind::UnitSuffix],
                                position: pos,
                            },
                        );
                    }
                },
            }
        },
    }
    if neg {
        hours = -hours;
        minutes = -minutes;
        seconds = -seconds;
    }
    Ok((pos, TimeSpec::Rel { hours, minutes, seconds }))
}

/// A chain separator `->` stands at index `j` of `s`.
pub open spec fn arrow_at(s: Seq<char>, j: int) -> bool {
    0 <= j && j + 1 < s.len() && s[j] == '-' && s[j + 1] == '>'
}

/// The first index at or after `i` holding a chain separator, or the
/// length of `s` when none does.
pub open spec fn first_arrow_at(s: Seq<char>, i: nat) -> nat
    decreases s.len() - i,
{
    if i + 2 > s.len() {
        s.len()
    } else if s[i as int] == '-' && s[i as int + 1] == '>' {
        i
    } else {
        first_arrow_at(s, i + 1)
    }
}

/// What `first_arrow_at` returns: the least separator position, or the
/// length when there is none.
proof fn lemma_first_arrow_char(s: Seq<char>, i: nat)
    requires
        i <= s.len(),
    ensures
        i <= first_arrow_at(s, i) <= s.len(),
        first_arrow_at(s, i) < s.len() ==> first_arrow_at(s, i) + 2 <= s.len() && arrow_at(
            s,
            first_arrow_at(s, i) as int,
        ),
        forall|j: int| i <= j < first_arrow_at(s, i) ==> !arrow_at(s, j),
        first_arrow_at(s, i) == s.len() ==> forall|j: int| i <= j < s.len() ==> !arrow_at(s, j),
    decreases s.len() - i,
{
    if i + 2 <= s.len() && !(s[i as int] == '-' && s[i as int + 1] == '>') {
        lemma_first_arrow_char(s, i + 1);
    }
}

/// `first_arrow_at` is determined by the least-position characterization.
proof fn lemma_first_arrow_is(s: Seq<char>, i: nat, k: int)
    requires
        i <= k,
        arrow_at(s, k),
        forall|j: int| i <= j < k ==> !arrow_at(s, j),
    ensures
        first_arrow_at(s, i) == k,
{
    lemma_first_arrow_char(s, i);
    let f = first_arrow_at(s, i);
    if f < k {
        assert(!arrow_at(s, f as int));
    }
    if f > k {
        assert(!arrow_at(s, k));
    }
}

/// The segments of `s` between occurrences of `->`, in order.
pub open spec fn split_arrows(s: Seq<char>) -> Seq<Seq<char>>
    decreases s.len(),
    via split_arrows_decreases
{
    let i = first_arrow_at(s, 0);
    if i == s.len() {
        seq![s]
    } else {
        seq![s.subrange(0, i as int)] + split_arrows(s.subrange(i as int + 2, s.len() as int))
    }
}

#[via_fn]
proof fn split_arrows_decreases(s: Seq<char>) {
    lemma_first_arrow_char(s, 0);
}

/// The segments with surrounding whitespace dropped and empty segments
/// removed: the location tokens a chain denotes.
pub open spec fn clean_tokens(ts: Seq<Seq<char>>) -> Seq<Seq<char>>
    decreases ts.len(),
{
    if ts.len() == 0 {
        Seq::empty()
    } else {
        let h = trim_start_spec(trim_end_spec(ts[0]));
        let rest = clean_tokens(ts.drop_first());
        if h.len() == 0 {
            rest
        } else {
            seq![h] + rest
        }
    }
}

/// Trimming the end keeps exactly the prefix up to the last non-blank.
proof fn lemma_trim_end_is(s: Seq<char>, k: int)
    requires
        0 <= k <= s.len(),
        forall|j: int| k <= j < s.len() ==> is_ws(#[trigger] s[j]),
        k > 0 ==> !is_ws(s[k - 1]),
    ensures
        trim_end_spec(s) == s.subrange(0, k),
    decreases s.len(),
{
    if s.len() > k {
        assert(is_ws(s.last()));
        assert(s.drop_last() =~= s.subrange(0, s.len() - 1));
        assert forall|j: int| k <= j < s.len() - 1 implies is_ws(#[trigger] s.drop_last()[j]) by {
            assert(s.drop_last()[j] == s[j]);
        }
        if k > 0 {
            assert(s.drop_last()[k - 1] == s[k - 1]);
        }
        lemma_trim_end_is(s.drop_last(), k);
        assert(s.drop_last().subrange(0, k) =~= s.subrange(0, k));
    } else {
        if s.len() > 0 {
            assert(!is_ws(s.last()));
        }
        assert(s.subrange(0, k) =~= s);
    }
}

/// The location list after the `in` keyword: the text split at `->`, each
/// token trimmed, empty tokens dropped.
fn split_locations(v: &Vec<char>, start: usize) -> (r: Vec<String>)
    requires
        start <= v.len(),
    ensures
        forall|i: int| 0 <= i < r@.len() ==> loc_token_wf(#[trigger] r@[i]@),
        str_views(r@) == clean_tokens(split_arrows(v@.subrange(start as int, v@.len() as int))),
{
    let mut out: Vec<String> = Vec::new();
    let mut cur = start;
    proof {
        assert(str_views(out@) =~= Seq::<Seq<char>>::empty());
    }
    while cur < v.len() || cur == start
        invariant
            start <= cur <= v.len(),
            forall|i: int| 0 <= i < out@.len() ==> loc_token_wf(#[trigger] out@[i]@),
            str_views(out@) + clean_tokens(
                split_arrows(v@.subrange(cur as int, v@.len() as int)),
            ) == clean_tokens(split_arrows(v@.subrange(start as int, v@.len() as int))),
        decreases v.len() + 2 - cur,
    {
        let from = cur;
        let mut j = from;
        while j < v.len() && !(v[j] == '-' && j + 1 < v.len() && v[j + 1] == '>')
            invariant
                from <= j <= v.len(),
                forall|k: int|
                    from <= k < j ==> !(v@[k] == '-' && k + 1 < v@.len() && #[trigger] v@[k + 1]
                        == '>'),
            decreases v.len() - j,
        {
            j = j + 1;
        }
        let ghost s2 = v@.subrange(cur as int, v@.len() as int);
        proof {
            assert forall|k2: int| 0 <= k2 < j - cur implies !arrow_at(s2, k2) by {
                assert(s2[k2] == v@[cur + k2]);
                if k2 + 1 < s2.len() {
                    assert(s2[k2 + 1] == v@[cur + k2 + 1]);
                }
            }
            if j < v.len() {
                assert(s2[j - cur] == v@[j as int]);
                assert(s2[j - cur + 1] == v@[j as int + 1]);
                assert(arrow_at(s2, j - cur));
                lemma_first_arrow_is(s2, 0, j - cur);
            } else {
                lemma_first_arrow_char(s2, 0);
                if first_arrow_at(s2, 0) < s2.len() {
                    assert(arrow_at(s2, first_arrow_at(s2, 0) as int));
                }
                assert(first_arrow_at(s2, 0) == s2.len());
            }
        }
        let hi = crate::location::trim_end_to(v, j);
        let ghost seg = v@.subrange(cur as int, j as int);
        proof {
            if j < v.len() {
                assert(seg =~= s2.subrange(0, j - cur));
                assert(s2.subrange(j - cur + 2, s2.len() as int) =~= v@.subrange(
                    j as int + 2,
                    v@.len() as int,
                ));
                assert(split_arrows(s2) == seq![seg] + split_arrows(
                    v@.subrange(j as int + 2, v@.len() as int),
                ));
            } else {
                assert(seg =~= s2);
                assert(split_arrows(s2) == seq![seg]);
            }
            if hi > cur {
                assert forall|j2: int| hi - cur <= j2 < seg.len() implies is_ws(
                    #[trigger] seg[j2],
                ) by {
                    assert(seg[j2] == v@[cur + j2]);
                }
                assert(seg[hi - cur - 1] == v@[hi - 1]);
                lemma_trim_end_is(seg, hi - cur);
                assert(seg.subrange(0, hi - cur) =~= v@.subrange(cur as int, hi as int));
            } else {
                assert forall|j2: int| 0 <= j2 < seg.len() implies is_ws(#[trigger] seg[j2]) by {
                    assert(seg[j2] == v@[cur + j2]);
                }
                lemma_trim_end_is(seg, 0);
                assert(seg.subrange(0, 0) =~= Seq::<char>::empty());
                assert(trim_start_spec(trim_end_spec(seg)) =~= Seq::<char>::empty());
            }
        }
        if hi > from {
            let lo = crate::location::trim_start_from(v, from, hi);
            if lo < hi {
                let tok = string_of_range(v, lo, hi);
                proof {
                    assert(trim_start_spec(trim_end_spec(seg)) == v@.subrange(
                        lo as int,
                        hi as int,
                    ));
                    assert(loc_token_wf(tok@)) by {
                        assert(tok@[0] == v@[lo as int]);
                        assert(tok@[tok@.len() - 1] == v@[hi - 1]);
                        assert forall|i: int| 0 <= i < tok@.len() - 1 implies !(tok@[i] == '-'
                            && #[trigger] tok@[i + 1] == '>') by {
                            assert(tok@[i] == v@[lo + i]);
                            assert(tok@[i + 1] == v@[lo + i + 1]);
                            assert(lo + i + 1 < hi <= j <= v@.len());
                        }
                    }
                }
                let ghost old_out = out@;
                out.push(tok);
                proof {
                    assert(forall|j2: int| 0 <= j2 < old_out.len() ==> out@[j2] == old_out[j2]);
                    assert(str_views(out@) =~= str_views(old_out) + seq![tok@]);
                }
            }
        }
        proof {
            let tail = clean_tokens(
                split_arrows(
                    if j < v.len() {
                        v@.subrange(j as int + 2, v@.len() as int)
                    } else {
                        v@.subrange(v@.len() as int, v@.len() as int)
                    },
                ),
            );
            let h = trim_start_spec(trim_end_spec(seg));
            if j < v.len() {
                let rest = split_arrows(v@.subrange(j as int + 2, v@.len() as int));
                assert((seq![seg] + rest).drop_first() =~= rest);
                assert((seq![seg] + rest)[0] == seg);
                if h.len() == 0 {
                    assert(clean_tokens(split_arrows(s2)) == tail);
                } else {
                    assert(clean_tokens(split_arrows(s2)) == seq![h] + tail);
                }
            } else {
                assert(seq![seg].drop_first() =~= Seq::<Seq<char>>::empty());
                assert(clean_tokens(Seq::<Seq<char>>::empty()) =~= Seq::<Seq<char>>::empty());
                if h.len() == 0 {
                    assert(clean_tokens(split_arrows(s2)) =~= Seq::<Seq<char>>::empty());
                } else {
                    assert(clean_tokens(split_arrows(s2)) =~= seq![h]);
                }
            }
        }
        if j >= v.len() {
            proof {
                assert(str_views(out@) =~= clean_tokens(
                    split_arrows(v@.subrange(start as int, v@.len() as int)),
                ));
            }
            return out;
        }
        cur = j + 2;
        proof {
            assert(str_views(out@) + clean_tokens(
                split_arrows(v@.subrange(cur as int, v@.len() as int)),
            ) =~= clean_tokens(split_arrows(v@.subrange(start as int, v@.len() as int))));
        }
    }
    proof {
        let ghost s3 = v@.subrange(cur as int, v@.len() as int);
        assert(s3 =~= Seq::<char>::empty());
        assert(split_arrows(s3) == seq![s3]);
        assert(seq![s3].drop_first() =~= Seq::<Seq<char>>::empty());
        assert(trim_start_spec(trim_end_spec(s3)) =~= Seq::<char>::empty());
        assert(clean_tokens(Seq::<Seq<char>>::empty()) =~= Seq::<Seq<char>>::empty());
        assert(str_views(out@) =~= clean_tokens(
            split_arrows(v@.subrange(start as int, v@.len() as int)),
        ));
    }
    out
}

/// The trimmed form of an input, as the parser sees it.
pub open spec fn trimmed(s: Seq<char>) -> Seq<char> {
    trim_start_spec(trim_end_spec(s))
}

/// Parses an expression from a string.
///
/// The whole trimmed input must be recognized: a valid prefix followed by
/// anything else is a `Garbage` error carrying the unparsed suffix, and an
/// input that starts with no known form is a `Parser` error carrying the
/// expected token categories. The literal `now` (alone) produces no
/// overrides at all. A unix literal with no explicit location gets `utc`
/// as its implied source location.
#[verifier::rlimit(100)]
pub fn parse_input(expr: &str) -> (r: Result<InputExpr, DateParseError>)
    ensures
        r matches Ok(e) ==> e.wf(),
        eq_ci(trimmed(expr@), "now"@) ==> (r matches Ok(e) && e.time_spec is None && e.date_spec
            is None && e.locations@.len() == 0),
        eq_ci(trimmed(expr@), "noon"@) ==> (r matches Ok(e) && e.time_spec == Some(
            TimeSpec::Abs { hour: 12, minute: 0, second: 0 },
        ) && e.date_spec is None && e.locations@.len() == 0),
        eq_ci(trimmed(expr@), "midnight"@) ==> (r matches Ok(e) && e.time_spec == Some(
            TimeSpec::Abs { hour: 0, minute: 0, second: 0 },
        ) && e.date_spec is None && e.locations@.len() == 0),
        eq_ci(trimmed(expr@), "today"@) ==> (r matches Ok(e) && e.time_spec is None && e.date_spec
            == Some(DateSpec::Rel { days: 0 }) && e.locations@.len() == 0),
        eq_ci(trimmed(expr@), "tomorrow"@) ==> (r matches Ok(e) && e.time_spec is None
            && e.date_spec == Some(DateSpec::Rel { days: 1 }) && e.locations@.len() == 0),
        eq_ci(trimmed(expr@), "yesterday"@) ==> (r matches Ok(e) && e.time_spec is None
            && e.date_spec == Some(DateSpec::Rel { days: -1i32 }) && e.locations@.len() == 0),
        forall|k: int, ipm: bool|
            #[trigger] hour_meridiem_form(trimmed(expr@), 0, k, ipm) && 1 <= digits_val(
                trimmed(expr@).subrange(0, k),
            ) <= 12 ==> (r matches Ok(e) && e.time_spec == Some(
                TimeSpec::Abs {
                    hour: meridiem_hour(digits_val(trimmed(expr@).subrange(0, k)), ipm) as i32,
                    minute: 0,
                    second: 0,
                },
            ) && e.date_spec is None && e.locations@.len() == 0),
        forall|negf: bool, k: int, u: char|
            #[trigger] rel_single_form(trimmed(expr@), negf, k, u) ==> ({
                let val = digits_val(trimmed(expr@).subrange(1, 1 + k));
                let sv = if negf {
                    -val
                } else {
                    val
                };
                r matches Ok(e) && e.time_spec == Some(
                    TimeSpec::Rel {
                        hours: if u == 'h' {
                            sv as i32
                        } else {
                            0i32
                        },
                        minutes: if u == 'm' {
                            sv as i32
                        } else {
                            0i32
                        },
                        seconds: if u == 's' {
                            sv as i32
                        } else {
                            0i32
                        },
                    },
                ) && e.date_spec is None && e.locations@.len() == 0
            }),
        unix_form(trimmed(expr@)) && digits_val(trimmed(expr@)) <= MAX_EPOCH ==> (r matches Ok(e)
            && (exists|c: CivilDateTime|
            {
                &&& #[trigger] civil_valid(c)
                &&& epoch_of_civil(c) == digits_val(trimmed(expr@))
                &&& e.time_spec == Some(
                    TimeSpec::Abs {
                        hour: c.hour as i32,
                        minute: c.minute as i32,
                        second: c.second as i32,
                    },
                )
                &&& e.date_spec == Some(
                    DateSpec::Abs {
                        day: c.day as i32,
                        month: Some(c.month as i32),
                        year: Some(c.year),
                    },
                )
            }) && e.locations@.len() == 1 && e.locations@[0]@ == "utc"@),
        unix_form(trimmed(expr@)) && digits_val(trimmed(expr@)) > MAX_EPOCH ==> (r matches Err(
            DateParseError::OutOfRange(f),
        ) && f == Field::UnixTimestamp),
        forall|q: int| #[trigger] in_clause_form(trimmed(expr@), 0, q) ==> (r matches Ok(e)
            && e.time_spec is None && e.date_spec is None && str_views(e.locations@)
            == clean_tokens(
            split_arrows(trimmed(expr@).subrange(q, trimmed(expr@).len() as int)),
        )),
        r matches Ok(e) ==> (e.locations@.len() > 0 ==> {
            let t = trimmed(expr@);
            ||| (e.locations@.len() == 1 && e.locations@[0]@ == "utc"@ && t.len() > 0 && is_digit(
                t[0],
            ))
            ||| exists|p: int, q: int|
                #![trigger t.subrange(p, p + 2), t.subrange(q, t.len() as int)]
                {
                    &&& 0 <= p
                    &&& p + 2 < q < t.len()
                    &&& eq_ci(t.subrange(p, p + 2), "in"@)
                    &&& (forall|w2: int| p + 2 <= w2 < q ==> is_ws(#[trigger] t[w2]))
                    &&& str_views(e.locations@) == clean_tokens(
                        split_arrows(t.subrange(q, t.len() as int)),
                    )
                }
        }),
        r matches Err(e2) ==> (e2 is Parser || e2 is Garbage || e2 is OutOfRange),
        r matches Err(DateParseError::OutOfRange(f)) ==> f == Field::UnixTimestamp,
        r matches Err(DateParseError::Parser { expected, position }) ==> expected@.len() > 0,
        r matches Err(DateParseError::Garbage(g)) ==> exists|p: int|
            0 < p < trimmed(expr@).len() && g@ == #[trigger] trimmed(expr@).subrange(
                p,
                trimmed(expr@).len() as int,
            ),
{
    let raw = chars_of(expr);
    let hi0 = crate::location::trim_end_to(&raw, raw.len());
    let lo0 = crate::location::trim_start_from(&raw, 0, hi0);
    proof {
        assert(raw@.subrange(0, raw@.len() as int) =~= raw@);
    }
    let mut w: Vec<char> = Vec::new();
    let mut i = lo0;
    while i < hi0
        invariant
            lo0 <= i <= hi0 <= raw.len(),
            w@ == raw@.subrange(lo0 as int, i as int),
        decreases hi0 - i,
    {
        w.push(raw[i]);
        i = i + 1;
        proof {
            assert(w@ =~= raw@.subrange(lo0 as int, i as int));
        }
    }
    proof {
        assert(w@ =~= raw@.subrange(lo0 as int, hi0 as int));
        assert(w@ == trimmed(expr@));
    }
    let n = w.len();
    let mut pos: usize = 0;
    let mut time_spec: Option<TimeSpec> = None;
    let mut date_spec: Option<DateSpec> = None;
    let mut time_done = false;
    let mut date_done = false;
    let mut unix = false;

    proof {
        reveal_strlit("now");
        reveal_strlit("noon");
        reveal_strlit("midnight");
        reveal_strlit("today");
        reveal_strlit("tomorrow");
        reveal_strlit("yesterday");
        reveal_strlit("in");
        if exists|q: int| #[trigger] in_clause_form(w@, 0, q) {
            let q0 = choose|q: int| #[trigger] in_clause_form(w@, 0, q);
            lemma_match_head(w@, 0, 2, "in"@);
        }
        if eq_ci(w@, "now"@) {
            assert(lower_cp(w@[0]) == lower_cp("now"@[0]));
        }
        if eq_ci(w@, "noon"@) {
            assert(lower_cp(w@[0]) == lower_cp("noon"@[0]));
        }
        if eq_ci(w@, "midnight"@) {
            assert(lower_cp(w@[0]) == lower_cp("midnight"@[0]));
        }
        if eq_ci(w@, "today"@) {
            assert(lower_cp(w@[0]) == lower_cp("today"@[0]));
        }
        if eq_ci(w@, "tomorrow"@) {
            assert(lower_cp(w@[0]) == lower_cp("tomorrow"@[0]));
        }
        if eq_ci(w@, "yesterday"@) {
            assert(lower_cp(w@[0]) == lower_cp("yesterday"@[0]));
        }
    }
    if n > 0 && (w[0] == '+' || w[0] == '-') {
        match try_rel(&w) {
            Ok((e, t)) => {
                time_spec = Some(t);
                time_done = true;
                pos = e;
            },
            Err(err) => {
                return Err(err);
            },
        }
    } else if n > 0 {
        proof {
            assert(w@.subrange(0, w@.len() as int) =~= w@);
        }
        let du = scan_digits(&w, 0);
        proof {
            assert forall|k: int, ipm: bool| #[trigger] hour_meridiem_prefix(w@, 0, k, ipm)
                implies du == k by {
                lemma_form_run(w@, 0, k, ipm, du as int);
            }
        }
        if du == n && n <= 18 {
            proof {
                lemma_pow10_18();
                lemma_pow10_mono(n as nat, 18);
            }
            let ts_val = digits_value(&w, 0, n);
            if ts_val > MAX_EPOCH {
                return Err(DateParseError::OutOfRange(Field::UnixTimestamp));
            }
            let c = civil_from_epoch(ts_val);
            time_spec = Some(
                TimeSpec::Abs {
                    hour: c.hour as i32,
                    minute: c.minute as i32,
                    second: c.second as i32,
                },
            );
            date_spec = Some(
                DateSpec::Abs { day: c.day as i32, month: Some(c.month as i32), year: Some(c.year) },
            );
            time_done = true;
            date_done = true;
            unix = true;
            pos = n;
        } else if let Some((e, ts)) = try_time(&w, 0) {
            time_spec = ts;
            time_done = true;
            pos = e;
        } else if let Some((e, ds)) = try_date(&w, 0) {
            date_spec = Some(ds);
            date_done = true;
            pos = e;
        } else {
            let d1 = scan_digits(&w, 0);
            if d1 > 0 && d1 <= 18 && (d1 == n || w[d1] == ' ' || w[d1] == '\t') {
                proof {
                    lemma_pow10_18();
                    lemma_pow10_mono(d1 as nat, 18);
                }
                let ts_val = digits_value(&w, 0, d1);
                if ts_val > MAX_EPOCH {
                    return Err(DateParseError::OutOfRange(Field::UnixTimestamp));
                }
                let c = civil_from_epoch(ts_val);
                time_spec = Some(
                    TimeSpec::Abs {
                        hour: c.hour as i32,
                        minute: c.minute as i32,
                        second: c.second as i32,
                    },
                );
                date_spec = Some(
                    DateSpec::Abs {
                        day: c.day as i32,
                        month: Some(c.month as i32),
                        year: Some(c.year),
                    },
                );
                time_done = true;
                date_done = true;
                unix = true;
                pos = d1;
            }
        }
        if (time_done || date_done) && !unix {
            let p2 = skip_ws(&w, pos);
            if p2 > pos && p2 < n {
                if !time_done {
                    if let Some((e, ts)) = try_time(&w, p2) {
                        time_spec = ts;
                        time_done = true;
                        pos = e;
                    } else if let Some((e, ds)) = try_date(&w, p2) {
                        date_spec = Some(ds);
                        date_done = true;
                        pos = e;
                    }
                } else if !date_done {
                    if let Some((e, ds)) = try_date(&w, p2) {
                        date_spec = Some(ds);
                        date_done = true;
                        pos = e;
                    }
                }
            }
        }
    }

    let mut locations: Vec<String> = Vec::new();
    let ghost mut gp: int = 0;
    let ghost mut gq: int = 0;
    let p = skip_ws(&w, pos);
    if p < n {
        let mut clause_ok = false;
        proof {
            reveal_strlit("in");
        }
        if let Some(e_in) = keyword_at(&w, p, "in") {
            let p2 = skip_ws(&w, e_in);
            if p2 > e_in && p2 < n {
                locations = split_locations(&w, p2);
                clause_ok = true;
                proof {
                    gp = p as int;
                    gq = p2 as int;
                    assert(eq_ci(trimmed(expr@).subrange(gp, gp + 2), "in"@));
                    assert(forall|w2: int| gp + 2 <= w2 < gq ==> is_ws(#[trigger] w@[w2]));
                    assert(!is_ws(w@[gq]));
                    assert(str_views(locations@) == clean_tokens(
                        split_arrows(trimmed(expr@).subrange(gq, trimmed(expr@).len() as int)),
                    ));
                }
            }
        }
        if !clause_ok {
            if pos == 0 && !time_done && !date_done {
                return Err(
                    DateParseError::Parser {
                        expected: vec![
                            TokenKind::Number,
                            TokenKind::TimeWord,
                            TokenKind::DateWord,
                            TokenKind::MonthName,
                            TokenKind::InWord,
                        ],
                        position: 0,
                    },
                );
            }
            proof {
                assert(w@.subrange(pos as int, n as int) == trimmed(expr@).subrange(
                    pos as int,
                    trimmed(expr@).len() as int,
                ));
            }
            return Err(DateParseError::Garbage(string_of_range(&w, pos, n)));
        }
    }
    if unix && locations.len() == 0 {
        proof {
            reveal_strlit("utc");
        }
        let utc_chars = chars_of("utc");
        let ghost old_locs = locations@;
        locations.push(string_of(&utc_chars));
        assert forall|i: int| 0 <= i < locations@.len() implies loc_token_wf(
            #[trigger] locations@[i]@,
        ) by {
            assert(locations@[i]@ == "utc"@);
        }
    } else {
        proof {
            if locations@.len() > 0 {
                let t = trimmed(expr@);
                assert(eq_ci(t.subrange(gp, gp + 2), "in"@));
                assert(forall|w2: int| gp + 2 <= w2 < gq ==> is_ws(#[trigger] t[w2]));
                assert(str_views(locations@) == clean_tokens(
                    split_arrows(t.subrange(gq, t.len() as int)),
                ));
            }
        }
    }
    proof {
        assert forall|q: int| #[trigger] in_clause_form(w@, 0, q) implies gq == q by {
            if gq < q {
                assert(is_ws(w@[gq]));
            }
            if gq > q {
                assert(is_ws(w@[q]));
            }
        }
    }
    Ok(InputExpr { time_spec, date_spec, locations })
}

impl InputExpr {
    /// Parses an expression from a string.
    pub fn parse(value: &str) -> (r: Result<InputExpr, DateParseError>)
        ensures
            r matches Ok(e) ==> e.wf(),
            eq_ci(trimmed(value@), "now"@) ==> (r matches Ok(e) && e.time_spec is None
                && e.date_spec is None && e.locations@.len() == 0),
            eq_ci(trimmed(value@), "noon"@) ==> (r matches Ok(e) && e.time_spec == Some(
                TimeSpec::Abs { hour: 12, minute: 0, second: 0 },
            ) && e.date_spec is None && e.locations@.len() == 0),
            eq_ci(trimmed(value@), "midnight"@) ==> (r matches Ok(e) && e.time_spec == Some(
                TimeSpec::Abs { hour: 0, minute: 0, second: 0 },
            ) && e.date_spec is None && e.locations@.len() == 0),
            eq_ci(trimmed(value@), "today"@) ==> (r matches Ok(e) && e.time_spec is None
                && e.date_spec == Some(DateSpec::Rel { days: 0 }) && e.locations@.len() == 0),
            eq_ci(trimmed(value@), "tomorrow"@) ==> (r matches Ok(e) && e.time_spec is None
                && e.date_spec == Some(DateSpec::Rel { days: 1 }) && e.locations@.len() == 0),
            eq_ci(trimmed(value@), "yesterday"@) ==> (r matches Ok(e) && e.time_spec is None
                && e.date_spec == Some(DateSpec::Rel { days: -1i32 }) && e.locations@.len() == 0),
            forall|k: int, ipm: bool|
                #[trigger] hour_meridiem_form(trimmed(value@), 0, k, ipm) && 1 <= digits_val(
                    trimmed(value@).subrange(0, k),
                ) <= 12 ==> (r matches Ok(e) && e.time_spec == Some(
                    TimeSpec::Abs {
                        hour: meridiem_hour(digits_val(trimmed(value@).subrange(0, k)), ipm) as i32,
                        minute: 0,
                        second: 0,
                    },
                ) && e.date_spec is None && e.locations@.len() == 0),
            forall|negf: bool, k: int, u: char|
                #[trigger] rel_single_form(trimmed(value@), negf, k, u) ==> ({
                    let val = digits_val(trimmed(value@).subrange(1, 1 + k));
                    let sv = if negf {
                        -val
                    } else {
                        val
                    };
                    r matches Ok(e) && e.time_spec == Some(
                        TimeSpec::Rel {
                            hours: if u == 'h' {
                                sv as i32
                            } else {
                                0i32
                            },
                            minutes: if u == 'm' {
                                sv as i32
                            } else {
                                0i32
                            },
                            seconds: if u == 's' {
                                sv as i32
                            } else {
                                0i32
                            },
                        },
                    ) && e.date_spec is None && e.locations@.len() == 0
                }),
            unix_form(trimmed(value@)) && digits_val(trimmed(value@)) <= MAX_EPOCH ==> (r matches
            Ok(e) && (exists|c: CivilDateTime|
            {
                &&& #[trigger] civil_valid(c)
                &&& epoch_of_civil(c) == digits_val(trimmed(value@))
                &&& e.time_spec == Some(
                    TimeSpec::Abs {
                        hour: c.hour as i32,
                        minute: c.minute as i32,
                        second: c.second as i32,
                    },
                )
                &&& e.date_spec == Some(
                    DateSpec::Abs {
                        day: c.day as i32,
                        month: Some(c.month as i32),
                        year: Some(c.year),
                    },
                )
            }) && e.locations@.len() == 1 && e.locations@[0]@ == "utc"@),
            unix_form(trimmed(value@)) && digits_val(trimmed(value@)) > MAX_EPOCH ==> (r matches Err(
                DateParseError::OutOfRange(f),
            ) && f == Field::UnixTimestamp),
            forall|q: int| #[trigger] in_clause_form(trimmed(value@), 0, q) ==> (r matches Ok(e)
                && e.time_spec is None && e.date_spec is None && str_views(e.locations@)
                == clean_tokens(
                split_arrows(trimmed(value@).subrange(q, trimmed(value@).len() as int)),
            )),
            r matches Ok(e) ==> (e.locations@.len() > 0 ==> {
                let t = trimmed(value@);
                ||| (e.locations@.len() == 1 && e.locations@[0]@ == "utc"@ && t.len() > 0
                    && is_digit(t[0]))
                ||| exists|p: int, q: int|
                    #![trigger t.subrange(p, p + 2), t.subrange(q, t.len() as int)]
                    {
                        &&& 0 <= p
                        &&& p + 2 < q < t.len()
                        &&& eq_ci(t.subrange(p, p + 2), "in"@)
                        &&& (forall|w2: int| p + 2 <= w2 < q ==> is_ws(#[trigger] t[w2]))
                        &&& str_views(e.locations@) == clean_tokens(
                            split_arrows(t.subrange(q, t.len() as int)),
                        )
                    }
            }),
            r matches Err(e2) ==> (e2 is Parser || e2 is Garbage || e2 is OutOfRange),
            r matches Err(DateParseError::OutOfRange(f)) ==> f == Field::UnixTimestamp,
            r matches Err(DateParseError::Garbage(g)) ==> exists|p: int|
                0 < p < trimmed(value@).len() && g@ == #[trigger] trimmed(value@).subrange(
                    p,
                    trimmed(value@).len() as int,
                ),
    {
        parse_input(value)
    }

    /// Returns the source location, if the expression names one.
    pub fn location(&self) -> (r: Option<&String>)
        ensures
            match r {
                Some(s) => self.locations@.len() > 0 && s@ == self.locations@[0]@,
                None => self.locations@.len() == 0,
            },
    {
        if self.locations.len() > 0 {
            Some(&self.locations[0])
        } else {
            None
        }
    }

    /// Returns the target locations: every location token after the first.
    pub fn to_locations(&self) -> (r: Vec<String>)
        ensures
            self.locations@.len() > 0 ==> r@.len() == self.locations@.len() - 1,
            self.locations@.len() == 0 ==> r@.len() == 0,
            forall|i: int| 0 <= i < r@.len() ==> (#[trigger] r@[i])@ == self.locations@[i + 1]@,
    {
        let mut r: Vec<String> = Vec::new();
        let mut i: usize = 1;
        while i < self.locations.len()
            invariant
                1 <= i <= self.locations@.len() || (self.locations@.len() == 0 && i == 1),
                self.locations@.len() > 0 ==> r@.len() == i - 1,
                self.locations@.len() == 0 ==> r@.len() == 0,
                forall|j: int| 0 <= j < r@.len() ==> (#[trigger] r@[j])@ == self.locations@[j + 1]@,
            decreases self.locations.len() - i,
        {
            let ghost old_r = r@;
            r.push(self.locations[i].clone());
            assert forall|j: int| 0 <= j < r@.len() implies (#[trigger] r@[j])@
                == self.locations@[j + 1]@ by {
                if j < old_r.len() {
                    assert(r@[j] == old_r[j]);
                }
            }
            i = i + 1;
        }
        r
    }

    /// Is this a relative expression: no absolute time-of-day, or a
    /// relative time or date offset?
    pub fn is_relative(&self) -> (r: bool)
        ensures
            r == ({
                ||| self.time_spec is None
                ||| self.time_spec matches Some(TimeSpec::Rel { .. })
                ||| self.date_spec matches Some(DateSpec::Rel { .. })
            }),
    {
        let t = match &self.time_spec {
            None => true,
            Some(TimeSpec::Rel { .. }) => true,
            Some(TimeSpec::Abs { .. }) => false,
        };
        let d = matches!(&self.date_spec, Some(DateSpec::Rel { .. }));
        t || d
    }
}

} // verus!
