//! The gazetteer and the zone resolver.
//!
//! A token such as `vie`, `Springfield, IL` or `america/new york` is matched
//! against the time-zone identifier list and the gazetteer with a fixed
//! precedence: identifier match (spaces as underscores), then a
//! "name, code" split at the last comma or space, then a plain name match,
//! then, for three-character tokens, an alias match. Matching is
//! ASCII-case-insensitive throughout, and the first record in table order
//! wins. `resolve_spec` is the exact mathematical model of this search.
use vstd::prelude::*;

use crate::text::chars_of;
use crate::text::eq_ci;
use crate::text::eq_ci_range;
use crate::text::lemma_eq_ci_equivalence;
use crate::text::lower_cp;
use crate::text::lower_cp_of;
use crate::text::str_eq;
use crate::text::str_eq_ci;
use crate::tz::host_local_zone;
use crate::tz::is_iana_zone;
use crate::tz::tz_names;

verus! {

/// The kind of place a zone reference points at.
#[derive(Clone, Copy, Debug, PartialEq, Eq, Structural)]
pub enum LocationKind {
    City,
    Timezone,
    Airport,
    Division,
}

/// One gazetteer record.
#[derive(Debug)]
pub struct Location {
    pub name: String,
    pub country: String,
    pub admin_code: Option<String>,
    pub aliases: Vec<String>,
    pub kind: LocationKind,
    pub tz: String,
}

/// The mathematical content of a gazetteer record.
pub struct LocationV {
    pub name: Seq<char>,
    pub country: Seq<char>,
    pub admin_code: Option<Seq<char>>,
    pub aliases: Seq<Seq<char>>,
    pub kind: LocationKind,
    pub tz: Seq<char>,
}

/// The characters of each string in `s`.
pub open spec fn str_views(s: Seq<String>) -> Seq<Seq<char>> {
    s.map_values(|x: String| x@)
}

impl View for Location {
    type V = LocationV;

    open spec fn view(&self) -> LocationV {
        LocationV {
            name: self.name@,
            country: self.country@,
            admin_code: match self.admin_code {
                Some(a) => Some(a@),
                None => None,
            },
            aliases: str_views(self.aliases@),
            kind: self.kind,
            tz: self.tz@,
        }
    }
}

/// A resolved zone: either a bare time-zone identifier or a gazetteer record.
#[derive(Debug)]
pub enum ZoneRef {
    Tz(String),
    Location(Location),
}

/// The mathematical content of a resolved zone.
pub enum ZoneRefV {
    Tz(Seq<char>),
    Location(LocationV),
}

impl View for ZoneRef {
    type V = ZoneRefV;

    open spec fn view(&self) -> ZoneRefV {
        match self {
            ZoneRef::Tz(n) => ZoneRefV::Tz(n@),
            ZoneRef::Location(l) => ZoneRefV::Location(l@),
        }
    }
}

/// The static directory the resolver searches: the identifier list, the
/// location records, the country table, and the host zone learned at
/// construction.
pub struct Gazetteer {
    pub zones: Vec<String>,
    pub locations: Vec<Location>,
    pub countries: Vec<(String, String)>,
    pub local_zone: Option<String>,
}

/// The mathematical content of a gazetteer.
pub struct GazetteerV {
    pub zones: Seq<Seq<char>>,
    pub locations: Seq<LocationV>,
    pub countries: Seq<(Seq<char>, Seq<char>)>,
    pub local_zone: Option<Seq<char>>,
}

impl View for Gazetteer {
    type V = GazetteerV;

    open spec fn view(&self) -> GazetteerV {
        GazetteerV {
            zones: str_views(self.zones@),
            locations: self.locations@.map_values(|l: Location| l@),
            countries: self.countries@.map_values(|c: (String, String)| (c.0@, c.1@)),
            local_zone: match self.local_zone {
                Some(l) => Some(l@),
                None => None,
            },
        }
    }
}

impl Gazetteer {
    /// A gazetteer over explicitly given tables.
    pub fn new(
        zones: Vec<String>,
        locations: Vec<Location>,
        countries: Vec<(String, String)>,
        local_zone: Option<String>,
    ) -> (g: Gazetteer)
        ensures
            g@.zones == str_views(zones@),
            g@.locations == locations@.map_values(|l: Location| l@),
            g@.countries == countries@.map_values(|c: (String, String)| (c.0@, c.1@)),
            g@.local_zone == match local_zone {
                Some(l) => Some(l@),
                None => None,
            },
    {
        let g = Gazetteer { zones, locations, countries, local_zone };
        g
    }

    /// A gazetteer whose identifier list comes from the time-zone database
    /// and whose host zone comes from the host configuration.
    pub fn from_host(locations: Vec<Location>, countries: Vec<(String, String)>) -> (g: Gazetteer)
        ensures
            g@.zones.len() > 0,
            forall|i: int| 0 <= i < g@.zones.len() ==> is_iana_zone(#[trigger] g@.zones[i]),
            g@.locations == locations@.map_values(|l: Location| l@),
            g@.countries == countries@.map_values(|c: (String, String)| (c.0@, c.1@)),
    {
        let zones = tz_names();
        let local_zone = host_local_zone();
        assert forall|i: int| 0 <= i < str_views(zones@).len() implies is_iana_zone(
            #[trigger] str_views(zones@)[i],
        ) by {
            assert(str_views(zones@)[i] == zones@[i]@);
        }
        Gazetteer { zones, locations, countries, local_zone }
    }
}

/// The first index of `s` satisfying `p`.
pub open spec fn first_match<T>(s: Seq<T>, p: spec_fn(T) -> bool) -> Option<int>
    decreases s.len(),
{
    if s.len() == 0 {
        None
    } else if p(s[0]) {
        Some(0)
    } else {
        match first_match(s.drop_first(), p) {
            Some(i) => Some(i + 1),
            None => None,
        }
    }
}

/// What `first_match` returns: the least index satisfying `p`, or nothing
/// when no index does.
pub proof fn lemma_first_match<T>(s: Seq<T>, p: spec_fn(T) -> bool)
    ensures
        match first_match(s, p) {
            Some(i) => 0 <= i < s.len() && p(s[i]) && forall|j: int| 0 <= j < i ==> !p(#[trigger] s[j]),
            None => forall|j: int| 0 <= j < s.len() ==> !p(#[trigger] s[j]),
        },
    decreases s.len(),
{
    if s.len() > 0 && !p(s[0]) {
        let t = s.drop_first();
        lemma_first_match(t, p);
        assert(forall|j: int| 0 <= j < t.len() ==> #[trigger] t[j] == s[j + 1]);
        match first_match(t, p) {
            Some(i) => {
                assert(p(t[i]));
                assert(t[i] == s[i + 1]);
                assert forall|j: int| 0 <= j < i + 1 implies !p(#[trigger] s[j]) by {
                    if j > 0 {
                        assert(t[j - 1] == s[j]);
                        assert(!p(t[j - 1]));
                    }
                }
            },
            None => {
                assert forall|j: int| 0 <= j < s.len() implies !p(#[trigger] s[j]) by {
                    if j > 0 {
                        assert(t[j - 1] == s[j]);
                        assert(!p(t[j - 1]));
                    }
                }
            },
        }
    }
}

/// `first_match` is determined by the least-index characterization.
pub proof fn lemma_first_match_is<T>(s: Seq<T>, p: spec_fn(T) -> bool, i: int)
    requires
        0 <= i < s.len(),
        p(s[i]),
        forall|j: int| 0 <= j < i ==> !p(#[trigger] s[j]),
    ensures
        first_match(s, p) == Some(i),
{
    lemma_first_match(s, p);
    match first_match(s, p) {
        Some(k) => {
            if k < i {
                assert(!p(s[k]));
            } else if k > i {
                assert(!p(s[i]));
            }
        },
        None => {
            assert(!p(s[i]));
        },
    }
}

/// The code point used when a token is matched against a time-zone
/// identifier: spaces count as underscores, letters fold to lower case.
pub open spec fn cp_us(c: char) -> int {
    if c == ' ' {
        95
    } else {
        lower_cp(c)
    }
}

/// Token `a` matches identifier `b` after space-to-underscore
/// normalization, ignoring ASCII case.
pub open spec fn eq_ci_us(a: Seq<char>, b: Seq<char>) -> bool {
    a.len() == b.len() && forall|i: int|
        0 <= i < a.len() ==> cp_us(a[i]) == lower_cp(#[trigger] b[i])
}

/// The whitespace stripped around the parts of a split token.
pub open spec fn is_ws(c: char) -> bool {
    c == ' ' || c == '\t'
}

/// `s` without trailing whitespace.
pub open spec fn trim_end_spec(s: Seq<char>) -> Seq<char>
    decreases s.len(),
{
    if s.len() > 0 && is_ws(s.last()) {
        trim_end_spec(s.drop_last())
    } else {
        s
    }
}

/// `s` without leading whitespace.
pub open spec fn trim_start_spec(s: Seq<char>) -> Seq<char>
    decreases s.len(),
{
    if s.len() > 0 && is_ws(s[0]) {
        trim_start_spec(s.drop_first())
    } else {
        s
    }
}

/// The last index at which `c` occurs in `s`.
pub open spec fn last_index_of(s: Seq<char>, c: char) -> Option<int>
    decreases s.len(),
{
    if s.len() == 0 {
        None
    } else if s.last() == c {
        Some(s.len() - 1)
    } else {
        last_index_of(s.drop_last(), c)
    }
}

/// What `last_index_of` returns: the greatest index holding `c`, or
/// nothing when no index does.
pub proof fn lemma_last_index_of(s: Seq<char>, c: char)
    ensures
        match last_index_of(s, c) {
            Some(k) => 0 <= k < s.len() && s[k] == c && forall|j: int|
                k < j < s.len() ==> #[trigger] s[j] != c,
            None => forall|j: int| 0 <= j < s.len() ==> #[trigger] s[j] != c,
        },
    decreases s.len(),
{
    if s.len() > 0 && s.last() != c {
        let t = s.drop_last();
        lemma_last_index_of(t, c);
        assert(forall|j: int| 0 <= j < t.len() ==> #[trigger] t[j] == s[j]);
        match last_index_of(t, c) {
            Some(k) => {
                assert(s[k] == t[k]);
                assert forall|j: int| k < j < s.len() implies #[trigger] s[j] != c by {
                    if j < s.len() - 1 {
                        assert(t[j] != c);
                    }
                }
            },
            None => {
                assert forall|j: int| 0 <= j < s.len() implies #[trigger] s[j] != c by {
                    if j < s.len() - 1 {
                        assert(t[j] != c);
                    }
                }
            },
        }
    }
}

/// `last_index_of` is determined by the greatest-index characterization.
pub proof fn lemma_last_index_of_is(s: Seq<char>, c: char, k: int)
    requires
        0 <= k < s.len(),
        s[k] == c,
        forall|j: int| k < j < s.len() ==> #[trigger] s[j] != c,
    ensures
        last_index_of(s, c) == Some(k),
{
    lemma_last_index_of(s, c);
    match last_index_of(s, c) {
        Some(m) => {
            if m < k {
                assert(s[k] != c);
            } else if m > k {
                assert(s[m] != c);
            }
        },
        None => {
            assert(s[k] != c);
        },
    }
}

/// Token matches a record's display name.
pub open spec fn name_matches(t: Seq<char>, l: LocationV) -> bool {
    eq_ci(t, l.name)
}

/// Code part matches a record's country code or admin code.
pub open spec fn code_matches(code: Seq<char>, l: LocationV) -> bool {
    eq_ci(code, l.country) || match l.admin_code {
        Some(a) => eq_ci(code, a),
        None => false,
    }
}

/// Token matches one of a record's aliases.
pub open spec fn alias_matches(t: Seq<char>, l: LocationV) -> bool {
    exists|i: int| 0 <= i < l.aliases.len() && eq_ci(t, #[trigger] l.aliases[i])
}

/// The identifier-match predicate for token `t`.
pub open spec fn pred_tz(t: Seq<char>) -> spec_fn(Seq<char>) -> bool {
    |z: Seq<char>| eq_ci_us(t, z)
}

/// The plain-name predicate for token `t`.
pub open spec fn pred_name(t: Seq<char>) -> spec_fn(LocationV) -> bool {
    |l: LocationV| name_matches(t, l)
}

/// The split "name, code" predicate.
pub open spec fn pred_name_code(n: Seq<char>, code: Seq<char>) -> spec_fn(LocationV) -> bool {
    |l: LocationV| name_matches(n, l) && code_matches(code, l)
}

/// The alias predicate for token `t`.
pub open spec fn pred_alias(t: Seq<char>) -> spec_fn(LocationV) -> bool {
    |l: LocationV| alias_matches(t, l)
}

/// The record found by splitting `t` at the last `delim` into a name part
/// (trailing whitespace dropped) and a code part (leading whitespace
/// dropped).
pub open spec fn split_match(g: GazetteerV, t: Seq<char>, delim: char) -> Option<int> {
    match last_index_of(t, delim) {
        None => None,
        Some(k) => first_match(
            g.locations,
            pred_name_code(
                trim_end_spec(t.subrange(0, k)),
                trim_start_spec(t.subrange(k + 1, t.len() as int)),
            ),
        ),
    }
}

/// The zone a token denotes: the full resolution precedence, first match
/// in table order at each step.
pub open spec fn resolve_spec(g: GazetteerV, t: Seq<char>) -> Option<ZoneRefV> {
    match first_match(g.zones, pred_tz(t)) {
        Some(i) => Some(ZoneRefV::Tz(g.zones[i])),
        None => match split_match(g, t, ',') {
            Some(i) => Some(ZoneRefV::Location(g.locations[i])),
            None => match split_match(g, t, ' ') {
                Some(i) => Some(ZoneRefV::Location(g.locations[i])),
                None => match first_match(g.locations, pred_name(t)) {
                    Some(i) => Some(ZoneRefV::Location(g.locations[i])),
                    None => if t.len() == 3 {
                        match first_match(g.locations, pred_alias(t)) {
                            Some(i) => Some(ZoneRefV::Location(g.locations[i])),
                            None => None,
                        }
                    } else {
                        None
                    },
                },
            },
        },
    }
}

/// Predicates equal on every element of `s` give the same first match.
pub proof fn lemma_first_match_congruent<T>(s: Seq<T>, p: spec_fn(T) -> bool, q: spec_fn(T) -> bool)
    requires
        forall|j: int| 0 <= j < s.len() ==> p(#[trigger] s[j]) == q(s[j]),
    ensures
        first_match(s, p) == first_match(s, q),
    decreases s.len(),
{
    if s.len() > 0 {
        lemma_first_match_congruent(s.drop_first(), p, q);
        assert forall|j: int| 0 <= j < s.len() - 1 implies s.drop_first()[j] == s[j + 1] by {}
    }
}

/// Executable form of `cp_us`.
fn cp_us_of(c: char) -> (r: u32)
    ensures
        r == cp_us(c),
{
    if c == ' ' {
        95
    } else {
        lower_cp_of(c)
    }
}

/// Executable form of `is_ws`.
fn is_ws_char(c: char) -> (r: bool)
    ensures
        r == is_ws(c),
{
    c == ' ' || c == '\t'
}

/// Identifier comparison of the whole token `v` against `s`.
fn eq_ci_us_vec(v: &Vec<char>, s: &str) -> (r: bool)
    ensures
        r == eq_ci_us(v@, s@),
{
    let n = s.unicode_len();
    if n != v.len() {
        return false;
    }
    let mut i: usize = 0;
    while i < n
        invariant
            n == s@.len(),
            n == v@.len(),
            i <= n,
            forall|j: int| 0 <= j < i ==> cp_us(v@[j]) == lower_cp(#[trigger] s@[j]),
        decreases n - i,
    {
        let a = cp_us_of(v[i]);
        let b = lower_cp_of(s.get_char(i));
        if a != b {
            return false;
        }
        i = i + 1;
    }
    true
}

/// Last occurrence of `c` in `v`.
fn last_index_exec(v: &Vec<char>, c: char) -> (r: Option<usize>)
    ensures
        match r {
            Some(k) => last_index_of(v@, c) == Some(k as int) && k < v.len(),
            None => last_index_of(v@, c) is None,
        },
{
    let mut i: usize = v.len();
    while i > 0
        invariant
            i <= v.len(),
            forall|j: int| i <= j < v@.len() ==> #[trigger] v@[j] != c,
        decreases i,
    {
        i = i - 1;
        if v[i] == c {
            proof {
                lemma_last_index_of_is(v@, c, i as int);
            }
            return Some(i);
        }
    }
    proof {
        lemma_last_index_of(v@, c);
    }
    None
}

/// The end of `v[..hi]` with trailing whitespace dropped.
pub(crate) fn trim_end_to(v: &Vec<char>, hi: usize) -> (r: usize)
    requires
        hi <= v.len(),
    ensures
        r <= hi,
        v@.subrange(0, r as int) == trim_end_spec(v@.subrange(0, hi as int)),
        r > 0 ==> !is_ws(v@[r - 1]),
        forall|j: int| r <= j < hi ==> is_ws(#[trigger] v@[j]),
{
    let mut r: usize = hi;
    while r > 0 && is_ws_char(v[r - 1])
        invariant
            r <= hi <= v.len(),
            trim_end_spec(v@.subrange(0, r as int)) == trim_end_spec(v@.subrange(0, hi as int)),
            forall|j: int| r <= j < hi ==> is_ws(#[trigger] v@[j]),
        decreases r,
    {
        proof {
            let s = v@.subrange(0, r as int);
            assert(s.last() == v@[r - 1]);
            assert(s.drop_last() =~= v@.subrange(0, r as int - 1));
        }
        r = r - 1;
    }
    proof {
        let s = v@.subrange(0, r as int);
        if r > 0 {
            assert(s.last() == v@[r - 1]);
        }
        assert(trim_end_spec(s) == s);
    }
    r
}

/// The start of `v[lo..hi]` with leading whitespace dropped.
pub(crate) fn trim_start_from(v: &Vec<char>, lo: usize, hi: usize) -> (r: usize)
    requires
        lo <= hi <= v.len(),
    ensures
        lo <= r <= hi,
        v@.subrange(r as int, hi as int) == trim_start_spec(v@.subrange(lo as int, hi as int)),
        r < hi ==> !is_ws(v@[r as int]),
        forall|j: int| lo <= j < r ==> is_ws(#[trigger] v@[j]),
{
    let mut r: usize = lo;
    while r < hi && is_ws_char(v[r])
        invariant
            lo <= r <= hi <= v.len(),
            trim_start_spec(v@.subrange(r as int, hi as int)) == trim_start_spec(
                v@.subrange(lo as int, hi as int),
            ),
            forall|j: int| lo <= j < r ==> is_ws(#[trigger] v@[j]),
        decreases hi - r,
    {
        proof {
            let s = v@.subrange(r as int, hi as int);
            assert(s[0] == v@[r as int]);
            assert(s.drop_first() =~= v@.subrange(r as int + 1, hi as int));
        }
        r = r + 1;
    }
    proof {
        let s = v@.subrange(r as int, hi as int);
        if r < hi {
            assert(s[0] == v@[r as int]);
        }
        assert(trim_start_spec(s) == s);
    }
    r
}

/// A copy of a string vector, equal at the view level.
fn clone_string_vec(v: &Vec<String>) -> (r: Vec<String>)
    ensures
        r@ == v@,
{
    let mut r: Vec<String> = Vec::new();
    let mut i: usize = 0;
    while i < v.len()
        invariant
            i <= v.len(),
            r@ == v@.subrange(0, i as int),
        decreases v.len() - i,
    {
        r.push(v[i].clone());
        i = i + 1;
        proof {
            assert(r@ =~= v@.subrange(0, i as int));
        }
    }
    proof {
        assert(r@ =~= v@);
    }
    r
}

impl Location {
    /// A copy of this record, equal at the view level.
    pub fn duplicate(&self) -> (r: Location)
        ensures
            r@ == self@,
    {
        let r = Location {
            name: self.name.clone(),
            country: self.country.clone(),
            admin_code: match &self.admin_code {
                Some(a) => Some(a.clone()),
                None => None,
            },
            aliases: clone_string_vec(&self.aliases),
            kind: self.kind,
            tz: self.tz.clone(),
        };
        r
    }
}

impl ZoneRef {
    /// A copy of this reference, equal at the view level.
    pub fn duplicate(&self) -> (r: ZoneRef)
        ensures
            r@ == self@,
    {
        match self {
            ZoneRef::Tz(n) => ZoneRef::Tz(n.clone()),
            ZoneRef::Location(l) => ZoneRef::Location(l.duplicate()),
        }
    }
}

/// Whether record `l` matches the split parts `v[nlo..nhi]` (name) and
/// `v[clo..chi]` (country or admin code).
fn match_name_code(l: &Location, v: &Vec<char>, nlo: usize, nhi: usize, clo: usize, chi: usize) -> (r:
    bool)
    requires
        nlo <= nhi <= v.len(),
        clo <= chi <= v.len(),
    ensures
        r == (name_matches(v@.subrange(nlo as int, nhi as int), l@) && code_matches(
            v@.subrange(clo as int, chi as int),
            l@,
        )),
{
    if !eq_ci_range(v, nlo, nhi, self_name(l)) {
        return false;
    }
    if eq_ci_range(v, clo, chi, self_country(l)) {
        return true;
    }
    match &l.admin_code {
        Some(a) => eq_ci_range(v, clo, chi, a.as_str()),
        None => false,
    }
}

/// The display name of a record, as a slice.
fn self_name(l: &Location) -> (r: &str)
    ensures
        r@ == l@.name,
{
    l.name.as_str()
}

/// The country code of a record, as a slice.
fn self_country(l: &Location) -> (r: &str)
    ensures
        r@ == l@.country,
{
    l.country.as_str()
}

/// First identifier in the zone list matching token `v`.
fn find_tz_idx(gaz: &Gazetteer, v: &Vec<char>) -> (r: Option<usize>)
    ensures
        match r {
            Some(i) => first_match(gaz@.zones, pred_tz(v@)) == Some(i as int) && i < gaz.zones.len(),
            None => first_match(gaz@.zones, pred_tz(v@)) is None,
        },
{
    let mut i: usize = 0;
    while i < gaz.zones.len()
        invariant
            i <= gaz.zones.len(),
            gaz@.zones.len() == gaz.zones@.len(),
            forall|j: int| 0 <= j < i ==> !pred_tz(v@)(#[trigger] gaz@.zones[j]),
        decreases gaz.zones.len() - i,
    {
        assert(gaz@.zones[i as int] == gaz.zones@[i as int]@);
        if eq_ci_us_vec(v, gaz.zones[i].as_str()) {
            proof {
                lemma_first_match_is(gaz@.zones, pred_tz(v@), i as int);
            }
            return Some(i);
        }
        i = i + 1;
    }
    proof {
        lemma_first_match(gaz@.zones, pred_tz(v@));
    }
    None
}

/// First record matching the split parts.
fn find_name_code_idx(gaz: &Gazetteer, v: &Vec<char>, nlo: usize, nhi: usize, clo: usize, chi: usize)
    -> (r: Option<usize>)
    requires
        nlo <= nhi <= v.len(),
        clo <= chi <= v.len(),
    ensures
        ({
            let p = pred_name_code(
                v@.subrange(nlo as int, nhi as int),
                v@.subrange(clo as int, chi as int),
            );
            match r {
                Some(i) => first_match(gaz@.locations, p) == Some(i as int) && i
                    < gaz.locations.len(),
                None => first_match(gaz@.locations, p) is None,
            }
        }),
{
    let ghost p = pred_name_code(
        v@.subrange(nlo as int, nhi as int),
        v@.subrange(clo as int, chi as int),
    );
    let mut i: usize = 0;
    while i < gaz.locations.len()
        invariant
            i <= gaz.locations.len(),
            gaz@.locations.len() == gaz.locations@.len(),
            nlo <= nhi <= v.len(),
            clo <= chi <= v.len(),
            p == pred_name_code(
                v@.subrange(nlo as int, nhi as int),
                v@.subrange(clo as int, chi as int),
            ),
            forall|j: int| 0 <= j < i ==> !p(#[trigger] gaz@.locations[j]),
        decreases gaz.locations.len() - i,
    {
        assert(gaz@.locations[i as int] == gaz.locations@[i as int]@);
        if match_name_code(&gaz.locations[i], v, nlo, nhi, clo, chi) {
            proof {
                lemma_first_match_is(gaz@.locations, p, i as int);
            }
            return Some(i);
        }
        i = i + 1;
    }
    proof {
        lemma_first_match(gaz@.locations, p);
    }
    None
}

/// First record whose display name matches the whole token.
fn find_name_idx(gaz: &Gazetteer, v: &Vec<char>) -> (r: Option<usize>)
    ensures
        match r {
            Some(i) => first_match(gaz@.locations, pred_name(v@)) == Some(i as int) && i
                < gaz.locations.len(),
            None => first_match(gaz@.locations, pred_name(v@)) is None,
        },
{
    let mut i: usize = 0;
    while i < gaz.locations.len()
        invariant
            i <= gaz.locations.len(),
            gaz@.locations.len() == gaz.locations@.len(),
            forall|j: int| 0 <= j < i ==> !pred_name(v@)(#[trigger] gaz@.locations[j]),
        decreases gaz.locations.len() - i,
    {
        assert(gaz@.locations[i as int] == gaz.locations@[i as int]@);
        assert(v@.subrange(0, v@.len() as int) =~= v@);
        if eq_ci_range(v, 0, v.len(), self_name(&gaz.locations[i])) {
            proof {
                lemma_first_match_is(gaz@.locations, pred_name(v@), i as int);
            }
            return Some(i);
        }
        i = i + 1;
    }
    proof {
        lemma_first_match(gaz@.locations, pred_name(v@));
    }
    None
}

/// Whether any alias of `l` matches the whole token.
fn match_alias(l: &Location, v: &Vec<char>) -> (r: bool)
    ensures
        r == alias_matches(v@, l@),
{
    let mut j: usize = 0;
    while j < l.aliases.len()
        invariant
            j <= l.aliases.len(),
            forall|k: int| 0 <= k < j ==> !eq_ci(v@, #[trigger] l@.aliases[k]),
            l@.aliases.len() == l.aliases@.len(),
        decreases l.aliases.len() - j,
    {
        assert(l@.aliases[j as int] == l.aliases@[j as int]@);
        assert(v@.subrange(0, v@.len() as int) =~= v@);
        if eq_ci_range(v, 0, v.len(), l.aliases[j].as_str()) {
            return true;
        }
        j = j + 1;
    }
    false
}

/// First record one of whose aliases matches the whole token.
fn find_alias_idx(gaz: &Gazetteer, v: &Vec<char>) -> (r: Option<usize>)
    ensures
        match r {
            Some(i) => first_match(gaz@.locations, pred_alias(v@)) == Some(i as int) && i
                < gaz.locations.len(),
            None => first_match(gaz@.locations, pred_alias(v@)) is None,
        },
{
    let mut i: usize = 0;
    while i < gaz.locations.len()
        invariant
            i <= gaz.locations.len(),
            gaz@.locations.len() == gaz.locations@.len(),
            forall|j: int| 0 <= j < i ==> !pred_alias(v@)(#[trigger] gaz@.locations[j]),
        decreases gaz.locations.len() - i,
    {
        assert(gaz@.locations[i as int] == gaz.locations@[i as int]@);
        if match_alias(&gaz.locations[i], v) {
            proof {
                lemma_first_match_is(gaz@.locations, pred_alias(v@), i as int);
            }
            return Some(i);
        }
        i = i + 1;
    }
    proof {
        lemma_first_match(gaz@.locations, pred_alias(v@));
    }
    None
}

/// Resolution of an already-normalized token (no `local` handling).
fn resolve_token(gaz: &Gazetteer, v: &Vec<char>) -> (r: Option<ZoneRef>)
    ensures
        match r {
            Some(z) => resolve_spec(gaz@, v@) == Some(z@),
            None => resolve_spec(gaz@, v@) is None,
        },
{
    if let Some(i) = find_tz_idx(gaz, v) {
        assert(gaz@.zones[i as int] == gaz.zones@[i as int]@);
        return Some(ZoneRef::Tz(gaz.zones[i].clone()));
    }
    if let Some(k) = last_index_exec(v, ',') {
        let nhi = trim_end_to(v, k);
        let clo = trim_start_from(v, k + 1, v.len());
        if let Some(i) = find_name_code_idx(gaz, v, 0, nhi, clo, v.len()) {
            assert(gaz@.locations[i as int] == gaz.locations@[i as int]@);
            return Some(ZoneRef::Location(gaz.locations[i].duplicate()));
        }
    }
    if let Some(k) = last_index_exec(v, ' ') {
        let nhi = trim_end_to(v, k);
        let clo = trim_start_from(v, k + 1, v.len());
        if let Some(i) = find_name_code_idx(gaz, v, 0, nhi, clo, v.len()) {
            assert(gaz@.locations[i as int] == gaz.locations@[i as int]@);
            return Some(ZoneRef::Location(gaz.locations[i].duplicate()));
        }
    }
    if let Some(i) = find_name_idx(gaz, v) {
        assert(gaz@.locations[i as int] == gaz.locations@[i as int]@);
        return Some(ZoneRef::Location(gaz.locations[i].duplicate()));
    }
    if v.len() == 3 {
        if let Some(i) = find_alias_idx(gaz, v) {
            assert(gaz@.locations[i as int] == gaz.locations@[i as int]@);
            return Some(ZoneRef::Location(gaz.locations[i].duplicate()));
        }
    }
    None
}

/// The country-table predicate for country code `code`.
pub open spec fn pred_country(code: Seq<char>) -> spec_fn((Seq<char>, Seq<char>)) -> bool {
    |c: (Seq<char>, Seq<char>)| c.0 == code
}

/// The country name mapped to `code`: the first country-table entry whose
/// code is exactly `code`. The table's builder keeps it sorted by code
/// with unique codes, so the first match is the only one.
pub open spec fn country_lookup(cs: Seq<(Seq<char>, Seq<char>)>, code: Seq<char>) -> Option<
    Seq<char>,
> {
    match first_match(cs, pred_country(code)) {
        Some(i) => Some(cs[i].1),
        None => None,
    }
}

/// The canonical spellings of the UTC zone.
pub open spec fn is_utc_name(n: Seq<char>) -> bool {
    ||| n == "Universal"@
    ||| n == "UTC"@
    ||| n == "UCT"@
    ||| n == "Zulu"@
    ||| n == "Etc/Universal"@
    ||| n == "Etc/UCT"@
    ||| n == "Etc/UTC"@
    ||| n == "Etc/Zulu"@
}

impl ZoneRef {
    /// The display name of this reference.
    pub open spec fn name_spec(&self) -> Seq<char> {
        match self@ {
            ZoneRefV::Tz(n) => n,
            ZoneRefV::Location(l) => l.name,
        }
    }

    /// The time-zone identifier this reference converts through.
    pub open spec fn tz_spec(&self) -> Seq<char> {
        match self@ {
            ZoneRefV::Tz(n) => n,
            ZoneRefV::Location(l) => l.tz,
        }
    }

    /// The kind of place this reference points at.
    pub open spec fn kind_spec(&self) -> LocationKind {
        match self@ {
            ZoneRefV::Tz(_) => LocationKind::Timezone,
            ZoneRefV::Location(l) => l.kind,
        }
    }

    /// Returns the name of the zone reference.
    ///
    /// For actual timezones that is the IANA name; for cities and airports
    /// it is the name of the location.
    pub fn name(&self) -> (r: &str)
        ensures
            r@ == self.name_spec(),
    {
        match self {
            ZoneRef::Tz(n) => n.as_str(),
            ZoneRef::Location(l) => l.name.as_str(),
        }
    }

    /// Returns the time-zone identifier used for all conversions.
    pub fn tz(&self) -> (r: &str)
        ensures
            r@ == self.tz_spec(),
    {
        match self {
            ZoneRef::Tz(n) => n.as_str(),
            ZoneRef::Location(l) => l.tz.as_str(),
        }
    }

    /// Returns the kind of location.
    pub fn kind(&self) -> (r: LocationKind)
        ensures
            r == self.kind_spec(),
    {
        match self {
            ZoneRef::Tz(_) => LocationKind::Timezone,
            ZoneRef::Location(l) => l.kind,
        }
    }

    /// True if this zone is the UTC zone under one of its canonical names.
    ///
    /// Note that this differs from asking whether the zone is currently at
    /// UTC+0.
    pub fn is_utc(&self) -> (r: bool)
        ensures
            r == is_utc_name(self.tz_spec()),
    {
        let t = self.tz();
        str_eq(t, "Universal") || str_eq(t, "UTC") || str_eq(t, "UCT") || str_eq(t, "Zulu")
            || str_eq(t, "Etc/Universal") || str_eq(t, "Etc/UCT") || str_eq(t, "Etc/UTC")
            || str_eq(t, "Etc/Zulu")
    }

    /// If the zone has an admin code, returns it.
    pub fn admin_code(&self) -> (r: Option<&String>)
        ensures
            match r {
                Some(a) => self@ matches ZoneRefV::Location(l) && l.admin_code == Some(a@),
                None => match self@ {
                    ZoneRefV::Tz(_) => true,
                    ZoneRefV::Location(l) => l.admin_code is None,
                },
            },
    {
        match self {
            ZoneRef::Tz(_) => None,
            ZoneRef::Location(l) => match &l.admin_code {
                Some(a) => Some(a),
                None => None,
            },
        }
    }

    /// If this reference points at a gazetteer record, the record's country
    /// name per the country table.
    pub fn country(&self, gaz: &Gazetteer) -> (r: Option<String>)
        ensures
            match self@ {
                ZoneRefV::Tz(_) => r is None,
                ZoneRefV::Location(l) => match r {
                    Some(n) => country_lookup(gaz@.countries, l.country) == Some(n@),
                    None => country_lookup(gaz@.countries, l.country) is None,
                },
            },
    {
        let code: &str = match self {
            ZoneRef::Tz(_) => {
                return None;
            },
            ZoneRef::Location(l) => l.country.as_str(),
        };
        let ghost p = pred_country(code@);
        let mut i: usize = 0;
        while i < gaz.countries.len()
            invariant
                i <= gaz.countries.len(),
                gaz@.countries.len() == gaz.countries@.len(),
                p == pred_country(code@),
                match self@ {
                    ZoneRefV::Tz(_) => false,
                    ZoneRefV::Location(l) => l.country == code@,
                },
                forall|j: int| 0 <= j < i ==> !p(#[trigger] gaz@.countries[j]),
            decreases gaz.countries.len() - i,
        {
            assert(gaz@.countries[i as int] == (gaz.countries@[i as int].0@, gaz.countries@[
                i as int].1@));
            if str_eq(gaz.countries[i].0.as_str(), code) {
                proof {
                    lemma_first_match_is(gaz@.countries, p, i as int);
                }
                return Some(gaz.countries[i].1.clone());
            }
            i = i + 1;
        }
        proof {
            lemma_first_match(gaz@.countries, p);
        }
        None
    }
}

impl ZoneRef {
    /// The display form: a bare identifier shows as itself; a gazetteer
    /// record shows as `name[, admin_code][; country]`.
    pub open spec fn display_spec(&self, g: GazetteerV) -> Seq<char> {
        match self@ {
            ZoneRefV::Tz(n) => n,
            ZoneRefV::Location(l) => if l.kind == LocationKind::Timezone {
                l.name
            } else {
                let with_code = match l.admin_code {
                    Some(a) => l.name + ", "@ + a,
                    None => l.name,
                };
                match country_lookup(g.countries, l.country) {
                    Some(cn) => with_code + "; "@ + cn,
                    None => with_code,
                }
            },
        }
    }

    /// Renders this reference for output.
    pub fn display(&self, gaz: &Gazetteer) -> (r: String)
        ensures
            r@ == self.display_spec(gaz@),
    {
        let mut s = String::new();
        s.append(self.name());
        if self.kind() == LocationKind::Timezone {
            proof {
                assert(s@ =~= self.display_spec(gaz@));
            }
            return s;
        }
        match self.admin_code() {
            Some(code) => {
                s.append(", ");
                s.append(code.as_str());
            },
            None => {},
        }
        match self.country(gaz) {
            Some(cn) => {
                s.append("; ");
                s.append(cn.as_str());
            },
            None => {},
        }
        proof {
            assert(s@ =~= self.display_spec(gaz@));
        }
        s
    }
}

/// The token a zone lookup actually searches for: `local` (in any case) is
/// replaced by the gazetteer's host zone, with `UTC` as the fallback.
pub open spec fn effective_token(g: GazetteerV, t: Seq<char>) -> Seq<char> {
    if eq_ci(t, "local"@) {
        match g.local_zone {
            Some(l) => l,
            None => "UTC"@,
        }
    } else {
        t
    }
}

/// Tries to locate a zone by name.
pub fn find_zone(gaz: &Gazetteer, name: &str) -> (r: Option<ZoneRef>)
    ensures
        match r {
            Some(z) => resolve_spec(gaz@, effective_token(gaz@, name@)) == Some(z@),
            None => resolve_spec(gaz@, effective_token(gaz@, name@)) is None,
        },
{
    let v: Vec<char> = if str_eq_ci(name, "local") {
        match &gaz.local_zone {
            Some(l) => chars_of(l.as_str()),
            None => chars_of("UTC"),
        }
    } else {
        chars_of(name)
    };
    assert(v@ == effective_token(gaz@, name@));
    resolve_token(gaz, &v)
}

/// `lower_cp` moves only letters, so it pins every non-letter character:
/// equal folded code points mean the character positions of `,`, ` ` and
/// `\t` agree in case-equivalent tokens.
proof fn lemma_lower_cp_pins(a: char, b: char)
    requires
        lower_cp(a) == lower_cp(b),
    ensures
        (a == ',') == (b == ','),
        (a == ' ') == (b == ' '),
        is_ws(a) == is_ws(b),
{
}

/// Case-equivalent tokens match the same identifiers.
proof fn lemma_eq_ci_us_congruent(a: Seq<char>, b: Seq<char>, z: Seq<char>)
    requires
        eq_ci(a, b),
    ensures
        eq_ci_us(a, z) == eq_ci_us(b, z),
{
    assert forall|i: int| 0 <= i < a.len() implies cp_us(a[i]) == cp_us(#[trigger] b[i]) by {
        lemma_lower_cp_pins(a[i], b[i]);
    }
}

/// Case-equivalent tokens split at the same place.
proof fn lemma_last_index_congruent(a: Seq<char>, b: Seq<char>, c: char)
    requires
        eq_ci(a, b),
        c == ',' || c == ' ',
    ensures
        last_index_of(a, c) == last_index_of(b, c),
    decreases a.len(),
{
    if a.len() > 0 {
        lemma_lower_cp_pins(a.last(), b.last());
        if a.last() != c {
            assert(eq_ci(a.drop_last(), b.drop_last()));
            lemma_last_index_congruent(a.drop_last(), b.drop_last(), c);
        }
    }
}

/// Subranges of case-equivalent tokens are case-equivalent.
proof fn lemma_eq_ci_subrange(a: Seq<char>, b: Seq<char>, lo: int, hi: int)
    requires
        eq_ci(a, b),
        0 <= lo <= hi <= a.len(),
    ensures
        eq_ci(a.subrange(lo, hi), b.subrange(lo, hi)),
{
    assert forall|i: int| 0 <= i < hi - lo implies lower_cp(a.subrange(lo, hi)[i]) == lower_cp(
        #[trigger] b.subrange(lo, hi)[i],
    ) by {
        assert(a.subrange(lo, hi)[i] == a[lo + i]);
        assert(b.subrange(lo, hi)[i] == b[lo + i]);
    }
}

/// Trimming preserves case-equivalence.
proof fn lemma_trim_congruent(a: Seq<char>, b: Seq<char>)
    requires
        eq_ci(a, b),
    ensures
        eq_ci(trim_end_spec(a), trim_end_spec(b)),
        eq_ci(trim_start_spec(a), trim_start_spec(b)),
    decreases a.len(),
{
    if a.len() > 0 {
        lemma_lower_cp_pins(a.last(), b.last());
        lemma_lower_cp_pins(a[0], b[0]);
        assert(eq_ci(a.drop_last(), b.drop_last()));
        assert forall|i: int| 0 <= i < a.len() - 1 implies lower_cp(a.drop_first()[i]) == lower_cp(
            #[trigger] b.drop_first()[i],
        ) by {
            assert(a.drop_first()[i] == a[i + 1]);
            assert(b.drop_first()[i] == b[i + 1]);
        }
        assert(eq_ci(a.drop_first(), b.drop_first()));
        lemma_trim_congruent(a.drop_last(), b.drop_last());
        lemma_trim_congruent(a.drop_first(), b.drop_first());
    }
}

/// Case-equivalent tokens satisfy the same record predicates.
proof fn lemma_preds_congruent(a: Seq<char>, b: Seq<char>, l: LocationV)
    requires
        eq_ci(a, b),
    ensures
        name_matches(a, l) == name_matches(b, l),
        code_matches(a, l) == code_matches(b, l),
        alias_matches(a, l) == alias_matches(b, l),
{
    lemma_eq_ci_equivalence(a, b, l.name);
    lemma_eq_ci_equivalence(b, a, l.name);
    lemma_eq_ci_equivalence(a, b, l.country);
    lemma_eq_ci_equivalence(b, a, l.country);
    match l.admin_code {
        Some(ac) => {
            lemma_eq_ci_equivalence(a, b, ac);
            lemma_eq_ci_equivalence(b, a, ac);
        },
        None => {},
    }
    assert forall|i: int| 0 <= i < l.aliases.len() implies eq_ci(a, #[trigger] l.aliases[i])
        == eq_ci(b, l.aliases[i]) by {
        lemma_eq_ci_equivalence(a, b, l.aliases[i]);
        lemma_eq_ci_equivalence(b, a, l.aliases[i]);
    }
}

/// Case-equivalent tokens give the same split match.
proof fn lemma_split_match_congruent(g: GazetteerV, a: Seq<char>, b: Seq<char>, c: char)
    requires
        eq_ci(a, b),
        c == ',' || c == ' ',
    ensures
        split_match(g, a, c) == split_match(g, b, c),
{
    lemma_last_index_congruent(a, b, c);
    match last_index_of(a, c) {
        None => {},
        Some(k) => {
            lemma_last_index_of(a, c);
            lemma_eq_ci_subrange(a, b, 0, k);
            lemma_eq_ci_subrange(a, b, k + 1, a.len() as int);
            let na = trim_end_spec(a.subrange(0, k));
            let nb = trim_end_spec(b.subrange(0, k));
            let ca = trim_start_spec(a.subrange(k + 1, a.len() as int));
            let cb = trim_start_spec(b.subrange(k + 1, b.len() as int));
            lemma_trim_congruent(a.subrange(0, k), b.subrange(0, k));
            lemma_trim_congruent(
                a.subrange(k + 1, a.len() as int),
                b.subrange(k + 1, b.len() as int),
            );
            assert forall|j: int| 0 <= j < g.locations.len() implies pred_name_code(na, ca)(
                #[trigger] g.locations[j],
            ) == pred_name_code(nb, cb)(g.locations[j]) by {
                lemma_preds_congruent(na, nb, g.locations[j]);
                lemma_preds_congruent(ca, cb, g.locations[j]);
            }
            lemma_first_match_congruent(g.locations, pred_name_code(na, ca), pred_name_code(nb, cb));
        },
    }
}

/// Resolution is ASCII-case-insensitive: tokens equal up to case resolve
/// to the same reference.
pub proof fn lemma_resolve_case_insensitive(g: GazetteerV, a: Seq<char>, b: Seq<char>)
    requires
        eq_ci(a, b),
    ensures
        resolve_spec(g, a) == resolve_spec(g, b),
{
    assert forall|j: int| 0 <= j < g.zones.len() implies pred_tz(a)(#[trigger] g.zones[j])
        == pred_tz(b)(g.zones[j]) by {
        lemma_eq_ci_us_congruent(a, b, g.zones[j]);
    }
    lemma_first_match_congruent(g.zones, pred_tz(a), pred_tz(b));
    lemma_split_match_congruent(g, a, b, ',');
    lemma_split_match_congruent(g, a, b, ' ');
    assert forall|j: int| 0 <= j < g.locations.len() implies pred_name(a)(
        #[trigger] g.locations[j],
    ) == pred_name(b)(g.locations[j]) by {
        lemma_preds_congruent(a, b, g.locations[j]);
    }
    lemma_first_match_congruent(g.locations, pred_name(a), pred_name(b));
    assert forall|j: int| 0 <= j < g.locations.len() implies pred_alias(a)(
        #[trigger] g.locations[j],
    ) == pred_alias(b)(g.locations[j]) by {
        lemma_preds_congruent(a, b, g.locations[j]);
    }
    lemma_first_match_congruent(g.locations, pred_alias(a), pred_alias(b));
}

/// The full lookup, `local` handling included, is case-insensitive.
pub proof fn lemma_find_zone_case_insensitive(g: GazetteerV, a: Seq<char>, b: Seq<char>)
    requires
        eq_ci(a, b),
    ensures
        resolve_spec(g, effective_token(g, a)) == resolve_spec(g, effective_token(g, b)),
{
    lemma_eq_ci_equivalence(a, b, "local"@);
    lemma_eq_ci_equivalence(b, a, "local"@);
    if !eq_ci(a, "local"@) {
        lemma_resolve_case_insensitive(g, a, b);
    }
}

} // verus!
