//! Lookups and searches over a store.
//!
//! Codes (ISO, phone) are compared as ASCII text, ignoring case. Names are
//! compared after folding. A search for the empty text finds nothing.

use vstd::prelude::*;
use crate::fold::{fold_chars, fold_key_spec};
use crate::alias::{alias_position, CityMetaIndex};
use crate::model::{City, Country, DbStats, GeoDb, State};
use crate::text::{
    chars_eq,
    chars_eq_ignore_ascii_case,
    lower_seq,
    to_ascii_lower,
    contains,
    eq_ignore_case,
    is_prefix,
    is_substring,
    starts_with,
    strip_plus,
    to_chars,
    trim,
    trimmed,
    without_plus,
};

verus! {

// ---------------------------------------------------------------------------
// Positions at which a condition holds
// ---------------------------------------------------------------------------

/// The positions below `n` at which `hit` holds, in rising order.
pub open spec fn positions(n: int, hit: spec_fn(int) -> bool) -> Seq<int>
    decreases n,
{
    if n <= 0 {
        Seq::empty()
    } else if hit(n - 1) {
        positions(n - 1, hit).push(n - 1)
    } else {
        positions(n - 1, hit)
    }
}

/// The first position below `n` at which `hit` holds.
pub open spec fn first_position(n: int, hit: spec_fn(int) -> bool) -> Option<int>
    decreases n,
{
    if n <= 0 {
        None
    } else {
        match first_position(n - 1, hit) {
            Some(k) => Some(k),
            None => if hit(n - 1) {
                Some(n - 1)
            } else {
                None
            },
        }
    }
}

/// Once a first position is found below `n`, it is the first position below
/// any larger bound.
pub proof fn lemma_first_position_stays(n: int, m: int, hit: spec_fn(int) -> bool)
    requires
        n <= m,
        first_position(n, hit) is Some,
    ensures
        first_position(m, hit) == first_position(n, hit),
    decreases m - n,
{
    if n < m {
        lemma_first_position_stays(n, m - 1, hit);
    }
}

/// The first position is a position at which the condition holds and before
/// which it does not; there is none exactly if the condition holds nowhere.
pub proof fn lemma_first_position(n: int, hit: spec_fn(int) -> bool)
    ensures
        match first_position(n, hit) {
            Some(k) => 0 <= k < n && hit(k) && forall|i: int| 0 <= i < k ==> !#[trigger] hit(i),
            None => forall|i: int| 0 <= i < n ==> !#[trigger] hit(i),
        },
    decreases n,
{
    if n > 0 {
        lemma_first_position(n - 1, hit);
    }
}

/// The positions found are below the bound, rise strictly, and are exactly
/// the positions at which the condition holds.
pub proof fn lemma_positions(n: int, hit: spec_fn(int) -> bool)
    ensures
        forall|i: int| 0 <= i < positions(n, hit).len() ==> 0 <= #[trigger] positions(n, hit)[i] < n && hit(
            positions(n, hit)[i],
        ),
        forall|i: int, j: int|
            0 <= i < j < positions(n, hit).len() ==> #[trigger] positions(n, hit)[i] < #[trigger] positions(
                n,
                hit,
            )[j],
        forall|k: int| 0 <= k < n && #[trigger] hit(k) ==> positions(n, hit).contains(k),
    decreases n,
{
    if n > 0 {
        lemma_positions(n - 1, hit);
        let prev = positions(n - 1, hit);
        let cur = positions(n, hit);
        assert forall|k: int| 0 <= k < n && #[trigger] hit(k) implies cur.contains(k) by {
            if k < n - 1 {
                assert(prev.contains(k));
                let i = choose|i: int| 0 <= i < prev.len() && prev[i] == k;
                assert(cur[i] == k);
            } else {
                assert(cur[cur.len() - 1] == k);
            }
        }
    }
}

// ---------------------------------------------------------------------------
// Conditions on the records
// ---------------------------------------------------------------------------

/// Country `k` has the given ISO2 code, ignoring ASCII case.
pub open spec fn iso2_hit(countries: Seq<Country>, code: Seq<char>) -> spec_fn(int) -> bool {
    |k: int| eq_ignore_case(countries[k].iso2@, code)
}

/// Country `k` has an ISO3 code, and it is the given one, ignoring ASCII
/// case.
pub open spec fn iso3_hit(countries: Seq<Country>, code: Seq<char>) -> spec_fn(int) -> bool {
    |k: int|
        match countries[k].iso3 {
            Some(s) => eq_ignore_case(s@, code),
            None => false,
        }
}

/// Country `k` has a phone code, and it starts with the given digits.
pub open spec fn phone_hit(countries: Seq<Country>, digits: Seq<char>) -> spec_fn(int) -> bool {
    |k: int|
        match countries[k].phone_code {
            Some(s) => is_prefix(digits, s@),
            None => false,
        }
}

/// The folded name of country `k` contains the folded query.
pub open spec fn country_name_hit(countries: Seq<Country>, q: Seq<char>) -> spec_fn(int) -> bool {
    |k: int| is_substring(q, fold_key_spec(countries[k].name@))
}

/// The folded name of state `j` contains the folded query.
pub open spec fn state_name_hit(states: Seq<State>, q: Seq<char>) -> spec_fn(int) -> bool {
    |j: int| is_substring(q, fold_key_spec(states[j].name@))
}

/// The result holds the countries at the given positions, in that order.
pub open spec fn picks_countries(out: Seq<&Country>, countries: Seq<Country>, at: Seq<int>) -> bool {
    &&& out.len() == at.len()
    &&& forall|i: int| 0 <= i < at.len() ==> *(#[trigger] out[i]) == countries[at[i]]
}

/// The result holds the states at the given positions, in that order, each
/// with the country whose id it carries, which is the country at the
/// position that the id gives.
pub open spec fn picks_states(out: Seq<(&State, &Country)>, db: GeoDb, at: Seq<int>) -> bool {
    &&& out.len() == at.len()
    &&& forall|i: int|
        0 <= i < at.len() ==> {
            &&& *(#[trigger] out[i]).0 == db.states@[at[i]]
            &&& *out[i].1 == db.countries@[db.states@[at[i]].country_id as int]
            &&& out[i].1.id == out[i].0.country_id
        }
}

/// Alias `a` of the list, folded, contains the folded query.
pub open spec fn alias_hit(names: Seq<String>, q: Seq<char>, a: int) -> bool {
    0 <= a < names.len() && is_substring(q, fold_key_spec(names[a]@))
}

/// One of the aliases, folded, contains the folded query.
pub open spec fn alias_contains(aliases: Option<Vec<String>>, q: Seq<char>) -> bool {
    match aliases {
        Some(v) => exists|a: int| alias_hit(v@, q, a),
        None => false,
    }
}

/// The folded name of city `i`, or one of its folded aliases, contains the
/// folded query.
pub open spec fn city_name_hit(cities: Seq<City>, q: Seq<char>) -> spec_fn(int) -> bool {
    |i: int| is_substring(q, fold_key_spec(cities[i].name@)) || alias_contains(cities[i].aliases, q)
}

/// The key by which city hits are told apart: country code, state name and
/// city name, each in ASCII lower case.
pub open spec fn city_key(db: GeoDb, i: int) -> (Seq<char>, Seq<char>, Seq<char>) {
    let city = db.cities@[i];
    (
        lower_seq(db.countries@[city.country_id as int].iso2@),
        lower_seq(db.states@[city.state_id as int].name@),
        lower_seq(city.name@),
    )
}

/// One of the cities at the given positions has the key of city `i`.
pub open spec fn key_among(db: GeoDb, at: Seq<int>, i: int) -> bool {
    exists|e: int| 0 <= e < at.len() && city_key(db, #[trigger] at[e]) == city_key(db, i)
}

/// The positions below `n` of the cities at which `hit` holds, without
/// those whose key an earlier one of them has: of the cities that share a
/// key, the first one that is hit stands for all.
pub open spec fn distinct_positions(db: GeoDb, n: int, hit: spec_fn(int) -> bool) -> Seq<int>
    decreases n,
{
    if n <= 0 {
        Seq::empty()
    } else {
        let prev = distinct_positions(db, n - 1, hit);
        if hit(n - 1) && !key_among(db, prev, n - 1) {
            prev.push(n - 1)
        } else {
            prev
        }
    }
}

/// The positions that are kept apart by key are positions below the bound at
/// which the condition holds.
pub proof fn lemma_distinct_positions(db: GeoDb, n: int, hit: spec_fn(int) -> bool)
    ensures
        forall|e: int|
            0 <= e < distinct_positions(db, n, hit).len() ==> 0 <= #[trigger] distinct_positions(db, n, hit)[e]
                < n && hit(distinct_positions(db, n, hit)[e]),
    decreases n,
{
    if n > 0 {
        lemma_distinct_positions(db, n - 1, hit);
        let prev = distinct_positions(db, n - 1, hit);
        let cur = distinct_positions(db, n, hit);
        assert forall|e: int| 0 <= e < cur.len() implies 0 <= #[trigger] cur[e] < n && hit(cur[e]) by {
            if e < prev.len() {
                assert(cur[e] == prev[e]);
            }
        }
    }
}

/// Every city below the bound at which the condition holds has its key
/// among the positions that are kept: nothing that is hit goes
/// unrepresented.
pub proof fn lemma_hit_is_represented(db: GeoDb, n: int, hit: spec_fn(int) -> bool, j: int)
    requires
        0 <= j < n,
        hit(j),
    ensures
        key_among(db, distinct_positions(db, n, hit), j),
    decreases n,
{
    let prev = distinct_positions(db, n - 1, hit);
    let cur = distinct_positions(db, n, hit);
    if j < n - 1 {
        lemma_hit_is_represented(db, n - 1, hit, j);
        let e = choose|e: int| 0 <= e < prev.len() && city_key(db, #[trigger] prev[e]) == city_key(db, j);
        assert(cur[e] == prev[e]);
    } else if key_among(db, prev, n - 1) {
        assert(cur == prev);
    } else {
        assert(cur[cur.len() - 1] == n - 1);
    }
}

/// No two of the positions that are kept have the same key.
pub proof fn lemma_kept_keys_differ(db: GeoDb, n: int, hit: spec_fn(int) -> bool)
    ensures
        forall|a: int, b: int|
            0 <= a < b < distinct_positions(db, n, hit).len() ==> city_key(
                db,
                #[trigger] distinct_positions(db, n, hit)[a],
            ) != city_key(db, #[trigger] distinct_positions(db, n, hit)[b]),
    decreases n,
{
    if n > 0 {
        lemma_kept_keys_differ(db, n - 1, hit);
        let prev = distinct_positions(db, n - 1, hit);
        let cur = distinct_positions(db, n, hit);
        assert forall|a: int, b: int| 0 <= a < b < cur.len() implies city_key(db, #[trigger] cur[a])
            != city_key(db, #[trigger] cur[b]) by {
            if b < prev.len() {
                assert(cur[a] == prev[a] && cur[b] == prev[b]);
            } else {
                assert(cur[b] == n - 1);
                assert(cur[a] == prev[a]);
                assert(!key_among(db, prev, n - 1));
            }
        }
    }
}

/// The positions that are kept apart by key rise strictly: no position is
/// kept twice.
pub proof fn lemma_distinct_positions_rise(db: GeoDb, n: int, hit: spec_fn(int) -> bool)
    ensures
        forall|a: int, b: int|
            0 <= a < b < distinct_positions(db, n, hit).len() ==> #[trigger] distinct_positions(db, n, hit)[a]
                < #[trigger] distinct_positions(db, n, hit)[b],
    decreases n,
{
    if n > 0 {
        lemma_distinct_positions_rise(db, n - 1, hit);
        lemma_distinct_positions(db, n - 1, hit);
        let prev = distinct_positions(db, n - 1, hit);
        let cur = distinct_positions(db, n, hit);
        assert forall|a: int, b: int| 0 <= a < b < cur.len() implies #[trigger] cur[a] < #[trigger] cur[b] by {
            if b < prev.len() {
                assert(cur[a] == prev[a] && cur[b] == prev[b]);
            } else {
                assert(cur[a] == prev[a]);
                assert(cur[b] == n - 1);
            }
        }
    }
}

/// City `j` is the first to have its key among the cities at which the
/// condition holds.
pub open spec fn first_of_key(db: GeoDb, hit: spec_fn(int) -> bool, j: int) -> bool {
    forall|i: int| 0 <= i < j && #[trigger] hit(i) ==> city_key(db, i) != city_key(db, j)
}

/// A city at which the condition holds, and which is the first to have its
/// key among such cities, is kept.
pub proof fn lemma_first_of_key_is_kept(db: GeoDb, n: int, hit: spec_fn(int) -> bool, j: int)
    requires
        0 <= j < n,
        hit(j),
        first_of_key(db, hit, j),
    ensures
        distinct_positions(db, n, hit).contains(j),
    decreases n,
{
    let prev = distinct_positions(db, n - 1, hit);
    let cur = distinct_positions(db, n, hit);
    if j < n - 1 {
        lemma_first_of_key_is_kept(db, n - 1, hit, j);
        let e = choose|e: int| 0 <= e < prev.len() && prev[e] == j;
        assert(cur[e] == j);
    } else {
        lemma_distinct_positions(db, n - 1, hit);
        if key_among(db, prev, j) {
            let e = choose|e: int| 0 <= e < prev.len() && city_key(db, #[trigger] prev[e]) == city_key(db, j);
            assert(hit(prev[e]));
            assert(false);
        }
        assert(cur[cur.len() - 1] == j);
    }
}

/// A city whose folded name or alias contains the folded text is found: the
/// cities found hold one with its country code, state name and city name,
/// ASCII case aside; and they hold the city itself, with the state and the
/// country whose ids it carries, if it is the first such city with its key.
pub proof fn lemma_found_city(db: GeoDb, out: Seq<(&City, &State, &Country)>, q: Seq<char>, j: int)
    requires
        0 <= j < db.cities@.len(),
        city_name_hit(db.cities@, q)(j),
        picks_cities(
            out,
            db,
            distinct_positions(db, db.cities@.len() as int, city_name_hit(db.cities@, q)),
        ),
    ensures
        exists|e: int| 0 <= e < out.len() && #[trigger] lower_seq(out[e].0.name@) == lower_seq(db.cities@[j].name@),
        first_of_key(db, city_name_hit(db.cities@, q), j) ==> exists|e: int|
            0 <= e < out.len() && *(#[trigger] out[e]).0 == db.cities@[j] && out[e].1.id
                == db.cities@[j].state_id && out[e].2.id == db.cities@[j].country_id,
{
    let n = db.cities@.len() as int;
    let hit = city_name_hit(db.cities@, q);
    let at = distinct_positions(db, n, hit);
    lemma_hit_is_represented(db, n, hit, j);
    let e = choose|e: int| 0 <= e < at.len() && city_key(db, #[trigger] at[e]) == city_key(db, j);
    assert(*out[e].0 == db.cities@[at[e]]);
    assert(lower_seq(out[e].0.name@) == lower_seq(db.cities@[j].name@));
    if first_of_key(db, hit, j) {
        lemma_first_of_key_is_kept(db, n, hit, j);
        let d = choose|d: int| 0 <= d < at.len() && at[d] == j;
        assert(*out[d].0 == db.cities@[j]);
    }
}

/// The result holds the cities at the given positions, in that order, each
/// with the state and the country whose ids it carries, which are the state
/// and the country at the positions that the ids give.
pub open spec fn picks_cities(out: Seq<(&City, &State, &Country)>, db: GeoDb, at: Seq<int>) -> bool {
    &&& out.len() == at.len()
    &&& forall|i: int|
        0 <= i < at.len() ==> {
            &&& *(#[trigger] out[i]).0 == db.cities@[at[i]]
            &&& *out[i].1 == db.states@[db.cities@[at[i]].state_id as int]
            &&& *out[i].2 == db.countries@[db.cities@[at[i]].country_id as int]
            &&& out[i].1.id == out[i].0.state_id
            &&& out[i].2.id == out[i].0.country_id
        }
}

/// The keys of the cities at the given positions, as they are kept while
/// hits are collected.
pub open spec fn keys_of(keys: Seq<(Vec<char>, Vec<char>, Vec<char>)>, db: GeoDb, at: Seq<int>) -> bool {
    &&& keys.len() == at.len()
    &&& forall|e: int|
        0 <= e < at.len() ==> (#[trigger] keys[e]).0@ == city_key(db, at[e]).0 && keys[e].1@ == city_key(
            db,
            at[e],
        ).1 && keys[e].2@ == city_key(db, at[e]).2
}

/// Whether one of the folded aliases contains the folded query.
pub fn any_alias_contains(aliases: &Option<Vec<String>>, q: &[char]) -> (r: bool)
    ensures
        r == alias_contains(*aliases, q@),
{
    match aliases {
        Some(v) => {
            let mut a: usize = 0;
            while a < v.len()
                invariant
                    a <= v.len(),
                    *aliases == Some(*v),
                    forall|b: int| 0 <= b < a ==> !alias_hit(v@, q@, b),
                decreases v.len() - a,
            {
                let name = fold_chars(v[a].as_str());
                if contains(name.as_slice(), q) {
                    assert(alias_hit(v@, q@, a as int));
                    assert(aliases is Some && aliases->0 == *v);
                    assert(alias_contains(*aliases, q@));
                    return true;
                }
                a += 1;
            }
            false
        },
        None => false,
    }
}

/// Whether the key is among the keys kept.
pub(crate) fn key_is_kept(
    keys: &Vec<(Vec<char>, Vec<char>, Vec<char>)>,
    key: &(Vec<char>, Vec<char>, Vec<char>),
) -> (r: bool)
    ensures
        r == exists|e: int|
            0 <= e < keys@.len() && (#[trigger] keys@[e]).0@ == key.0@ && keys@[e].1@ == key.1@
                && keys@[e].2@ == key.2@,
{
    let mut e: usize = 0;
    while e < keys.len()
        invariant
            e <= keys.len(),
            forall|d: int|
                0 <= d < e ==> !((#[trigger] keys@[d]).0@ == key.0@ && keys@[d].1@ == key.1@ && keys@[d].2@
                    == key.2@),
        decreases keys.len() - e,
    {
        let k = &keys[e];
        if chars_eq(k.0.as_slice(), key.0.as_slice()) && chars_eq(k.1.as_slice(), key.1.as_slice())
            && chars_eq(k.2.as_slice(), key.2.as_slice()) {
            return true;
        }
        e += 1;
    }
    false
}

impl GeoDb {
    /// The store can be searched by name: the id of a country and of a state
    /// is its position, and every back-reference is a position of the array
    /// it points into. The record at the position that a back-reference
    /// gives is then the record whose id it is. A built store can be
    /// searched; a filtered store can be if the countries that were dropped
    /// come behind all that were kept.
    pub open spec fn searchable(&self) -> bool {
        self@.parents_in_bounds() && self@.ids_are_positions()
    }

    /// Whether the store can be searched by name.
    pub fn is_searchable(&self) -> (r: bool)
        ensures
            r == self.searchable(),
    {
        self.has_parents_in_bounds() && self.has_positional_ids()
    }

    /// In a store that can be searched, the country at the position that the
    /// `country_id` of state `j` gives is the country with that id.
    pub proof fn lemma_state_parent(&self, j: int)
        requires
            self.searchable(),
            0 <= j < self.states@.len(),
        ensures
            self.states@[j].country_id < self.countries@.len(),
            self.countries@[self.states@[j].country_id as int].id == self.states@[j].country_id,
    {
        let k = self.states@[j].country_id as int;
        assert(self@.states[j].country_id == k);
        assert(self@.countries[k].id == k);
    }

    /// In a store that can be searched, the state and the country at the
    /// positions that the back-references of city `i` give are the state and
    /// the country with these ids.
    pub proof fn lemma_city_parents(&self, i: int)
        requires
            self.searchable(),
            0 <= i < self.cities@.len(),
        ensures
            self.cities@[i].country_id < self.countries@.len(),
            self.cities@[i].state_id < self.states@.len(),
            self.countries@[self.cities@[i].country_id as int].id == self.cities@[i].country_id,
            self.states@[self.cities@[i].state_id as int].id == self.cities@[i].state_id,
    {
        let k = self.cities@[i].country_id as int;
        let j = self.cities@[i].state_id as int;
        assert(self@.cities[i].country_id == k);
        assert(self@.cities[i].state_id == j);
        assert(self@.countries[k].id == k);
        assert(self@.states[j].id == j);
    }

    /// The numbers of countries, states and cities.
    pub fn stats(&self) -> (r: DbStats)
        ensures
            r.countries == self.countries@.len(),
            r.states == self.states@.len(),
            r.cities == self.cities@.len(),
    {
        DbStats { countries: self.countries.len(), states: self.states.len(), cities: self.cities.len() }
    }

    /// The number of countries.
    pub fn country_count(&self) -> (r: usize)
        ensures
            r == self.countries@.len(),
    {
        self.countries.len()
    }

    /// All countries, in store order.
    pub fn countries(&self) -> (r: &[Country])
        ensures
            r@ == self.countries@,
    {
        self.countries.as_slice()
    }

    /// The states in a country's state range. A range that is no valid slice
    /// of the state array gives no states.
    pub fn states_for_country<'a>(&'a self, country: &'a Country) -> (r: &'a [State])
        ensures
            r@ == if country.states_range.start <= country.states_range.end && country.states_range.end
                <= self.states@.len() {
                self.states@.subrange(country.states_range.start as int, country.states_range.end as int)
            } else {
                Seq::empty()
            },
    {
        let start = country.states_range.start as usize;
        let end = country.states_range.end as usize;
        if start <= end && end <= self.states.len() {
            &self.states[start..end]
        } else {
            let r = &self.states[0..0];
            assert(r@ =~= Seq::empty());
            r
        }
    }

    /// The cities in a state's city range. A range that is no valid slice of
    /// the city array gives no cities.
    pub fn cities_for_state<'a>(&'a self, state: &'a State) -> (r: &'a [City])
        ensures
            r@ == if state.cities_range.start <= state.cities_range.end && state.cities_range.end
                <= self.cities@.len() {
                self.cities@.subrange(state.cities_range.start as int, state.cities_range.end as int)
            } else {
                Seq::empty()
            },
    {
        let start = state.cities_range.start as usize;
        let end = state.cities_range.end as usize;
        if start <= end && end <= self.cities.len() {
            &self.cities[start..end]
        } else {
            let r = &self.cities[0..0];
            assert(r@ =~= Seq::empty());
            r
        }
    }

    /// The first country with the given ISO2 code, compared as ASCII text
    /// without regard to case.
    pub fn find_country_by_iso2(&self, iso2: &str) -> (r: Option<&Country>)
        ensures
            match first_position(self.countries@.len() as int, iso2_hit(self.countries@, iso2@)) {
                Some(k) => r matches Some(c) && *c == self.countries@[k],
                None => r is None,
            },
    {
        let code = to_chars(iso2);
        self.first_with_iso2(code.as_slice())
    }

    /// The first country whose ISO2 code is the given characters, ignoring
    /// ASCII case.
    pub fn first_with_iso2(&self, code: &[char]) -> (r: Option<&Country>)
        ensures
            match first_position(self.countries@.len() as int, iso2_hit(self.countries@, code@)) {
                Some(k) => r matches Some(c) && *c == self.countries@[k],
                None => r is None,
            },
    {
        let ghost hit = iso2_hit(self.countries@, code@);
        let mut k: usize = 0;
        while k < self.countries.len()
            invariant
                k <= self.countries.len(),
                hit == iso2_hit(self.countries@, code@),
                first_position(k as int, hit) is None,
            decreases self.countries.len() - k,
        {
            let c = &self.countries[k];
            let own = to_chars(c.iso2.as_str());
            if chars_eq_ignore_ascii_case(own.as_slice(), code) {
                proof {
                    assert(hit(k as int));
                    lemma_first_position_stays(k + 1, self.countries@.len() as int, hit);
                }
                return Some(c);
            }
            assert(!hit(k as int));
            k += 1;
        }
        None
    }

    /// The first country whose ISO3 code is the given characters, ignoring
    /// ASCII case.
    pub fn first_with_iso3(&self, code: &[char]) -> (r: Option<&Country>)
        ensures
            match first_position(self.countries@.len() as int, iso3_hit(self.countries@, code@)) {
                Some(k) => r matches Some(c) && *c == self.countries@[k],
                None => r is None,
            },
    {
        let ghost hit = iso3_hit(self.countries@, code@);
        let mut k: usize = 0;
        while k < self.countries.len()
            invariant
                k <= self.countries.len(),
                hit == iso3_hit(self.countries@, code@),
                first_position(k as int, hit) is None,
            decreases self.countries.len() - k,
        {
            let c = &self.countries[k];
            let found = match &c.iso3 {
                Some(s) => {
                    let own = to_chars(s.as_str());
                    chars_eq_ignore_ascii_case(own.as_slice(), code)
                },
                None => false,
            };
            if found {
                proof {
                    assert(hit(k as int));
                    lemma_first_position_stays(k + 1, self.countries@.len() as int, hit);
                }
                return Some(c);
            }
            assert(!hit(k as int));
            k += 1;
        }
        None
    }

    /// The first country with the given ISO3 code, compared as ASCII text
    /// without regard to case.
    pub fn find_country_by_iso3(&self, iso3: &str) -> (r: Option<&Country>)
        ensures
            match first_position(self.countries@.len() as int, iso3_hit(self.countries@, iso3@)) {
                Some(k) => r matches Some(c) && *c == self.countries@[k],
                None => r is None,
            },
    {
        let code = to_chars(iso3);
        self.first_with_iso3(code.as_slice())
    }

    /// The country with the given code: the code is trimmed of white space
    /// and looked up as an ISO2 code first, as an ISO3 code if no country
    /// has it as its ISO2 code.
    pub fn find_country_by_code(&self, code: &str) -> (r: Option<&Country>)
        ensures
            ({
                let n = self.countries@.len() as int;
                let t = trimmed(code@);
                match first_position(n, iso2_hit(self.countries@, t)) {
                    Some(k) => r matches Some(c) && *c == self.countries@[k],
                    None => match first_position(n, iso3_hit(self.countries@, t)) {
                        Some(k) => r matches Some(c) && *c == self.countries@[k],
                        None => r is None,
                    },
                }
            }),
    {
        let raw = to_chars(code);
        let t = trim(raw.as_slice());
        match self.first_with_iso2(t.as_slice()) {
            Some(c) => Some(c),
            None => self.first_with_iso3(t.as_slice()),
        }
    }

    /// The countries whose phone code starts with the given digits, in
    /// store order; none if no digits are given.
    pub fn countries_with_phone_prefix(&self, digits: &[char]) -> (r: Vec<&Country>)
        ensures
            picks_countries(
                r@,
                self.countries@,
                if digits@.len() == 0 {
                    Seq::empty()
                } else {
                    positions(self.countries@.len() as int, phone_hit(self.countries@, digits@))
                },
            ),
            digits@.len() == 0 ==> r@.len() == 0,
    {
        let mut out: Vec<&Country> = Vec::new();
        if digits.len() == 0 {
            return out;
        }
        let ghost hit = phone_hit(self.countries@, digits@);
        let mut k: usize = 0;
        while k < self.countries.len()
            invariant
                k <= self.countries.len(),
                hit == phone_hit(self.countries@, digits@),
                picks_countries(out@, self.countries@, positions(k as int, hit)),
            decreases self.countries.len() - k,
        {
            let c = &self.countries[k];
            let found = match &c.phone_code {
                Some(s) => {
                    let own = to_chars(s.as_str());
                    starts_with(own.as_slice(), digits)
                },
                None => false,
            };
            assert(found == hit(k as int));
            if found {
                out.push(c);
            }
            k += 1;
        }
        out
    }

    /// The countries whose phone code starts with the given prefix, in store
    /// order. Leading `'+'` characters of the prefix are ignored. A prefix
    /// with nothing behind them, the empty prefix among them, finds nothing.
    pub fn find_countries_by_phone_code(&self, prefix: &str) -> (r: Vec<&Country>)
        ensures
            picks_countries(
                r@,
                self.countries@,
                if without_plus(prefix@).len() == 0 {
                    Seq::empty()
                } else {
                    positions(
                        self.countries@.len() as int,
                        phone_hit(self.countries@, without_plus(prefix@)),
                    )
                },
            ),
            without_plus(prefix@).len() == 0 ==> r@.len() == 0,
            prefix@.len() == 0 ==> r@.len() == 0,
    {
        let raw = to_chars(prefix);
        let digits = strip_plus(raw.as_slice());
        proof {
            if prefix@.len() == 0 {
                assert(without_plus(prefix@).len() == 0);
            }
        }
        self.countries_with_phone_prefix(digits.as_slice())
    }

    /// The countries whose folded name contains the folded text, in store
    /// order; none if the folded text is empty.
    pub fn find_countries_by_substring(&self, substr: &str) -> (r: Vec<&Country>)
        ensures
            picks_countries(
                r@,
                self.countries@,
                if fold_key_spec(substr@).len() == 0 {
                    Seq::empty()
                } else {
                    positions(
                        self.countries@.len() as int,
                        country_name_hit(self.countries@, fold_key_spec(substr@)),
                    )
                },
            ),
            substr@.len() == 0 ==> r@.len() == 0,
    {
        let q = fold_chars(substr);
        let mut out: Vec<&Country> = Vec::new();
        if q.len() == 0 {
            return out;
        }
        let ghost hit = country_name_hit(self.countries@, q@);
        let mut k: usize = 0;
        while k < self.countries.len()
            invariant
                k <= self.countries.len(),
                hit == country_name_hit(self.countries@, q@),
                picks_countries(out@, self.countries@, positions(k as int, hit)),
            decreases self.countries.len() - k,
        {
            let c = &self.countries[k];
            let name = fold_chars(c.name.as_str());
            let found = contains(name.as_slice(), q.as_slice());
            assert(found == hit(k as int));
            if found {
                out.push(c);
            }
            k += 1;
        }
        out
    }

    /// The states whose folded name contains the folded text, in store
    /// order, each with its country; none if the folded text is empty.
    pub fn find_states_by_substring(&self, substr: &str) -> (r: Vec<(&State, &Country)>)
        requires
            self.searchable(),
        ensures
            picks_states(
                r@,
                *self,
                if fold_key_spec(substr@).len() == 0 {
                    Seq::empty()
                } else {
                    positions(self.states@.len() as int, state_name_hit(self.states@, fold_key_spec(substr@)))
                },
            ),
            substr@.len() == 0 ==> r@.len() == 0,
    {
        let q = fold_chars(substr);
        let mut out: Vec<(&State, &Country)> = Vec::new();
        if q.len() == 0 {
            return out;
        }
        let ghost hit = state_name_hit(self.states@, q@);
        let mut j: usize = 0;
        while j < self.states.len()
            invariant
                j <= self.states.len(),
                self.searchable(),
                hit == state_name_hit(self.states@, q@),
                picks_states(out@, *self, positions(j as int, hit)),
            decreases self.states.len() - j,
        {
            let s = &self.states[j];
            let name = fold_chars(s.name.as_str());
            let found = contains(name.as_slice(), q.as_slice());
            assert(found == hit(j as int));
            if found {
                proof {
                    self.lemma_state_parent(j as int);
                }
                let c = &self.countries[s.country_id as usize];
                out.push((s, c));
            }
            j += 1;
        }
        out
    }

    /// The key of city `i`.
    pub fn key_of_city(&self, i: usize) -> (r: (Vec<char>, Vec<char>, Vec<char>))
        requires
            self.searchable(),
            i < self.cities@.len(),
        ensures
            r.0@ == city_key(*self, i as int).0,
            r.1@ == city_key(*self, i as int).1,
            r.2@ == city_key(*self, i as int).2,
    {
        let city = &self.cities[i];
        proof {
            self.lemma_city_parents(i as int);
        }
        let s = &self.states[city.state_id as usize];
        let c = &self.countries[city.country_id as usize];
        (to_ascii_lower(c.iso2.as_str()), to_ascii_lower(s.name.as_str()), to_ascii_lower(city.name.as_str()))
    }

    /// The cities whose folded name, or one of whose folded aliases,
    /// contains the folded text, in store order and each with its state and
    /// country; none if the folded text is empty. Of the cities found that
    /// agree in country code, state name and city name, ASCII case aside,
    /// only the first is given.
    pub fn find_cities_by_substring(&self, substr: &str) -> (r: Vec<(&City, &State, &Country)>)
        requires
            self.searchable(),
        ensures
            picks_cities(
                r@,
                *self,
                if fold_key_spec(substr@).len() == 0 {
                    Seq::empty()
                } else {
                    distinct_positions(
                        *self,
                        self.cities@.len() as int,
                        city_name_hit(self.cities@, fold_key_spec(substr@)),
                    )
                },
            ),
            substr@.len() == 0 ==> r@.len() == 0,
    {
        let q = fold_chars(substr);
        let mut out: Vec<(&City, &State, &Country)> = Vec::new();
        if q.len() == 0 {
            return out;
        }
        let ghost hit = city_name_hit(self.cities@, q@);
        let mut keys: Vec<(Vec<char>, Vec<char>, Vec<char>)> = Vec::new();
        let mut i: usize = 0;
        while i < self.cities.len()
            invariant
                i <= self.cities.len(),
                self.searchable(),
                hit == city_name_hit(self.cities@, q@),
                picks_cities(out@, *self, distinct_positions(*self, i as int, hit)),
                keys_of(keys@, *self, distinct_positions(*self, i as int, hit)),
            decreases self.cities.len() - i,
        {
            let city = &self.cities[i];
            let name = fold_chars(city.name.as_str());
            let found = contains(name.as_slice(), q.as_slice()) || any_alias_contains(
                &city.aliases,
                q.as_slice(),
            );
            assert(found == hit(i as int));
            if found {
                let key = self.key_of_city(i);
                let ghost at = distinct_positions(*self, i as int, hit);
                let seen = key_is_kept(&keys, &key);
                proof {
                    lemma_key_among(*self, keys@, at, key, i as int);
                }
                if !seen {
                    proof {
                        self.lemma_city_parents(i as int);
                    }
                    let s = &self.states[city.state_id as usize];
                    let c = &self.countries[city.country_id as usize];
                    out.push((city, s, c));
                    keys.push(key);
                }
            }
            i += 1;
        }
        out
    }
}

/// State `j` lies at or behind `from` and has the given name, ignoring
/// ASCII case.
pub open spec fn state_named_from(states: Seq<State>, from: int, name: Seq<char>) -> spec_fn(int) -> bool {
    |j: int| from <= j && eq_ignore_case(states[j].name@, name)
}

/// City `i` lies at or behind `from` and has the given name, ignoring ASCII
/// case.
pub open spec fn city_named_from(cities: Seq<City>, from: int, name: Seq<char>) -> spec_fn(int) -> bool {
    |i: int| from <= i && eq_ignore_case(cities[i].name@, name)
}

/// The position of the city of the given name in state `j`: the first in
/// the state's city range with that name, ignoring ASCII case. A range that
/// is no valid slice holds nothing.
pub open spec fn city_of_state(db: GeoDb, j: int, name: Seq<char>) -> Option<int> {
    let s = db.states@[j];
    if s.cities_range.start <= s.cities_range.end <= db.cities@.len() {
        first_position(s.cities_range.end as int, city_named_from(db.cities@, s.cities_range.start as int, name))
    } else {
        None
    }
}

/// The position of the state of the given name in country `k`: the first in
/// the country's state range with that name, ignoring ASCII case. A range
/// that is no valid slice holds nothing.
pub open spec fn state_of_country(db: GeoDb, k: int, name: Seq<char>) -> Option<int> {
    let c = db.countries@[k];
    if c.states_range.start <= c.states_range.end <= db.states@.len() {
        first_position(c.states_range.end as int, state_named_from(db.states@, c.states_range.start as int, name))
    } else {
        None
    }
}

/// The positions of the country, the state and the city that an alias
/// resolves to: the side index gives the entry for the alias; the country
/// is the first with the entry's code, the state the first in the country's
/// range with the entry's state name, the city the first in the state's
/// range with the entry's city name, all compared as ASCII text without
/// regard to case.
pub open spec fn resolved(db: GeoDb, index: CityMetaIndex, alias: Seq<char>) -> Option<(int, int, int)> {
    match alias_position(index.entries@, alias) {
        None => None,
        Some(e) => {
            let m = index.entries@[e];
            match first_position(db.countries@.len() as int, iso2_hit(db.countries@, m.iso2@)) {
                None => None,
                Some(k) => match state_of_country(db, k, m.state@) {
                    None => None,
                    Some(j) => match city_of_state(db, j, m.city@) {
                        None => None,
                        Some(i) => Some((k, j, i)),
                    },
                },
            }
        },
    }
}

impl GeoDb {
    /// All cities in store order, each with its state and country.
    pub fn cities(&self) -> (r: Vec<(&City, &State, &Country)>)
        requires
            self.searchable(),
        ensures
            picks_cities(r@, *self, Seq::new(self.cities@.len(), |i: int| i)),
    {
        let mut out: Vec<(&City, &State, &Country)> = Vec::new();
        let mut i: usize = 0;
        while i < self.cities.len()
            invariant
                i <= self.cities.len(),
                self.searchable(),
                picks_cities(out@, *self, Seq::new(i as nat, |n: int| n)),
            decreases self.cities.len() - i,
        {
            let city = &self.cities[i];
            proof {
                self.lemma_city_parents(i as int);
            }
            out.push((city, &self.states[city.state_id as usize], &self.countries[city.country_id as usize]));
            i += 1;
        }
        out
    }

    /// The first state in `[from, to)` with the given name, ignoring ASCII
    /// case.
    fn state_in_range(&self, from: usize, to: usize, name: &[char]) -> (r: Option<usize>)
        requires
            from <= to <= self.states@.len(),
        ensures
            match r {
                Some(j) => from <= j < to && first_position(
                    to as int,
                    state_named_from(self.states@, from as int, name@),
                ) == Some(j as int),
                None => first_position(to as int, state_named_from(self.states@, from as int, name@)) is None,
            },
    {
        let ghost hit = state_named_from(self.states@, from as int, name@);
        proof {
            lemma_nothing_before(from as int, hit);
        }
        let mut j: usize = from;
        while j < to
            invariant
                from <= j <= to <= self.states@.len(),
                hit == state_named_from(self.states@, from as int, name@),
                first_position(j as int, hit) is None,
            decreases to - j,
        {
            let own = to_chars(self.states[j].name.as_str());
            if chars_eq_ignore_ascii_case(own.as_slice(), name) {
                proof {
                    assert(hit(j as int));
                    lemma_first_position_stays(j + 1, to as int, hit);
                }
                return Some(j);
            }
            assert(!hit(j as int));
            j += 1;
        }
        None
    }

    /// The first city in `[from, to)` with the given name, ignoring ASCII
    /// case.
    fn city_in_range(&self, from: usize, to: usize, name: &[char]) -> (r: Option<usize>)
        requires
            from <= to <= self.cities@.len(),
        ensures
            match r {
                Some(i) => from <= i < to && first_position(
                    to as int,
                    city_named_from(self.cities@, from as int, name@),
                ) == Some(i as int),
                None => first_position(to as int, city_named_from(self.cities@, from as int, name@)) is None,
            },
    {
        let ghost hit = city_named_from(self.cities@, from as int, name@);
        proof {
            lemma_nothing_before(from as int, hit);
        }
        let mut i: usize = from;
        while i < to
            invariant
                from <= i <= to <= self.cities@.len(),
                hit == city_named_from(self.cities@, from as int, name@),
                first_position(i as int, hit) is None,
            decreases to - i,
        {
            let own = to_chars(self.cities[i].name.as_str());
            if chars_eq_ignore_ascii_case(own.as_slice(), name) {
                proof {
                    assert(hit(i as int));
                    lemma_first_position_stays(i + 1, to as int, hit);
                }
                return Some(i);
            }
            assert(!hit(i as int));
            i += 1;
        }
        None
    }

    /// The position of the first country with the given ISO2 code,
    /// ignoring ASCII case.
    fn country_position(&self, code: &[char]) -> (r: Option<usize>)
        ensures
            match r {
                Some(k) => k < self.countries@.len() && first_position(
                    self.countries@.len() as int,
                    iso2_hit(self.countries@, code@),
                ) == Some(k as int),
                None => first_position(self.countries@.len() as int, iso2_hit(self.countries@, code@)) is None,
            },
    {
        let ghost hit = iso2_hit(self.countries@, code@);
        let mut k: usize = 0;
        while k < self.countries.len()
            invariant
                k <= self.countries.len(),
                hit == iso2_hit(self.countries@, code@),
                first_position(k as int, hit) is None,
            decreases self.countries.len() - k,
        {
            let own = to_chars(self.countries[k].iso2.as_str());
            if chars_eq_ignore_ascii_case(own.as_slice(), code) {
                proof {
                    assert(hit(k as int));
                    lemma_first_position_stays(k + 1, self.countries@.len() as int, hit);
                }
                return Some(k);
            }
            assert(!hit(k as int));
            k += 1;
        }
        None
    }

    /// Resolves a city alias through the side index to the names that the
    /// store has for it: the ISO2 code of the country, the name of the state
    /// and the name of the city.
    pub fn resolve_city_alias_with_index<'a>(&'a self, alias: &str, index: &'a CityMetaIndex) -> (r: Option<
        (&'a String, &'a String, &'a String),
    >)
        ensures
            match resolved(*self, *index, alias@) {
                Some((k, j, i)) => r matches Some(names) && *names.0 == self.countries@[k].iso2 && *names.1
                    == self.states@[j].name && *names.2 == self.cities@[i].name,
                None => r is None,
            },
    {
        let meta = match index.find_by_alias(alias) {
            Some(m) => m,
            None => {
                return None;
            },
        };
        let ghost e = alias_position(index.entries@, alias@)->0;
        assert(*meta == index.entries@[e]);
        let code = to_chars(meta.iso2.as_str());
        let ghost found = first_position(
            self.countries@.len() as int,
            iso2_hit(self.countries@, index.entries@[e].iso2@),
        );
        let k = match self.country_position(code.as_slice()) {
            Some(k) => k,
            None => {
                assert(found is None);
                assert(resolved(*self, *index, alias@) is None);
                return None;
            },
        };
        assert(found == Some(k as int));
        let country = &self.countries[k];
        let first = country.states_range.start as usize;
        let behind = country.states_range.end as usize;
        if !(first <= behind && behind <= self.states.len()) {
            assert(state_of_country(*self, k as int, meta.state@) is None);
            assert(resolved(*self, *index, alias@) is None);
            return None;
        }
        let state_name = to_chars(meta.state.as_str());
        let j = match self.state_in_range(first, behind, state_name.as_slice()) {
            Some(j) => j,
            None => {
                assert(state_of_country(*self, k as int, meta.state@) is None);
                assert(resolved(*self, *index, alias@) is None);
                return None;
            },
        };
        assert(state_of_country(*self, k as int, meta.state@) == Some(j as int));
        let state = &self.states[j];
        let first_city = state.cities_range.start as usize;
        let behind_city = state.cities_range.end as usize;
        if !(first_city <= behind_city && behind_city <= self.cities.len()) {
            assert(city_of_state(*self, j as int, meta.city@) is None);
            assert(resolved(*self, *index, alias@) is None);
            return None;
        }
        let city_name = to_chars(meta.city.as_str());
        let i = match self.city_in_range(first_city, behind_city, city_name.as_slice()) {
            Some(i) => i,
            None => {
                assert(city_of_state(*self, j as int, meta.city@) is None);
                assert(resolved(*self, *index, alias@) is None);
                return None;
            },
        };
        assert(city_of_state(*self, j as int, meta.city@) == Some(i as int));
        assert(resolved(*self, *index, alias@) == Some((k as int, j as int, i as int)));
        Some((&country.iso2, &state.name, &self.cities[i].name))
    }
}

/// A condition that holds only at or behind `from` has no first position
/// below `from`.
proof fn lemma_nothing_before(from: int, hit: spec_fn(int) -> bool)
    requires
        forall|x: int| x < from ==> !#[trigger] hit(x),
    ensures
        first_position(from, hit) is None,
    decreases from,
{
    if from > 0 {
        lemma_nothing_before(from - 1, hit);
    }
}

/// A key is among the keys kept exactly if a city at the kept positions has
/// it.
pub(crate) proof fn lemma_key_among(
    db: GeoDb,
    keys: Seq<(Vec<char>, Vec<char>, Vec<char>)>,
    at: Seq<int>,
    key: (Vec<char>, Vec<char>, Vec<char>),
    i: int,
)
    requires
        keys_of(keys, db, at),
        key.0@ == city_key(db, i).0,
        key.1@ == city_key(db, i).1,
        key.2@ == city_key(db, i).2,
    ensures
        key_among(db, at, i) == exists|e: int|
            0 <= e < keys.len() && (#[trigger] keys[e]).0@ == key.0@ && keys[e].1@ == key.1@ && keys[e].2@
                == key.2@,
{
    if key_among(db, at, i) {
        let e = choose|e: int| 0 <= e < at.len() && city_key(db, #[trigger] at[e]) == city_key(db, i);
        assert(keys[e].0@ == key.0@ && keys[e].1@ == key.1@ && keys[e].2@ == key.2@);
    }
    if exists|e: int|
        0 <= e < keys.len() && (#[trigger] keys[e]).0@ == key.0@ && keys[e].1@ == key.1@ && keys[e].2@
            == key.2@ {
        let e = choose|e: int|
            0 <= e < keys.len() && (#[trigger] keys[e]).0@ == key.0@ && keys[e].1@ == key.1@
                && keys[e].2@ == key.2@;
        let k1 = city_key(db, at[e]);
        let k2 = city_key(db, i);
        assert(k1.0 == k2.0 && k1.1 == k2.1 && k1.2 == k2.2);
        assert(k1 == k2);
    }
}

} // verus!
