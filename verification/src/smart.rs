//! The unified ranked search: one query matched against country codes,
//! country names, state names, city names and phone codes, with the hits of
//! all five passes merged into one list by falling score.
//!
//! | match                                              | score |
//! |----------------------------------------------------|-------|
//! | country, ISO2 code equal (ASCII, any case)         | 100   |
//! | country, a folded name equal                       | 90    |
//! | country, a folded name starts with the query       | 80    |
//! | country, a folded name contains the query          | 70    |
//! | state, folded name starts with the query           | 60    |
//! | state, folded name contains the query              | 50    |
//! | city, folded name or alias equal                   | 45    |
//! | city, folded name or alias starts with the query   | 40    |
//! | city, folded name or alias contains the query      | 30    |
//! | country, phone code starts with the digits given   | 20    |
//!
//! The names of a country are its name, its native name and its
//! translations; of all of them only the strongest match counts, and so it
//! is with the name and the aliases of a city.

use vstd::prelude::*;
use crate::fold::{fold_chars, fold_key_spec, match_kind, match_kind_spec, score_of, MatchKind};
use crate::model::{City, Country, GeoDb, State};
use crate::order::{is_total_preorder, lemma_insert_position, lemma_stable_sort, stable_sort};
use crate::search::{
    distinct_positions,
    key_is_kept,
    keys_of,
    lemma_key_among,
    phone_hit,
    positions,
};
use crate::text::{
    chars_eq_ignore_ascii_case,
    eq_ignore_case,
    starts_with,
    strip_plus,
    to_chars,
    trim,
    trimmed,
    without_plus,
};

verus! {

// ---------------------------------------------------------------------------
// Hits
// ---------------------------------------------------------------------------

/// What a hit points at, by position in the store.
#[derive(Clone, Copy, Debug, PartialEq, Eq, Structural)]
pub enum Target {
    Country(usize),
    State(usize),
    City(usize),
}

/// A hit of the ranked search by position: a score and what it points at.
#[derive(Clone, Copy, Debug, PartialEq, Eq, Structural)]
pub struct RankedHit {
    pub score: i32,
    pub target: Target,
}

/// What a hit points at, with the records themselves.
#[derive(Clone, Copy, Debug)]
pub enum SmartItem<'a> {
    Country(&'a Country),
    State { country: &'a Country, state: &'a State },
    City { country: &'a Country, state: &'a State, city: &'a City },
}

/// A hit of the ranked search: a score and the record it points at.
#[derive(Clone, Copy, Debug)]
pub struct SmartHit<'a> {
    pub score: i32,
    pub item: SmartItem<'a>,
}

// ---------------------------------------------------------------------------
// The strongest match among several names
// ---------------------------------------------------------------------------

/// The strength of a match: exact above prefix above substring above none.
pub open spec fn kind_rank(k: Option<MatchKind>) -> int {
    match k {
        Some(MatchKind::Exact) => 3,
        Some(MatchKind::Prefix) => 2,
        Some(MatchKind::Substring) => 1,
        None => 0,
    }
}

/// The stronger of two matches; the first if they are equally strong.
pub open spec fn best_kind(a: Option<MatchKind>, b: Option<MatchKind>) -> Option<MatchKind> {
    if kind_rank(a) >= kind_rank(b) {
        a
    } else {
        b
    }
}

/// How the folded query matches the name once the name is folded.
pub open spec fn kind_of(name: Seq<char>, q: Seq<char>) -> Option<MatchKind> {
    match_kind_spec(fold_key_spec(name), q)
}

/// The strongest match of the folded query among the names.
pub open spec fn best_among(names: Seq<Seq<char>>, q: Seq<char>) -> Option<MatchKind>
    decreases names.len(),
{
    if names.len() == 0 {
        None
    } else {
        best_kind(best_among(names.drop_last(), q), kind_of(names.last(), q))
    }
}

/// The translated names of a country.
pub open spec fn translated_names(c: Country) -> Seq<Seq<char>> {
    Seq::new(c.translations@.len(), |t: int| c.translations@[t].1@)
}

/// The aliases of a city.
pub open spec fn alias_names(city: City) -> Seq<Seq<char>> {
    match city.aliases {
        Some(v) => Seq::new(v@.len(), |a: int| v@[a]@),
        None => Seq::empty(),
    }
}

/// The strongest match of the folded query among the name, the native name
/// and the translated names of a country.
pub open spec fn country_kind(c: Country, q: Seq<char>) -> Option<MatchKind> {
    let native = match c.native_name {
        Some(n) => kind_of(n@, q),
        None => None,
    };
    best_kind(best_kind(kind_of(c.name@, q), native), best_among(translated_names(c), q))
}

/// The strongest match of the folded query among the name and the aliases
/// of a city.
pub open spec fn city_kind(city: City, q: Seq<char>) -> Option<MatchKind> {
    best_kind(kind_of(city.name@, q), best_among(alias_names(city), q))
}

/// The strongest match among the names is as strong as the match of each of
/// them, and it is the match of one of them unless there is none.
pub proof fn lemma_best_among(names: Seq<Seq<char>>, q: Seq<char>)
    ensures
        forall|i: int| 0 <= i < names.len() ==> kind_rank(best_among(names, q)) >= kind_rank(kind_of(#[trigger] names[i], q)),
        best_among(names, q) is Some ==> exists|i: int|
            0 <= i < names.len() && best_among(names, q) == kind_of(#[trigger] names[i], q),
    decreases names.len(),
{
    if names.len() > 0 {
        let init = names.drop_last();
        lemma_best_among(init, q);
        assert forall|i: int| 0 <= i < names.len() implies kind_rank(best_among(names, q)) >= kind_rank(
            kind_of(#[trigger] names[i], q),
        ) by {
            if i < init.len() {
                assert(init[i] == names[i]);
            }
        }
        if best_among(names, q) is Some {
            if best_among(names, q) == kind_of(names.last(), q) {
                assert(names[names.len() - 1] == names.last());
            } else {
                let i = choose|i: int| 0 <= i < init.len() && best_among(init, q) == kind_of(#[trigger] init[i], q);
                assert(init[i] == names[i]);
            }
        }
    }
}

/// The stronger of two matches; the first if they are equally strong.
fn better_kind(a: Option<MatchKind>, b: Option<MatchKind>) -> (r: Option<MatchKind>)
    ensures
        r == best_kind(a, b),
{
    match (a, b) {
        (Some(MatchKind::Exact), _) => a,
        (_, Some(MatchKind::Exact)) => b,
        (Some(MatchKind::Prefix), _) => a,
        (_, Some(MatchKind::Prefix)) => b,
        (Some(MatchKind::Substring), _) => a,
        (_, _) => if a.is_some() {
            a
        } else {
            b
        },
    }
}

/// How the folded query matches the name once the name is folded.
pub fn kind_of_name(name: &str, q: &[char]) -> (r: Option<MatchKind>)
    ensures
        r == kind_of(name@, q@),
{
    let n = fold_chars(name);
    match_kind(n.as_slice(), q)
}

/// The score of a match under the weights `(exact, prefix, substring)`.
pub fn weigh(kind: Option<MatchKind>, weights: (i32, i32, i32)) -> (r: Option<i32>)
    ensures
        r == score_of(kind, weights),
{
    match kind {
        Some(MatchKind::Exact) => Some(weights.0),
        Some(MatchKind::Prefix) => Some(weights.1),
        Some(MatchKind::Substring) => Some(weights.2),
        None => None,
    }
}

/// The strongest match of the folded query among the name, the native name
/// and the translated names of the country.
pub fn country_match(c: &Country, q: &[char]) -> (r: Option<MatchKind>)
    ensures
        r == country_kind(*c, q@),
{
    let own = kind_of_name(c.name.as_str(), q);
    let native = match &c.native_name {
        Some(n) => kind_of_name(n.as_str(), q),
        None => None,
    };
    let ghost names = translated_names(*c);
    let mut best: Option<MatchKind> = None;
    let mut t: usize = 0;
    assert(names.take(0) =~= Seq::empty());
    while t < c.translations.len()
        invariant
            t <= c.translations.len(),
            names == translated_names(*c),
            best == best_among(names.take(t as int), q@),
        decreases c.translations.len() - t,
    {
        let k = kind_of_name(c.translations[t].1.as_str(), q);
        proof {
            let next = names.take(t + 1);
            assert(next.drop_last() =~= names.take(t as int));
            assert(next.last() == c.translations@[t as int].1@);
        }
        best = better_kind(best, k);
        t += 1;
    }
    assert(names.take(names.len() as int) =~= names);
    better_kind(better_kind(own, native), best)
}

/// The strongest match of the folded query among the name and the aliases
/// of the city.
pub fn city_match(city: &City, q: &[char]) -> (r: Option<MatchKind>)
    ensures
        r == city_kind(*city, q@),
{
    let own = kind_of_name(city.name.as_str(), q);
    let ghost names = alias_names(*city);
    let mut best: Option<MatchKind> = None;
    match &city.aliases {
        Some(v) => {
            let mut a: usize = 0;
            assert(names.take(0) =~= Seq::empty());
            while a < v.len()
                invariant
                    a <= v.len(),
                    city.aliases is Some && city.aliases->0 == *v,
                    names == alias_names(*city),
                    names.len() == v@.len(),
                    best == best_among(names.take(a as int), q@),
                decreases v.len() - a,
            {
                let k = kind_of_name(v[a].as_str(), q);
                proof {
                    let next = names.take(a + 1);
                    assert(next.drop_last() =~= names.take(a as int));
                    assert(next.last() == v@[a as int]@);
                }
                best = better_kind(best, k);
                a += 1;
            }
            assert(names.take(names.len() as int) =~= names);
        },
        None => {},
    }
    better_kind(own, best)
}

// ---------------------------------------------------------------------------
// The five passes
// ---------------------------------------------------------------------------

/// The score of country `k` in the code pass.
pub open spec fn code_score(countries: Seq<Country>, raw: Seq<char>) -> spec_fn(int) -> Option<i32> {
    |k: int|
        if eq_ignore_case(countries[k].iso2@, raw) {
            Some(100i32)
        } else {
            None
        }
}

/// The score of country `k` in the name pass.
pub open spec fn name_score(countries: Seq<Country>, q: Seq<char>) -> spec_fn(int) -> Option<i32> {
    |k: int| score_of(country_kind(countries[k], q), (90i32, 80i32, 70i32))
}

/// The score of state `j` in the state pass.
pub open spec fn state_score(states: Seq<State>, q: Seq<char>) -> spec_fn(int) -> Option<i32> {
    |j: int| score_of(kind_of(states[j].name@, q), (60i32, 60i32, 50i32))
}

/// The score of city `i` in the city pass.
pub open spec fn city_score(cities: Seq<City>, q: Seq<char>) -> spec_fn(int) -> Option<i32> {
    |i: int| score_of(city_kind(cities[i], q), (45i32, 40i32, 30i32))
}

/// The score of country `k` in the phone pass. The pass is the search by
/// phone prefix, which finds nothing where no digits are given: a query of
/// `'+'` characters alone has no hit from it.
pub open spec fn phone_score(countries: Seq<Country>, digits: Seq<char>) -> spec_fn(int) -> Option<i32> {
    |k: int|
        if digits.len() > 0 && phone_hit(countries, digits)(k) {
            Some(20i32)
        } else {
            None
        }
}

/// The positions that a pass scores.
pub open spec fn scored(score: spec_fn(int) -> Option<i32>) -> spec_fn(int) -> bool {
    |k: int| score(k) is Some
}

/// The target of a hit at a position of the country array.
pub open spec fn country_target() -> spec_fn(int) -> Target {
    |k: int| Target::Country(k as usize)
}

/// The target of a hit at a position of the state array.
pub open spec fn state_target() -> spec_fn(int) -> Target {
    |j: int| Target::State(j as usize)
}

/// The target of a hit at a position of the city array.
pub open spec fn city_target() -> spec_fn(int) -> Target {
    |i: int| Target::City(i as usize)
}

/// The hits of a pass: one for each of the given positions, with the score
/// of the position.
pub open spec fn pass(at: Seq<int>, score: spec_fn(int) -> Option<i32>, target: spec_fn(int) -> Target) -> Seq<
    RankedHit,
> {
    Seq::new(at.len(), |e: int| RankedHit { score: score(at[e]).unwrap(), target: target(at[e]) })
}

/// The order of the ranked list: a hit comes no later than another if its
/// score is no lower.
pub open spec fn by_score() -> spec_fn(RankedHit, RankedHit) -> bool {
    |a: RankedHit, b: RankedHit| a.score >= b.score
}

/// The hits of the five passes, pass after pass and each pass in store
/// order, for the trimmed query `raw`.
pub open spec fn gathered(db: GeoDb, raw: Seq<char>) -> Seq<RankedHit> {
    let q = fold_key_spec(raw);
    let digits = without_plus(raw);
    let nc = db.countries@.len() as int;
    let ns = db.states@.len() as int;
    let ni = db.cities@.len() as int;
    let code = code_score(db.countries@, raw);
    let name = name_score(db.countries@, q);
    let state = state_score(db.states@, q);
    let city = city_score(db.cities@, q);
    let phone = phone_score(db.countries@, digits);
    pass(positions(nc, scored(code)), code, country_target()) + pass(
        positions(nc, scored(name)),
        name,
        country_target(),
    ) + pass(positions(ns, scored(state)), state, state_target()) + pass(
        distinct_positions(db, ni, scored(city)),
        city,
        city_target(),
    ) + pass(positions(nc, scored(phone)), phone, country_target())
}

/// The ranked hits for a query: none for a query that is empty once it is
/// trimmed; else the hits of the five passes, sorted by falling score, hits
/// of equal score in the order of the passes and of the store.
pub open spec fn smart_hits(db: GeoDb, query: Seq<char>) -> Seq<RankedHit> {
    let raw = trimmed(query);
    if raw.len() == 0 {
        Seq::empty()
    } else {
        stable_sort(gathered(db, raw), by_score())
    }
}

/// Appending the hit of one more position to the hits of a pass.
proof fn lemma_pass_push(at: Seq<int>, k: int, score: spec_fn(int) -> Option<i32>, target: spec_fn(int) -> Target)
    ensures
        pass(at.push(k), score, target) == pass(at, score, target).push(
            RankedHit { score: score(k).unwrap(), target: target(k) },
        ),
{
    assert(pass(at.push(k), score, target) =~= pass(at, score, target).push(
        RankedHit { score: score(k).unwrap(), target: target(k) },
    ));
}

impl GeoDb {
    /// Appends the hits of the code pass.
    fn code_pass(&self, raw: &[char], hits: &mut Vec<RankedHit>)
        ensures
            final(hits)@ == old(hits)@ + pass(
                positions(self.countries@.len() as int, scored(code_score(self.countries@, raw@))),
                code_score(self.countries@, raw@),
                country_target(),
            ),
    {
        let ghost score = code_score(self.countries@, raw@);
        let ghost before = hits@;
        let mut k: usize = 0;
        assert(hits@ =~= before + pass(positions(0, scored(score)), score, country_target()));
        while k < self.countries.len()
            invariant
                k <= self.countries.len(),
                score == code_score(self.countries@, raw@),
                hits@ == before + pass(positions(k as int, scored(score)), score, country_target()),
            decreases self.countries.len() - k,
        {
            let own = to_chars(self.countries[k].iso2.as_str());
            let found = chars_eq_ignore_ascii_case(own.as_slice(), raw);
            assert(found == scored(score)(k as int));
            if found {
                proof {
                    lemma_pass_push(positions(k as int, scored(score)), k as int, score, country_target());
                }
                hits.push(RankedHit { score: 100, target: Target::Country(k) });
                assert(hits@ =~= before + pass(positions(k + 1, scored(score)), score, country_target()));
            }
            k += 1;
        }
    }

    /// Appends the hits of the name pass.
    fn name_pass(&self, q: &[char], hits: &mut Vec<RankedHit>)
        ensures
            final(hits)@ == old(hits)@ + pass(
                positions(self.countries@.len() as int, scored(name_score(self.countries@, q@))),
                name_score(self.countries@, q@),
                country_target(),
            ),
    {
        let ghost score = name_score(self.countries@, q@);
        let ghost before = hits@;
        let mut k: usize = 0;
        assert(hits@ =~= before + pass(positions(0, scored(score)), score, country_target()));
        while k < self.countries.len()
            invariant
                k <= self.countries.len(),
                score == name_score(self.countries@, q@),
                hits@ == before + pass(positions(k as int, scored(score)), score, country_target()),
            decreases self.countries.len() - k,
        {
            let s = weigh(country_match(&self.countries[k], q), (90, 80, 70));
            assert(s == score(k as int));
            if let Some(value) = s {
                proof {
                    lemma_pass_push(positions(k as int, scored(score)), k as int, score, country_target());
                }
                hits.push(RankedHit { score: value, target: Target::Country(k) });
                assert(hits@ =~= before + pass(positions(k + 1, scored(score)), score, country_target()));
            }
            k += 1;
        }
    }

    /// Appends the hits of the state pass.
    fn state_pass(&self, q: &[char], hits: &mut Vec<RankedHit>)
        ensures
            final(hits)@ == old(hits)@ + pass(
                positions(self.states@.len() as int, scored(state_score(self.states@, q@))),
                state_score(self.states@, q@),
                state_target(),
            ),
    {
        let ghost score = state_score(self.states@, q@);
        let ghost before = hits@;
        let mut j: usize = 0;
        assert(hits@ =~= before + pass(positions(0, scored(score)), score, state_target()));
        while j < self.states.len()
            invariant
                j <= self.states.len(),
                score == state_score(self.states@, q@),
                hits@ == before + pass(positions(j as int, scored(score)), score, state_target()),
            decreases self.states.len() - j,
        {
            let s = weigh(kind_of_name(self.states[j].name.as_str(), q), (60, 60, 50));
            assert(s == score(j as int));
            if let Some(value) = s {
                proof {
                    lemma_pass_push(positions(j as int, scored(score)), j as int, score, state_target());
                }
                hits.push(RankedHit { score: value, target: Target::State(j) });
                assert(hits@ =~= before + pass(positions(j + 1, scored(score)), score, state_target()));
            }
            j += 1;
        }
    }

    /// Appends the hits of the phone pass.
    fn phone_pass(&self, digits: &[char], hits: &mut Vec<RankedHit>)
        ensures
            final(hits)@ == old(hits)@ + pass(
                positions(self.countries@.len() as int, scored(phone_score(self.countries@, digits@))),
                phone_score(self.countries@, digits@),
                country_target(),
            ),
    {
        let ghost score = phone_score(self.countries@, digits@);
        let ghost before = hits@;
        let mut k: usize = 0;
        assert(hits@ =~= before + pass(positions(0, scored(score)), score, country_target()));
        while k < self.countries.len()
            invariant
                k <= self.countries.len(),
                score == phone_score(self.countries@, digits@),
                hits@ == before + pass(positions(k as int, scored(score)), score, country_target()),
            decreases self.countries.len() - k,
        {
            let found = digits.len() > 0 && match &self.countries[k].phone_code {
                Some(s) => {
                    let own = to_chars(s.as_str());
                    starts_with(own.as_slice(), digits)
                },
                None => false,
            };
            assert(found == scored(score)(k as int));
            if found {
                proof {
                    lemma_pass_push(positions(k as int, scored(score)), k as int, score, country_target());
                }
                hits.push(RankedHit { score: 20, target: Target::Country(k) });
                assert(hits@ =~= before + pass(positions(k + 1, scored(score)), score, country_target()));
            }
            k += 1;
        }
    }

    /// Appends the hits of the city pass: of the cities that agree in country
    /// code, state name and city name, ASCII case aside, only the first
    /// that scores gives a hit.
    fn city_pass(&self, q: &[char], hits: &mut Vec<RankedHit>)
        requires
            self.searchable(),
        ensures
            final(hits)@ == old(hits)@ + pass(
                distinct_positions(*self, self.cities@.len() as int, scored(city_score(self.cities@, q@))),
                city_score(self.cities@, q@),
                city_target(),
            ),
    {
        let ghost score = city_score(self.cities@, q@);
        let ghost before = hits@;
        let mut keys: Vec<(Vec<char>, Vec<char>, Vec<char>)> = Vec::new();
        let mut i: usize = 0;
        assert(hits@ =~= before + pass(distinct_positions(*self, 0, scored(score)), score, city_target()));
        while i < self.cities.len()
            invariant
                i <= self.cities.len(),
                self.searchable(),
                score == city_score(self.cities@, q@),
                hits@ == before + pass(distinct_positions(*self, i as int, scored(score)), score, city_target()),
                keys_of(keys@, *self, distinct_positions(*self, i as int, scored(score))),
            decreases self.cities.len() - i,
        {
            let s = weigh(city_match(&self.cities[i], q), (45, 40, 30));
            assert(s == score(i as int));
            if let Some(value) = s {
                let key = self.key_of_city(i);
                let ghost at = distinct_positions(*self, i as int, scored(score));
                let seen = key_is_kept(&keys, &key);
                proof {
                    lemma_key_among(*self, keys@, at, key, i as int);
                }
                if !seen {
                    proof {
                        lemma_pass_push(at, i as int, score, city_target());
                    }
                    hits.push(RankedHit { score: value, target: Target::City(i) });
                    keys.push(key);
                    assert(hits@ =~= before + pass(
                        distinct_positions(*self, i + 1, scored(score)),
                        score,
                        city_target(),
                    ));
                }
            }
            i += 1;
        }
    }

    /// The ranked hits for a query, by position.
    ///
    /// A query that is empty once it is trimmed of white space has no hits.
    /// Else the country codes are compared with the trimmed query, the names
    /// with its folded form and the phone codes with what is left of it
    /// behind its leading `'+'` characters; the hits come by falling score,
    /// hits of equal score in the order of the passes and of the store.
    pub fn smart_search_ranked(&self, query: &str) -> (r: Vec<RankedHit>)
        requires
            self.searchable(),
        ensures
            r@ == smart_hits(*self, query@),
    {
        let typed = to_chars(query);
        let raw = trim(typed.as_slice());
        let mut hits: Vec<RankedHit> = Vec::new();
        if raw.len() == 0 {
            return hits;
        }
        let folded = from_folded(raw.as_slice());
        let digits = strip_plus(raw.as_slice());
        self.code_pass(raw.as_slice(), &mut hits);
        self.name_pass(folded.as_slice(), &mut hits);
        self.state_pass(folded.as_slice(), &mut hits);
        self.city_pass(folded.as_slice(), &mut hits);
        self.phone_pass(digits.as_slice(), &mut hits);
        assert(hits@ =~= gathered(*self, raw@));
        rank(&hits)
    }

    /// The record that a hit points at.
    pub open spec fn hit_of<'a>(&'a self, h: RankedHit) -> SmartHit<'a> {
        match h.target {
            Target::Country(k) => SmartHit { score: h.score, item: SmartItem::Country(&self.countries@[k as int]) },
            Target::State(j) => SmartHit {
                score: h.score,
                item: SmartItem::State {
                    country: &self.countries@[self.states@[j as int].country_id as int],
                    state: &self.states@[j as int],
                },
            },
            Target::City(i) => SmartHit {
                score: h.score,
                item: SmartItem::City {
                    country: &self.countries@[self.cities@[i as int].country_id as int],
                    state: &self.states@[self.cities@[i as int].state_id as int],
                    city: &self.cities@[i as int],
                },
            },
        }
    }

    /// The hit points at a record of the store.
    pub open spec fn holds(&self, h: RankedHit) -> bool {
        match h.target {
            Target::Country(k) => k < self.countries@.len(),
            Target::State(j) => j < self.states@.len(),
            Target::City(i) => i < self.cities@.len(),
        }
    }

    /// The hit with the records it points at: a country, a state with its
    /// country, or a city with its state and country.
    pub fn present<'a>(&'a self, h: RankedHit) -> (r: SmartHit<'a>)
        requires
            self.searchable(),
            self.holds(h),
        ensures
            r == self.hit_of(h),
            r.is_linked(),
    {
        match h.target {
            Target::Country(k) => SmartHit::country(h.score, &self.countries[k]),
            Target::State(j) => {
                let s = &self.states[j];
                proof {
                    self.lemma_state_parent(j as int);
                }
                SmartHit::state(h.score, &self.countries[s.country_id as usize], s)
            },
            Target::City(i) => {
                let city = &self.cities[i];
                proof {
                    self.lemma_city_parents(i as int);
                }
                SmartHit::city(
                    h.score,
                    &self.countries[city.country_id as usize],
                    &self.states[city.state_id as usize],
                    city,
                )
            },
        }
    }

    /// The ranked hits for a query, each with the records it points at.
    ///
    /// The hits are those of `smart_search_ranked`, in the same order.
    pub fn smart_search<'a>(&'a self, query: &str) -> (r: Vec<SmartHit<'a>>)
        requires
            self.searchable(),
        ensures
            r@.len() == smart_hits(*self, query@).len(),
            forall|e: int| 0 <= e < r@.len() ==> #[trigger] r@[e] == self.hit_of(smart_hits(*self, query@)[e]),
            forall|e: int| 0 <= e < r@.len() ==> (#[trigger] r@[e]).is_linked(),
    {
        let ranked = self.smart_search_ranked(query);
        proof {
            lemma_smart_hits_hold(*self, query@);
        }
        let mut out: Vec<SmartHit<'a>> = Vec::new();
        let mut e: usize = 0;
        while e < ranked.len()
            invariant
                e <= ranked.len(),
                self.searchable(),
                forall|d: int| 0 <= d < ranked@.len() ==> self.holds(#[trigger] ranked@[d]),
                out@.len() == e,
                forall|d: int| 0 <= d < e ==> #[trigger] out@[d] == self.hit_of(ranked@[d]),
                forall|d: int| 0 <= d < e ==> (#[trigger] out@[d]).is_linked(),
            decreases ranked.len() - e,
        {
            out.push(self.present(ranked[e]));
            e += 1;
        }
        out
    }
}

/// The folded form of characters that are already typed in.
fn from_folded(raw: &[char]) -> (r: Vec<char>)
    ensures
        r@ == fold_key_spec(raw@),
{
    let s = crate::text::from_chars(raw);
    fold_chars(s.as_str())
}

/// The hits in the order of the ranked list: by falling score, hits of
/// equal score in the order in which they were given.
pub fn rank(hits: &Vec<RankedHit>) -> (r: Vec<RankedHit>)
    ensures
        r@ == stable_sort(hits@, by_score()),
{
    let mut r: Vec<RankedHit> = Vec::new();
    let mut i: usize = 0;
    assert(hits@.take(0) =~= Seq::empty());
    while i < hits.len()
        invariant
            i <= hits.len(),
            r@ == stable_sort(hits@.take(i as int), by_score()),
        decreases hits.len() - i,
    {
        let x = hits[i];
        let mut pos: usize = r.len();
        while pos > 0 && r[pos - 1].score < x.score
            invariant
                pos <= r.len(),
                forall|k: int| pos <= k < r.len() ==> (#[trigger] r@[k]).score < x.score,
            decreases pos,
        {
            pos -= 1;
        }
        let ghost before = r@;
        r.insert(pos, x);
        proof {
            assert forall|k: int| pos <= k < before.len() implies !by_score()(#[trigger] before[k], x) by {
                assert(before[k].score < x.score);
            }
            if pos > 0 {
                assert(by_score()(before[pos - 1], x));
            }
            lemma_insert_position(before, x, by_score(), pos as int);
            let next = hits@.take(i + 1);
            assert(next.drop_last() =~= hits@.take(i as int));
            assert(next.last() == x);
        }
        i += 1;
    }
    assert(hits@.take(hits.len() as int) =~= hits@);
    r
}

/// The order by falling score tells any two hits apart and is transitive.
pub proof fn lemma_by_score_is_total_preorder()
    ensures
        is_total_preorder(by_score()),
{
    assert forall|a: RankedHit, b: RankedHit| #[trigger] by_score()(a, b) || by_score()(b, a) by {}
    assert forall|a: RankedHit, b: RankedHit, c: RankedHit| #[trigger]
        by_score()(a, b) && #[trigger] by_score()(b, c) implies by_score()(a, c) by {}
}

impl<'a> SmartHit<'a> {
    /// The records of the hit belong together: the country is the one whose
    /// id the state or the city carries, and the state is the one whose id
    /// the city carries.
    pub open spec fn is_linked(self) -> bool {
        match self.item {
            SmartItem::Country(_) => true,
            SmartItem::State { country, state } => country.id == state.country_id,
            SmartItem::City { country, state, city } => state.id == city.state_id && country.id
                == city.country_id,
        }
    }

    /// A hit that points at a country.
    pub fn country(score: i32, country: &'a Country) -> (r: Self)
        ensures
            r == (SmartHit { score, item: SmartItem::Country(country) }),
    {
        SmartHit { score, item: SmartItem::Country(country) }
    }

    /// A hit that points at a state.
    pub fn state(score: i32, country: &'a Country, state: &'a State) -> (r: Self)
        ensures
            r == (SmartHit { score, item: SmartItem::State { country, state } }),
    {
        SmartHit { score, item: SmartItem::State { country, state } }
    }

    /// A hit that points at a city.
    pub fn city(score: i32, country: &'a Country, state: &'a State, city: &'a City) -> (r: Self)
        ensures
            r == (SmartHit { score, item: SmartItem::City { country, state, city } }),
    {
        SmartHit { score, item: SmartItem::City { country, state, city } }
    }

    /// Whether the hit points at a country with the given ISO2 code,
    /// compared as ASCII text without regard to case.
    pub fn is_country_iso2(&self, iso2: &str) -> (r: bool)
        ensures
            r == match self.item {
                SmartItem::Country(c) => eq_ignore_case(c.iso2@, iso2@),
                _ => false,
            },
    {
        match self.item {
            SmartItem::Country(c) => crate::text::eq_ignore_ascii_case(c.iso2.as_str(), iso2),
            _ => false,
        }
    }

    /// Whether the hit points at a city of the given name, compared after
    /// folding.
    pub fn is_city_named(&self, name: &str) -> (r: bool)
        ensures
            r == match self.item {
                SmartItem::City { city, .. } => fold_key_spec(city.name@) == fold_key_spec(name@),
                _ => false,
            },
    {
        match self.item {
            SmartItem::City { city, .. } => crate::fold::equals_folded(city.name.as_str(), name),
            _ => false,
        }
    }

    /// Whether the hit points at a state of the given name, compared after
    /// folding.
    pub fn is_state_named(&self, name: &str) -> (r: bool)
        ensures
            r == match self.item {
                SmartItem::State { state, .. } => fold_key_spec(state.name@) == fold_key_spec(name@),
                _ => false,
            },
    {
        match self.item {
            SmartItem::State { state, .. } => crate::fold::equals_folded(state.name.as_str(), name),
            _ => false,
        }
    }
}

// ---------------------------------------------------------------------------
// What holds of the ranked list
// ---------------------------------------------------------------------------

/// Every entry of the sequence satisfies the condition.
pub open spec fn all_hits(s: Seq<RankedHit>, p: spec_fn(RankedHit) -> bool) -> bool {
    forall|e: int| 0 <= e < s.len() ==> p(#[trigger] s[e])
}

/// What holds of every hit that is gathered for the trimmed query `raw`: it
/// points at a record of the store, its score is at most 100, and a score of
/// 100 is the score of a country whose ISO2 code is the query.
pub open spec fn sound_hit(db: GeoDb, raw: Seq<char>) -> spec_fn(RankedHit) -> bool {
    |h: RankedHit|
        {
            &&& db.holds(h)
            &&& h.score <= 100
            &&& h.score == 100 ==> (h.target matches Target::Country(k) && eq_ignore_case(
                db.countries@[k as int].iso2@,
                raw,
            ))
        }
}

/// What holds of every entry of two lists holds of every entry of the one
/// behind the other.
proof fn lemma_all_hits_concat(a: Seq<RankedHit>, b: Seq<RankedHit>, p: spec_fn(RankedHit) -> bool)
    requires
        all_hits(a, p),
        all_hits(b, p),
    ensures
        all_hits(a + b, p),
{
    assert forall|e: int| 0 <= e < (a + b).len() implies p(#[trigger] (a + b)[e]) by {
        if e < a.len() {
            assert((a + b)[e] == a[e]);
        } else {
            assert((a + b)[e] == b[e - a.len()]);
        }
    }
}

/// Every hit that is gathered is sound.
proof fn lemma_gathered_sound(db: GeoDb, raw: Seq<char>)
    ensures
        all_hits(gathered(db, raw), sound_hit(db, raw)),
{
    let q = fold_key_spec(raw);
    let digits = without_plus(raw);
    let nc = db.countries@.len() as int;
    let ns = db.states@.len() as int;
    let ni = db.cities@.len() as int;
    let code = code_score(db.countries@, raw);
    let name = name_score(db.countries@, q);
    let state = state_score(db.states@, q);
    let city = city_score(db.cities@, q);
    let phone = phone_score(db.countries@, digits);
    let p = sound_hit(db, raw);
    assert(nc == db.countries.len() && ns == db.states.len() && ni == db.cities.len());
    let a = pass(positions(nc, scored(code)), code, country_target());
    let b = pass(positions(nc, scored(name)), name, country_target());
    let c = pass(positions(ns, scored(state)), state, state_target());
    let d = pass(distinct_positions(db, ni, scored(city)), city, city_target());
    let f = pass(positions(nc, scored(phone)), phone, country_target());
    crate::search::lemma_positions(nc, scored(code));
    crate::search::lemma_positions(nc, scored(name));
    crate::search::lemma_positions(ns, scored(state));
    crate::search::lemma_distinct_positions(db, ni, scored(city));
    crate::search::lemma_positions(nc, scored(phone));
    assert(all_hits(a, p)) by {
        let at = positions(nc, scored(code));
        assert forall|e: int| 0 <= e < a.len() implies p(#[trigger] a[e]) by {
            assert(scored(code)(at[e]));
            assert(0 <= at[e] < nc);
            assert(code(at[e]) == Some(100i32));
            assert(eq_ignore_case(db.countries@[at[e]].iso2@, raw));
            assert(a[e].target == Target::Country(at[e] as usize));
            assert((at[e] as usize) as int == at[e]);
        }
    }
    assert(all_hits(b, p)) by {
        let at = positions(nc, scored(name));
        assert forall|e: int| 0 <= e < b.len() implies p(#[trigger] b[e]) by {
            assert(scored(name)(at[e]));
        }
    }
    assert(all_hits(c, p)) by {
        let at = positions(ns, scored(state));
        assert forall|e: int| 0 <= e < c.len() implies p(#[trigger] c[e]) by {
            assert(scored(state)(at[e]));
        }
    }
    assert(all_hits(d, p)) by {
        let at = distinct_positions(db, ni, scored(city));
        assert forall|e: int| 0 <= e < d.len() implies p(#[trigger] d[e]) by {
            assert(scored(city)(at[e]));
        }
    }
    assert(all_hits(f, p)) by {
        let at = positions(nc, scored(phone));
        assert forall|e: int| 0 <= e < f.len() implies p(#[trigger] f[e]) by {
            assert(scored(phone)(at[e]));
        }
    }
    lemma_all_hits_concat(a, b, p);
    lemma_all_hits_concat(a + b, c, p);
    lemma_all_hits_concat(a + b + c, d, p);
    lemma_all_hits_concat(a + b + c + d, f, p);
}

/// What holds of every hit of a list holds of every hit of the list when it
/// is ranked, which holds the same hits in another order.
pub proof fn lemma_all_hits_ranked(g: Seq<RankedHit>, p: spec_fn(RankedHit) -> bool)
    requires
        all_hits(g, p),
    ensures
        all_hits(stable_sort(g, by_score()), p),
{
    broadcast use vstd::seq_lib::group_to_multiset_ensures;

    let r = stable_sort(g, by_score());
    lemma_by_score_is_total_preorder();
    lemma_stable_sort(g, by_score());
    assert forall|e: int| 0 <= e < r.len() implies p(#[trigger] r[e]) by {
        assert(r.contains(r[e]));
        assert(g.to_multiset().count(r[e]) > 0);
        assert(g.contains(r[e]));
        let d = choose|d: int| 0 <= d < g.len() && g[d] == r[e];
        assert(p(g[d]));
    }
}

/// Every hit of the ranked list is sound.
proof fn lemma_ranked_sound(db: GeoDb, raw: Seq<char>)
    ensures
        all_hits(stable_sort(gathered(db, raw), by_score()), sound_hit(db, raw)),
{
    lemma_gathered_sound(db, raw);
    lemma_all_hits_ranked(gathered(db, raw), sound_hit(db, raw));
}

/// Every hit of the ranked list points at a record of the store.
pub proof fn lemma_smart_hits_hold(db: GeoDb, query: Seq<char>)
    ensures
        forall|e: int| 0 <= e < smart_hits(db, query).len() ==> db.holds(#[trigger] smart_hits(db, query)[e]),
{
    let raw = trimmed(query);
    if raw.len() > 0 {
        lemma_ranked_sound(db, raw);
        let r = smart_hits(db, query);
        assert forall|e: int| 0 <= e < r.len() implies db.holds(#[trigger] r[e]) by {
            assert(sound_hit(db, raw)(r[e]));
        }
    }
}

/// The ranked list comes by falling score and holds the hits of the five
/// passes, each as often as the passes give it.
pub proof fn lemma_smart_hits_ranked(db: GeoDb, query: Seq<char>)
    requires
        trimmed(query).len() > 0,
    ensures
        forall|d: int, e: int|
            0 <= d < e < smart_hits(db, query).len() ==> (#[trigger] smart_hits(db, query)[d]).score >= (
            #[trigger] smart_hits(db, query)[e]).score,
        smart_hits(db, query).to_multiset() == gathered(db, trimmed(query)).to_multiset(),
{
    let g = gathered(db, trimmed(query));
    lemma_by_score_is_total_preorder();
    lemma_stable_sort(g, by_score());
    let r = smart_hits(db, query);
    assert forall|d: int, e: int| 0 <= d < e < r.len() implies (#[trigger] r[d]).score >= (
    #[trigger] r[e]).score by {
        assert(by_score()(r[d], r[e]));
    }
}

/// The empty query has no hits.
pub proof fn lemma_empty_query_has_no_hits(db: GeoDb)
    ensures
        smart_hits(db, Seq::empty()) == Seq::<RankedHit>::empty(),
{
    let none = Seq::<char>::empty();
    assert(trimmed(none) =~= none);
}

/// A query that is the ISO2 code of a country, in any ASCII case, finds
/// that country with score 100, and the ranked list begins with a hit of
/// score 100 that points at a country with that code.
pub proof fn lemma_code_hit_ranked_first(db: GeoDb, query: Seq<char>, k: int)
    requires
        0 <= k < db.countries@.len(),
        trimmed(query).len() > 0,
        eq_ignore_case(db.countries@[k].iso2@, trimmed(query)),
    ensures
        smart_hits(db, query).contains(RankedHit { score: 100, target: Target::Country(k as usize) }),
        smart_hits(db, query)[0].score == 100,
        (smart_hits(db, query)[0].target matches Target::Country(first) && first < db.countries@.len()
            && eq_ignore_case(db.countries@[first as int].iso2@, trimmed(query))),
{
    broadcast use vstd::seq_lib::group_to_multiset_ensures;

    let raw = trimmed(query);
    let g = gathered(db, raw);
    let r = smart_hits(db, query);
    let h = RankedHit { score: 100, target: Target::Country(k as usize) };
    let nc = db.countries@.len() as int;
    let code = code_score(db.countries@, raw);
    let at = positions(nc, scored(code));
    let a = pass(at, code, country_target());
    assert(g.contains(h)) by {
        crate::search::lemma_positions(nc, scored(code));
        assert(scored(code)(k));
        assert(at.contains(k));
        let e = choose|e: int| 0 <= e < at.len() && at[e] == k;
        assert(a[e] == h);
        assert(g[e] == h);
    }
    lemma_smart_hits_ranked(db, query);
    assert(r.contains(h)) by {
        assert(g.to_multiset().count(h) > 0);
    }
    let e = choose|e: int| 0 <= e < r.len() && r[e] == h;
    lemma_ranked_sound(db, raw);
    assert(sound_hit(db, raw)(r[0]));
    if e > 0 {
        assert(r[0].score >= r[e].score);
    }
}

/// A city with an alias whose folded form is the folded query matches the
/// query exactly, whatever its name and its other aliases are.
pub proof fn lemma_exact_alias(city: City, q: Seq<char>, a: int)
    requires
        city.aliases matches Some(v) && 0 <= a < v@.len() && fold_key_spec(v@[a]@) == q,
    ensures
        city_kind(city, q) == Some(MatchKind::Exact),
{
    let names = alias_names(city);
    lemma_best_among(names, q);
    assert(names[a] == city.aliases->0@[a]@);
    assert(kind_of(names[a], q) == Some(MatchKind::Exact));
    assert(kind_rank(best_among(names, q)) >= 3);
}

/// No hit of a pass over countries or states points at a city.
proof fn lemma_pass_holds_no_city(at: Seq<int>, score: spec_fn(int) -> Option<i32>, target: spec_fn(int) -> Target, h: RankedHit)
    requires
        h.target is City,
        forall|k: int| !(#[trigger] target(k) is City),
    ensures
        pass(at, score, target).to_multiset().count(h) == 0,
{
    broadcast use vstd::seq_lib::group_to_multiset_ensures;

    let x = pass(at, score, target);
    if x.contains(h) {
        let e = choose|e: int| 0 <= e < x.len() && x[e] == h;
        assert(x[e].target == target(at[e]));
        assert(false);
    }
}

/// A city that matches the query exactly, by its name or by an alias, and
/// that is the first to have its key among the cities that match at all,
/// has exactly one hit in the ranked list, and that hit has score 45.
pub proof fn lemma_exact_city_hit(db: GeoDb, query: Seq<char>, g: int)
    requires
        0 <= g < db.cities@.len(),
        trimmed(query).len() > 0,
        city_kind(db.cities@[g], fold_key_spec(trimmed(query))) == Some(MatchKind::Exact),
        crate::search::first_of_key(db, scored(city_score(db.cities@, fold_key_spec(trimmed(query)))), g),
    ensures
        smart_hits(db, query).to_multiset().count(RankedHit { score: 45, target: Target::City(g as usize) })
            == 1,
        forall|e: int|
            0 <= e < smart_hits(db, query).len() && (#[trigger] smart_hits(db, query)[e]).target
                == Target::City(g as usize) ==> smart_hits(db, query)[e].score == 45,
{
    broadcast use vstd::seq_lib::group_to_multiset_ensures;
    broadcast use vstd::multiset::group_multiset_axioms;

    let raw = trimmed(query);
    let q = fold_key_spec(raw);
    let digits = without_plus(raw);
    let nc = db.countries@.len() as int;
    let ns = db.states@.len() as int;
    let ni = db.cities@.len() as int;
    let code = code_score(db.countries@, raw);
    let name = name_score(db.countries@, q);
    let state = state_score(db.states@, q);
    let city = city_score(db.cities@, q);
    let phone = phone_score(db.countries@, digits);
    let at = distinct_positions(db, ni, scored(city));
    let a = pass(positions(nc, scored(code)), code, country_target());
    let b = pass(positions(nc, scored(name)), name, country_target());
    let c = pass(positions(ns, scored(state)), state, state_target());
    let d = pass(at, city, city_target());
    let f = pass(positions(nc, scored(phone)), phone, country_target());
    let gathered_hits = gathered(db, raw);
    let h = RankedHit { score: 45, target: Target::City(g as usize) };
    assert(ni == db.cities.len());
    assert(city(g) == Some(45i32));
    assert(scored(city)(g));
    crate::search::lemma_distinct_positions(db, ni, scored(city));
    crate::search::lemma_distinct_positions_rise(db, ni, scored(city));
    crate::search::lemma_first_of_key_is_kept(db, ni, scored(city), g);
    let e0 = choose|e: int| 0 <= e < at.len() && at[e] == g;
    assert(d[e0] == h);
    assert(d.no_duplicates()) by {
        assert forall|i: int, j: int| 0 <= i < d.len() && 0 <= j < d.len() && i != j implies d[i] != d[j] by {
            assert(0 <= at[i] < ni && 0 <= at[j] < ni);
            if i < j {
                assert(at[i] < at[j]);
            } else {
                assert(at[j] < at[i]);
            }
            assert(d[i].target == Target::City(at[i] as usize));
            assert(d[j].target == Target::City(at[j] as usize));
        }
    }
    d.lemma_multiset_has_no_duplicates();
    assert(d.contains(h));
    assert(d.to_multiset().count(h) == 1);
    lemma_pass_holds_no_city(positions(nc, scored(code)), code, country_target(), h);
    lemma_pass_holds_no_city(positions(nc, scored(name)), name, country_target(), h);
    lemma_pass_holds_no_city(positions(ns, scored(state)), state, state_target(), h);
    lemma_pass_holds_no_city(positions(nc, scored(phone)), phone, country_target(), h);
    vstd::seq_lib::lemma_multiset_commutative(a, b);
    vstd::seq_lib::lemma_multiset_commutative(a + b, c);
    vstd::seq_lib::lemma_multiset_commutative(a + b + c, d);
    vstd::seq_lib::lemma_multiset_commutative(a + b + c + d, f);
    assert(gathered_hits == a + b + c + d + f);
    assert(gathered_hits.to_multiset().count(h) == 1);
    lemma_smart_hits_ranked(db, query);
    // every hit that points at the city has score 45
    let p = |x: RankedHit| x.target == Target::City(g as usize) ==> x.score == 45;
    assert(all_hits(a, p)) by {
        assert forall|e: int| 0 <= e < a.len() implies p(#[trigger] a[e]) by {
            assert(a[e].target is Country);
        }
    }
    assert(all_hits(b, p)) by {
        assert forall|e: int| 0 <= e < b.len() implies p(#[trigger] b[e]) by {
            assert(b[e].target is Country);
        }
    }
    assert(all_hits(c, p)) by {
        assert forall|e: int| 0 <= e < c.len() implies p(#[trigger] c[e]) by {
            assert(c[e].target is State);
        }
    }
    assert(all_hits(d, p)) by {
        assert forall|e: int| 0 <= e < d.len() implies p(#[trigger] d[e]) by {
            assert(0 <= at[e] < ni);
            assert(d[e].target == Target::City(at[e] as usize));
            if d[e].target == Target::City(g as usize) {
                assert(at[e] == g);
            }
        }
    }
    assert(all_hits(f, p)) by {
        assert forall|e: int| 0 <= e < f.len() implies p(#[trigger] f[e]) by {
            assert(f[e].target is Country);
        }
    }
    lemma_all_hits_concat(a, b, p);
    lemma_all_hits_concat(a + b, c, p);
    lemma_all_hits_concat(a + b + c, d, p);
    lemma_all_hits_concat(a + b + c + d, f, p);
    lemma_all_hits_ranked(gathered_hits, p);
    let r = smart_hits(db, query);
    assert forall|e: int| 0 <= e < r.len() && (#[trigger] r[e]).target == Target::City(g as usize) implies r[e].score
        == 45 by {
        assert(p(r[e]));
    }
}

} // verus!
