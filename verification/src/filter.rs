//! Filtering a store by country code: a new store that holds the countries
//! whose ISO2 code is listed, with their states and cities.
//!
//! The states and the cities of a kept country are copied as they are, in
//! one piece each, which is all of them because the descendants of a country
//! lie side by side. Only the two ranges of the country record are written
//! anew, as positions in the new arrays. The order of what is kept is the
//! order it had. Codes are compared exactly; a caller that wants case
//! ignored brings the codes into the case of the store first.

use vstd::prelude::*;
use crate::cache::LoadFailure;
use crate::model::{City, CountryModel, GeoDb, GeoDbModel, State};
use crate::text::str_eq;
use crate::search::{first_position, lemma_first_position, lemma_positions, positions};
use crate::wellformed::{
    lemma_city_country,
    lemma_partition_in_bounds,
    lemma_state_has_country,
    lemma_state_owner,
    lemma_state_ranges_ordered,
};

verus! {

/// The codes of a list, as a set.
pub open spec fn code_set(codes: Seq<&str>) -> Set<Seq<char>> {
    Set::new(|c: Seq<char>| exists|i: int| 0 <= i < codes.len() && (#[trigger] codes[i])@ == c)
}

/// The store with nothing in it.
pub open spec fn empty_model() -> GeoDbModel {
    GeoDbModel { countries: Seq::empty(), states: Seq::empty(), cities: Seq::empty() }
}

/// A country record with its two ranges set to begin at the given positions
/// and to keep their lengths.
pub open spec fn moved(c: CountryModel, states_start: int, cities_start: int) -> CountryModel {
    CountryModel {
        states_start,
        states_end: states_start + (c.states_end - c.states_start),
        cities_start,
        cities_end: cities_start + (c.cities_end - c.cities_start),
        ..c
    }
}

/// What filtering keeps of the first `n` countries: for each of them whose
/// code is listed, in order, its states and its cities as they are and its
/// record with the ranges moved to where the states and cities now lie.
pub open spec fn filter_upto(db: GeoDbModel, codes: Set<Seq<char>>, n: int) -> GeoDbModel
    decreases n,
{
    if n <= 0 {
        empty_model()
    } else {
        let prev = filter_upto(db, codes, n - 1);
        let c = db.countries[n - 1];
        if codes.contains(c.iso2) {
            GeoDbModel {
                countries: prev.countries.push(moved(c, prev.states.len() as int, prev.cities.len() as int)),
                states: prev.states + db.states.subrange(c.states_start, c.states_end),
                cities: prev.cities + db.cities.subrange(c.cities_start, c.cities_end),
            }
        } else {
            prev
        }
    }
}

/// The store filtered by a set of country codes.
pub open spec fn filter_model(db: GeoDbModel, codes: Set<Seq<char>>) -> GeoDbModel {
    filter_upto(db, codes, db.countries.len() as int)
}

// ---------------------------------------------------------------------------
// Laws
// ---------------------------------------------------------------------------

/// What is kept of the first `n` countries of a partitioned store is a
/// partitioned store itself, no larger than the part it was taken from; and
/// its states still name their countries if they did before.
pub proof fn lemma_filter_upto(db: GeoDbModel, codes: Set<Seq<char>>, n: int)
    requires
        db.countries_partition(),
        0 <= n <= db.countries.len(),
    ensures
        filter_upto(db, codes, n).countries_partition(),
        filter_upto(db, codes, n).countries.len() <= n,
        filter_upto(db, codes, n).states.len() <= db.states_boundary(n),
        filter_upto(db, codes, n).cities.len() <= db.country_cities_boundary(n),
        db.states_linked() ==> filter_upto(db, codes, n).states_linked(),
        forall|k: int|
            0 <= k < filter_upto(db, codes, n).countries.len() ==> codes.contains(
                (#[trigger] filter_upto(db, codes, n).countries[k]).iso2,
            ),
    decreases n,
{
    if n > 0 {
        lemma_filter_upto(db, codes, n - 1);
        lemma_partition_in_bounds(db);
        lemma_state_ranges_ordered(db, n - 1, n);
        let prev = filter_upto(db, codes, n - 1);
        let cur = filter_upto(db, codes, n);
        let c = db.countries[n - 1];
        assert(db.states_boundary(n - 1) == c.states_start);
        assert(db.country_cities_boundary(n - 1) == c.cities_start);
        if codes.contains(c.iso2) {
            let m = prev.countries.len() as int;
            assert forall|k: int| 0 <= k < cur.countries.len() implies {
                &&& #[trigger] cur.states_boundary(k) == cur.countries[k].states_start
                &&& cur.countries[k].states_start <= cur.countries[k].states_end
            } by {
                if k < m {
                    assert(cur.countries[k] == prev.countries[k]);
                    assert(prev.states_boundary(k) == prev.countries[k].states_start);
                    if k > 0 {
                        assert(cur.countries[k - 1] == prev.countries[k - 1]);
                    }
                } else {
                    assert(prev.states_boundary(m) == prev.states.len());
                    if m > 0 {
                        assert(cur.countries[m - 1] == prev.countries[m - 1]);
                    }
                }
            }
            assert forall|k: int| 0 <= k < cur.countries.len() implies {
                &&& #[trigger] cur.country_cities_boundary(k) == cur.countries[k].cities_start
                &&& cur.countries[k].cities_start <= cur.countries[k].cities_end
            } by {
                if k < m {
                    assert(cur.countries[k] == prev.countries[k]);
                    assert(prev.country_cities_boundary(k) == prev.countries[k].cities_start);
                    if k > 0 {
                        assert(cur.countries[k - 1] == prev.countries[k - 1]);
                    }
                } else {
                    assert(prev.country_cities_boundary(m) == prev.cities.len());
                    if m > 0 {
                        assert(cur.countries[m - 1] == prev.countries[m - 1]);
                    }
                }
            }
            assert(cur.countries_partition());
            if db.states_linked() {
                lemma_partition_in_bounds(prev);
                assert forall|k: int, j: int|
                    0 <= k < cur.countries.len() && 0 <= j < cur.states.len() && (
                    #[trigger] cur.countries[k]).states_start <= j < cur.countries[k].states_end implies (
                #[trigger] cur.states[j]).country_id == cur.countries[k].id by {
                    if k < m {
                        assert(cur.countries[k] == prev.countries[k]);
                        assert(cur.states[j] == prev.states[j]);
                    } else {
                        let src = c.states_start + (j - prev.states.len());
                        assert(cur.states[j] == db.states[src]);
                        assert(db.states[src].country_id == db.countries[n - 1].id);
                    }
                }
            }
            assert forall|k: int| 0 <= k < cur.countries.len() implies codes.contains(
                (#[trigger] cur.countries[k]).iso2,
            ) by {
                if k < m {
                    assert(cur.countries[k] == prev.countries[k]);
                }
            }
        }
    }
}

/// What is kept of the first `n` countries of a partitioned store has its
/// cities name their countries if they did before.
pub proof fn lemma_filter_keeps_city_links(db: GeoDbModel, codes: Set<Seq<char>>, n: int)
    requires
        db.countries_partition(),
        db.country_cities_linked(),
        0 <= n <= db.countries.len(),
    ensures
        filter_upto(db, codes, n).country_cities_linked(),
    decreases n,
{
    if n > 0 {
        lemma_filter_keeps_city_links(db, codes, n - 1);
        lemma_filter_upto(db, codes, n - 1);
        lemma_partition_in_bounds(db);
        let prev = filter_upto(db, codes, n - 1);
        let cur = filter_upto(db, codes, n);
        let c = db.countries[n - 1];
        if codes.contains(c.iso2) {
            let m = prev.countries.len() as int;
            lemma_partition_in_bounds(prev);
            assert forall|k: int, i: int|
                0 <= k < cur.countries.len() && 0 <= i < cur.cities.len() && (
                #[trigger] cur.countries[k]).cities_start <= i < cur.countries[k].cities_end implies (
            #[trigger] cur.cities[i]).country_id == cur.countries[k].id by {
                if k < m {
                    assert(cur.countries[k] == prev.countries[k]);
                    assert(cur.cities[i] == prev.cities[i]);
                } else {
                    let src = c.cities_start + (i - prev.cities.len());
                    assert(cur.cities[i] == db.cities[src]);
                    assert(db.cities[src].country_id == db.countries[n - 1].id);
                }
            }
        }
    }
}

/// Filtering a consistent store gives a consistent store.
pub proof fn lemma_filter_keeps_consistent(db: GeoDbModel, codes: Set<Seq<char>>)
    requires
        db.consistent(),
    ensures
        filter_model(db, codes).consistent(),
{
    lemma_filter_upto(db, codes, db.countries.len() as int);
    lemma_filter_keeps_city_links(db, codes, db.countries.len() as int);
}

/// Filtering by a set that lists the code of every country of a partitioned
/// store gives the store itself.
pub proof fn lemma_filter_by_all(db: GeoDbModel, codes: Set<Seq<char>>)
    requires
        db.countries_partition(),
        forall|k: int| 0 <= k < db.countries.len() ==> codes.contains((#[trigger] db.countries[k]).iso2),
    ensures
        filter_model(db, codes) == db,
{
    let n = db.countries.len() as int;
    lemma_filter_all_upto(db, codes, n);
    assert(filter_model(db, codes) == head(db, n));
    assert(db.countries.take(n) =~= db.countries);
    assert(db.states.take(db.states_boundary(n)) =~= db.states);
    assert(db.cities.take(db.country_cities_boundary(n)) =~= db.cities);
}

/// Where every code is listed, what is kept of the first `n` countries is
/// the part of the store that belongs to them.
proof fn lemma_filter_all_upto(db: GeoDbModel, codes: Set<Seq<char>>, n: int)
    requires
        db.countries_partition(),
        0 <= n <= db.countries.len(),
        forall|k: int| 0 <= k < n ==> codes.contains((#[trigger] db.countries[k]).iso2),
    ensures
        0 <= db.states_boundary(n) <= db.states.len(),
        0 <= db.country_cities_boundary(n) <= db.cities.len(),
        filter_upto(db, codes, n) == head(db, n),
    decreases n,
{
    lemma_state_ranges_ordered(db, n, db.countries.len() as int);
    if n > 0 {
        lemma_filter_all_upto(db, codes, n - 1);
        lemma_partition_in_bounds(db);
        let prev = filter_upto(db, codes, n - 1);
        let cur = filter_upto(db, codes, n);
        let c = db.countries[n - 1];
        assert(codes.contains(c.iso2));
        assert(db.states_boundary(n - 1) == c.states_start);
        assert(db.country_cities_boundary(n - 1) == c.cities_start);
        assert(moved(c, prev.states.len() as int, prev.cities.len() as int) == c);
        assert(cur.countries =~= db.countries.take(n));
        assert(cur.states =~= db.states.take(db.states_boundary(n)));
        assert(cur.cities =~= db.cities.take(db.country_cities_boundary(n)));
    } else {
        assert(db.countries.take(0) =~= Seq::empty());
        assert(db.states.take(0) =~= Seq::empty());
        assert(db.cities.take(0) =~= Seq::empty());
    }
}

/// The head of a store: its first `m` countries with their states and
/// cities.
pub open spec fn head(db: GeoDbModel, m: int) -> GeoDbModel {
    GeoDbModel {
        countries: db.countries.take(m),
        states: db.states.take(db.states_boundary(m)),
        cities: db.cities.take(db.country_cities_boundary(m)),
    }
}

/// The countries that are kept are a head of the countries: no country that
/// is dropped comes before one that is kept.
pub open spec fn keeps_a_head(db: GeoDbModel, codes: Set<Seq<char>>) -> bool {
    forall|a: int, b: int|
        0 <= a < b < db.countries.len() && codes.contains((#[trigger] db.countries[b]).iso2)
            ==> codes.contains((#[trigger] db.countries[a]).iso2)
}

/// Where no code of the countries from `m` to `n` is listed, what is kept of
/// the first `n` countries is what is kept of the first `m`.
proof fn lemma_filter_skips(db: GeoDbModel, codes: Set<Seq<char>>, m: int, n: int)
    requires
        0 <= m <= n <= db.countries.len(),
        forall|k: int| m <= k < n ==> !codes.contains((#[trigger] db.countries[k]).iso2),
    ensures
        filter_upto(db, codes, n) == filter_upto(db, codes, m),
    decreases n - m,
{
    if m < n {
        lemma_filter_skips(db, codes, m, n - 1);
        assert(!codes.contains(db.countries[n - 1].iso2));
    }
}

/// The head of a built store can be searched by name: its ids are positions,
/// and its back-references are positions of its arrays.
pub proof fn lemma_head_is_searchable(db: GeoDbModel, m: int)
    requires
        db.wf(),
        0 <= m <= db.countries.len(),
    ensures
        head(db, m).ids_are_positions(),
        head(db, m).parents_in_bounds(),
{
    let h = head(db, m);
    let n = db.countries.len() as int;
    lemma_partition_in_bounds(db);
    lemma_state_ranges_ordered(db, m, n);
    lemma_state_ranges_ordered(db, 0, m);
    assert forall|k: int| 0 <= k < h.countries.len() implies (#[trigger] h.countries[k]).id == k by {
        assert(h.countries[k] == db.countries[k]);
    }
    assert forall|j: int| 0 <= j < h.states.len() implies (#[trigger] h.states[j]).id == j by {
        assert(h.states[j] == db.states[j]);
    }
    assert forall|j: int| 0 <= j < h.states.len() implies 0 <= (#[trigger] h.states[j]).country_id
        < h.countries.len() by {
        assert(h.states[j] == db.states[j]);
        let k = lemma_state_has_country(db, j, m);
        lemma_state_owner(db, j);
    }
    assert forall|i: int| 0 <= i < h.cities.len() implies {
        &&& 0 <= (#[trigger] h.cities[i]).country_id < h.countries.len()
        &&& 0 <= h.cities[i].state_id < h.states.len()
    } by {
        assert(h.cities[i] == db.cities[i]);
        lemma_city_country(db, i);
        let k = db.cities[i].country_id;
        let j = db.cities[i].state_id;
        if k >= m {
            lemma_state_ranges_ordered(db, m, k);
            assert(db.country_cities_boundary(k) == db.countries[k].cities_start);
            assert(false);
        }
        lemma_state_ranges_ordered(db, k + 1, m);
        assert(db.states_boundary(k + 1) == db.countries[k].states_end);
    }
}

/// A filtered built store can be searched by name exactly if the countries
/// kept are a head of the countries. It is then the head itself: the store
/// of these countries, as if the others had never been there.
pub proof fn lemma_filtered_searchable(db: GeoDbModel, codes: Set<Seq<char>>)
    requires
        db.wf(),
    ensures
        keeps_a_head(db, codes) <==> filter_model(db, codes).ids_are_positions(),
        keeps_a_head(db, codes) ==> filter_model(db, codes).parents_in_bounds(),
        keeps_a_head(db, codes) ==> exists|m: int|
            0 <= m <= db.countries.len() && filter_model(db, codes) == #[trigger] head(db, m),
{
    let n = db.countries.len() as int;
    let hit = |k: int| codes.contains(db.countries[k].iso2);
    let miss = |k: int| !codes.contains(db.countries[k].iso2);
    let out = filter_model(db, codes);
    if keeps_a_head(db, codes) {
        lemma_first_position(n, miss);
        let m = match first_position(n, miss) {
            Some(m) => m,
            None => n,
        };
        assert forall|k: int| 0 <= k < m implies codes.contains((#[trigger] db.countries[k]).iso2) by {
            assert(!miss(k));
        }
        assert forall|k: int| m <= k < n implies !codes.contains((#[trigger] db.countries[k]).iso2) by {
            if k > m && codes.contains(db.countries[k].iso2) {
                assert(codes.contains(db.countries[m].iso2));
                assert(miss(m));
            }
            if k == m {
                assert(miss(m));
            }
        }
        lemma_filter_all_upto(db, codes, m);
        lemma_filter_skips(db, codes, m, n);
        assert(out == head(db, m));
        lemma_head_is_searchable(db, m);
    }
    if out.ids_are_positions() {
        lemma_filter_keeps_listed(db, codes, n);
        lemma_positions(n, hit);
        let at = positions(n, hit);
        assert forall|e: int| 0 <= e < at.len() implies #[trigger] at[e] == e by {
            assert(out.countries[e].id == e);
            assert(db.countries[at[e]].id == at[e]);
        }
        assert forall|a: int, b: int|
            0 <= a < b < db.countries.len() && codes.contains((#[trigger] db.countries[b]).iso2)
            implies codes.contains((#[trigger] db.countries[a]).iso2) by {
            assert(hit(b));
            assert(at.contains(b));
            let e = choose|e: int| 0 <= e < at.len() && at[e] == b;
            assert(at[a] == a);
            assert(hit(at[a]));
        }
    }
}

/// Filtering twice by the same set is filtering once.
pub proof fn lemma_filter_idempotent(db: GeoDbModel, codes: Set<Seq<char>>)
    requires
        db.countries_partition(),
    ensures
        filter_model(filter_model(db, codes), codes) == filter_model(db, codes),
{
    lemma_filter_upto(db, codes, db.countries.len() as int);
    lemma_filter_by_all(filter_model(db, codes), codes);
}

/// Filtering by a set that lists the code of no country of the store gives
/// the store with nothing in it: no country, no state, no city.
pub proof fn lemma_filter_by_none(db: GeoDbModel, codes: Set<Seq<char>>)
    requires
        forall|k: int| 0 <= k < db.countries.len() ==> !codes.contains((#[trigger] db.countries[k]).iso2),
    ensures
        filter_model(db, codes) == empty_model(),
{
    lemma_filter_none_upto(db, codes, db.countries.len() as int);
}

/// Where no code is listed, nothing is kept of the first `n` countries.
proof fn lemma_filter_none_upto(db: GeoDbModel, codes: Set<Seq<char>>, n: int)
    requires
        0 <= n <= db.countries.len(),
        forall|k: int| 0 <= k < db.countries.len() ==> !codes.contains((#[trigger] db.countries[k]).iso2),
    ensures
        filter_upto(db, codes, n) == empty_model(),
    decreases n,
{
    if n > 0 {
        lemma_filter_none_upto(db, codes, n - 1);
        assert(!codes.contains(db.countries[n - 1].iso2));
    }
}

/// What filtering keeps are the countries whose code is listed, in the
/// order of the store: the record kept at position `e` is the record at the
/// `e`-th position of the store whose code is listed, but for its ranges.
pub proof fn lemma_filter_keeps_listed(db: GeoDbModel, codes: Set<Seq<char>>, n: int)
    requires
        0 <= n <= db.countries.len(),
    ensures
        ({
            let at = crate::search::positions(n, |k: int| codes.contains(db.countries[k].iso2));
            let kept = filter_upto(db, codes, n).countries;
            &&& kept.len() == at.len()
            &&& forall|e: int|
                0 <= e < kept.len() ==> #[trigger] kept[e] == moved(
                    db.countries[at[e]],
                    kept[e].states_start,
                    kept[e].cities_start,
                )
        }),
    decreases n,
{
    let hit = |k: int| codes.contains(db.countries[k].iso2);
    if n > 0 {
        lemma_filter_keeps_listed(db, codes, n - 1);
        let prev_at = crate::search::positions(n - 1, hit);
        let at = crate::search::positions(n, hit);
        let prev = filter_upto(db, codes, n - 1).countries;
        let kept = filter_upto(db, codes, n).countries;
        assert forall|e: int| 0 <= e < kept.len() implies #[trigger] kept[e] == moved(
            db.countries[at[e]],
            kept[e].states_start,
            kept[e].cities_start,
        ) by {
            if e < prev.len() {
                assert(kept[e] == prev[e]);
                assert(at[e] == prev_at[e]);
            }
        }
    }
}

/// The states and the cities of a country that is kept are kept as they
/// are: the new ranges of its record hold, in the new arrays, what its old
/// ranges held in the old ones.
pub proof fn lemma_filter_keeps_descendants(db: GeoDbModel, codes: Set<Seq<char>>, n: int)
    requires
        db.countries_partition(),
        0 <= n <= db.countries.len(),
    ensures
        ({
            let at = crate::search::positions(n, |k: int| codes.contains(db.countries[k].iso2));
            let out = filter_upto(db, codes, n);
            &&& out.countries.len() == at.len()
            &&& forall|e: int|
                0 <= e < out.countries.len() ==> {
                    let new = #[trigger] out.countries[e];
                    let old = db.countries[at[e]];
                    &&& out.states.subrange(new.states_start, new.states_end) == db.states.subrange(
                        old.states_start,
                        old.states_end,
                    )
                    &&& out.cities.subrange(new.cities_start, new.cities_end) == db.cities.subrange(
                        old.cities_start,
                        old.cities_end,
                    )
                }
        }),
    decreases n,
{
    let hit = |k: int| codes.contains(db.countries[k].iso2);
    if n > 0 {
        lemma_filter_keeps_descendants(db, codes, n - 1);
        lemma_filter_upto(db, codes, n - 1);
        lemma_filter_upto(db, codes, n);
        lemma_partition_in_bounds(db);
        let prev_at = crate::search::positions(n - 1, hit);
        let at = crate::search::positions(n, hit);
        let prev = filter_upto(db, codes, n - 1);
        let out = filter_upto(db, codes, n);
        lemma_partition_in_bounds(prev);
        lemma_partition_in_bounds(out);
        let c = db.countries[n - 1];
        assert forall|e: int| 0 <= e < out.countries.len() implies {
            let new = #[trigger] out.countries[e];
            let old = db.countries[at[e]];
            &&& out.states.subrange(new.states_start, new.states_end) == db.states.subrange(
                old.states_start,
                old.states_end,
            )
            &&& out.cities.subrange(new.cities_start, new.cities_end) == db.cities.subrange(
                old.cities_start,
                old.cities_end,
            )
        } by {
            let new = out.countries[e];
            if e < prev.countries.len() {
                assert(new == prev.countries[e]);
                assert(at[e] == prev_at[e]);
                assert(out.states.subrange(new.states_start, new.states_end) =~= prev.states.subrange(
                    new.states_start,
                    new.states_end,
                ));
                assert(out.cities.subrange(new.cities_start, new.cities_end) =~= prev.cities.subrange(
                    new.cities_start,
                    new.cities_end,
                ));
            } else {
                assert(at[e] == n - 1);
                assert(out.states.subrange(new.states_start, new.states_end) =~= db.states.subrange(
                    c.states_start,
                    c.states_end,
                ));
                assert(out.cities.subrange(new.cities_start, new.cities_end) =~= db.cities.subrange(
                    c.cities_start,
                    c.cities_end,
                ));
            }
        }
    }
}

/// A filter is set: there is a list of codes, and it is not empty.
pub open spec fn filter_is_set(filter: Option<&[&str]>) -> bool {
    filter matches Some(codes) && codes@.len() > 0
}

/// The store under an optional filter: the store itself where no filter is
/// set, else the store filtered by the codes.
pub open spec fn under_filter(db: GeoDbModel, filter: Option<&[&str]>) -> GeoDbModel {
    match filter {
        Some(codes) => if codes@.len() == 0 {
            db
        } else {
            filter_model(db, code_set(codes@))
        },
        None => db,
    }
}

// ---------------------------------------------------------------------------
// The filter
// ---------------------------------------------------------------------------

/// Whether the code is one of the listed codes, compared exactly.
pub fn is_listed(codes: &[&str], iso2: &str) -> (r: bool)
    ensures
        r == code_set(codes@).contains(iso2@),
{
    let mut i: usize = 0;
    while i < codes.len()
        invariant
            i <= codes.len(),
            forall|k: int| 0 <= k < i ==> (#[trigger] codes@[k])@ != iso2@,
        decreases codes.len() - i,
    {
        if str_eq(codes[i], iso2) {
            assert(codes@[i as int]@ == iso2@);
            return true;
        }
        i += 1;
    }
    false
}

/// Appends copies of the states `src[start..end]`.
fn append_states(dst: &mut Vec<State>, src: &Vec<State>, start: usize, end: usize)
    requires
        start <= end <= src.len(),
    ensures
        final(dst).deep_view() == old(dst).deep_view() + src.deep_view().subrange(start as int, end as int),
{
    let ghost before = dst.deep_view();
    let mut j: usize = start;
    assert(dst.deep_view() =~= before + src.deep_view().subrange(start as int, start as int));
    while j < end
        invariant
            start <= j <= end <= src.len(),
            dst.deep_view() == before + src.deep_view().subrange(start as int, j as int),
        decreases end - j,
    {
        let ghost prev = dst.deep_view();
        let item = src[j].clone();
        dst.push(item);
        assert(dst.deep_view() =~= prev.push(src@[j as int]@));
        j += 1;
        assert(dst.deep_view() =~= before + src.deep_view().subrange(start as int, j as int));
    }
}

/// Appends copies of the cities `src[start..end]`.
fn append_cities(dst: &mut Vec<City>, src: &Vec<City>, start: usize, end: usize)
    requires
        start <= end <= src.len(),
    ensures
        final(dst).deep_view() == old(dst).deep_view() + src.deep_view().subrange(start as int, end as int),
{
    let ghost before = dst.deep_view();
    let mut j: usize = start;
    assert(dst.deep_view() =~= before + src.deep_view().subrange(start as int, start as int));
    while j < end
        invariant
            start <= j <= end <= src.len(),
            dst.deep_view() == before + src.deep_view().subrange(start as int, j as int),
        decreases end - j,
    {
        let ghost prev = dst.deep_view();
        let item = src[j].clone();
        dst.push(item);
        assert(dst.deep_view() =~= prev.push(src@[j as int]@));
        j += 1;
        assert(dst.deep_view() =~= before + src.deep_view().subrange(start as int, j as int));
    }
}

impl GeoDb {
    /// The store filtered by a list of ISO2 codes: the countries whose code
    /// is listed, with their states and cities, in the order of this store.
    ///
    /// The result is a store of its own. Its countries' ranges are written
    /// anew and cut its arrays into consecutive pieces; its states and
    /// cities are copies, with the ids and city ranges they had here.
    pub fn filter_by_iso2(&self, codes: &[&str]) -> (r: GeoDb)
        requires
            self@.countries_partition(),
        ensures
            r@ == filter_model(self@, code_set(codes@)),
            r@.countries_partition(),
            self@.states_linked() ==> r@.states_linked(),
            self@.consistent() ==> r@.consistent(),
    {
        let ghost set = code_set(codes@);
        let mut out = GeoDb { countries: Vec::new(), states: Vec::new(), cities: Vec::new() };
        let mut k: usize = 0;
        assert(out@ == filter_upto(self@, set, 0)) by {
            assert(out@.countries =~= Seq::empty());
            assert(out@.states =~= Seq::empty());
            assert(out@.cities =~= Seq::empty());
        }
        while k < self.countries.len()
            invariant
                k <= self.countries.len(),
                self@.countries_partition(),
                set == code_set(codes@),
                out@ == filter_upto(self@, set, k as int),
            decreases self.countries.len() - k,
        {
            let country = &self.countries[k];
            proof {
                lemma_filter_upto(self@, set, k as int);
                lemma_partition_in_bounds(self@);
                lemma_state_ranges_ordered(self@, 0, k as int);
                assert(self@.countries[k as int] == country@);
                assert(self@.states_boundary(k as int) == country@.states_start);
                assert(self@.country_cities_boundary(k as int) == country@.cities_start);
            }
            if is_listed(codes, country.iso2.as_str()) {
                let ghost before = out@;
                let states_start: u16 = out.states.len() as u16;
                let cities_start: u32 = out.cities.len() as u32;
                append_states(
                    &mut out.states,
                    &self.states,
                    country.states_range.start as usize,
                    country.states_range.end as usize,
                );
                append_cities(
                    &mut out.cities,
                    &self.cities,
                    country.cities_range.start as usize,
                    country.cities_range.end as usize,
                );
                proof {
                    assert(before.states.len() <= self@.states_boundary(k as int));
                    assert(before.cities.len() <= self@.country_cities_boundary(k as int));
                    assert(out.states.deep_view().len() == out.states@.len());
                    assert(out.cities.deep_view().len() == out.cities@.len());
                    assert(out.states@.len() == before.states.len() + (country@.states_end
                        - country@.states_start));
                    assert(out.cities@.len() == before.cities.len() + (country@.cities_end
                        - country@.cities_start));
                }
                let mut copy = country.clone();
                copy.states_range = states_start..(out.states.len() as u16);
                copy.cities_range = cities_start..(out.cities.len() as u32);
                assert(copy@ == moved(country@, before.states.len() as int, before.cities.len() as int));
                out.countries.push(copy);
                assert(out@.countries =~= before.countries.push(copy@));
                assert(out@ == filter_upto(self@, set, k + 1));
            }
            k += 1;
        }
        proof {
            lemma_filter_upto(self@, set, self@.countries.len() as int);
            if self@.consistent() {
                lemma_filter_keeps_consistent(self@, set);
            }
        }
        out
    }

    /// What a load hands out for the store at hand, whether it was decoded
    /// or built: the store under the filter. Where a filter is set, a store
    /// whose countries' ranges do not cut its arrays into consecutive pieces
    /// cannot be filtered and is refused as a corrupt cache; a built store
    /// is never refused.
    pub fn deliver(self, filter: Option<&[&str]>) -> (r: Result<GeoDb, LoadFailure>)
        ensures
            match r {
                Ok(db) => {
                    &&& db@ == under_filter(self@, filter)
                    &&& filter_is_set(filter) ==> self@.countries_partition()
                    &&& !filter_is_set(filter) ==> db == self
                },
                Err(f) => f == LoadFailure::Decode && filter_is_set(filter) && !self@.countries_partition(),
            },
            self@.countries_partition() ==> r is Ok,
            self@.consistent() ==> (r matches Ok(db) && db@.consistent()),
    {
        if self.can_be_delivered(filter) {
            Ok(self.with_filter(filter))
        } else {
            Err(LoadFailure::Decode)
        }
    }

    /// Whether the store can be handed out under the filter: whether no
    /// filter is set, or the countries' ranges cut the arrays into
    /// consecutive pieces. A decoded store of which this does not hold is a
    /// corrupt cache.
    pub fn can_be_delivered(&self, filter: Option<&[&str]>) -> (r: bool)
        ensures
            r == (filter_is_set(filter) ==> self@.countries_partition()),
    {
        let set = match filter {
            Some(codes) => codes.len() > 0,
            None => false,
        };
        !set || self.is_partitioned()
    }

    /// The store under an optional filter: the store itself where no filter
    /// or an empty list of codes is given, else the store filtered by the
    /// codes.
    pub fn with_filter(self, filter: Option<&[&str]>) -> (r: GeoDb)
        requires
            filter matches Some(codes) && codes@.len() > 0 ==> self@.countries_partition(),
        ensures
            match filter {
                Some(codes) => if codes@.len() == 0 {
                    r == self
                } else {
                    r@ == filter_model(self@, code_set(codes@))
                },
                None => r == self,
            },
            self@.countries_partition() ==> r@.countries_partition(),
            self@.consistent() ==> r@.consistent(),
    {
        match filter {
            Some(codes) => if codes.len() == 0 {
                self
            } else {
                self.filter_by_iso2(codes)
            },
            None => self,
        }
    }
}

} // verus!
