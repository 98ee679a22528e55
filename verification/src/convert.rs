//! The converter: from the nested records of the source to the flat store.
//!
//! Countries, states and cities are appended in source order. A country's
//! id is its position, and so is a state's. Ranges are taken from the
//! lengths of the arrays before and after an entity's descendants are
//! appended, so they are valid slices by construction.
//!
//! A number that does not fit the narrower field of the store is dropped:
//! the field is left absent, as it is for a value that the source lacks.

use vstd::prelude::*;
use crate::alias::{CityMeta, CityMetaIndex};
use crate::model::{
    clone_strings,
    City,
    CityModel,
    Country,
    CountryModel,
    CountryTimezone,
    GeoDb,
    GeoDbModel,
    State,
    StateModel,
    TimezoneModel,
};
use crate::order::{by_code, in_order, lemma_sort_by_code, sort_by_code, sorted_translations};
use crate::raw::{CityRaw, CountryRaw, CountryTimezoneRaw, StateRaw};

verus! {

// ---------------------------------------------------------------------------
// Counting the source
// ---------------------------------------------------------------------------

/// The number of states in the first `k` countries.
pub open spec fn states_before(raw: Seq<CountryRaw>, k: int) -> int
    decreases k,
{
    if k <= 0 {
        0
    } else {
        states_before(raw, k - 1) + raw[k - 1].states@.len()
    }
}

/// The number of cities in the first `j` states.
pub open spec fn cities_within(states: Seq<StateRaw>, j: int) -> int
    decreases j,
{
    if j <= 0 {
        0
    } else {
        cities_within(states, j - 1) + states[j - 1].cities@.len()
    }
}

/// The number of cities in the first `k` countries.
pub open spec fn cities_before(raw: Seq<CountryRaw>, k: int) -> int
    decreases k,
{
    if k <= 0 {
        0
    } else {
        cities_before(raw, k - 1) + cities_within(raw[k - 1].states@, raw[k - 1].states@.len() as int)
    }
}

/// The source fits a store: country and state ids fit 16 bits, and city
/// positions fit 32 bits.
pub open spec fn raw_fits(raw: Seq<CountryRaw>) -> bool {
    &&& raw.len() <= 0x1_0000
    &&& states_before(raw, raw.len() as int) <= 0xFFFF
    &&& cities_before(raw, raw.len() as int) <= 0xFFFF_FFFF
}

/// The count of states grows with the number of countries counted.
pub proof fn lemma_states_before_ordered(raw: Seq<CountryRaw>, a: int, b: int)
    requires
        a <= b,
    ensures
        0 <= states_before(raw, a) <= states_before(raw, b),
    decreases b,
{
    if b > 0 {
        if a < b {
            lemma_states_before_ordered(raw, a, b - 1);
        } else {
            lemma_states_before_ordered(raw, b - 1, b - 1);
        }
    }
}

/// The count of cities grows with the number of states counted.
pub proof fn lemma_cities_within_ordered(states: Seq<StateRaw>, a: int, b: int)
    requires
        a <= b,
    ensures
        0 <= cities_within(states, a) <= cities_within(states, b),
    decreases b,
{
    if b > 0 {
        if a < b {
            lemma_cities_within_ordered(states, a, b - 1);
        } else {
            lemma_cities_within_ordered(states, b - 1, b - 1);
        }
    }
}

/// The count of cities grows with the number of countries counted.
pub proof fn lemma_cities_before_ordered(raw: Seq<CountryRaw>, a: int, b: int)
    requires
        a <= b,
    ensures
        0 <= cities_before(raw, a) <= cities_before(raw, b),
    decreases b,
{
    if b > 0 {
        lemma_cities_within_ordered(raw[b - 1].states@, 0, raw[b - 1].states@.len() as int);
        if a < b {
            lemma_cities_before_ordered(raw, a, b - 1);
        } else {
            lemma_cities_before_ordered(raw, b - 1, b - 1);
        }
    }
}

// ---------------------------------------------------------------------------
// The records of the store, as the source determines them
// ---------------------------------------------------------------------------

/// A number of the source as an unsigned 32-bit field: kept if it fits,
/// absent if not.
pub open spec fn narrow_u32(v: Option<i64>) -> Option<u32> {
    match v {
        Some(x) => if 0 <= x <= 0xFFFF_FFFF {
            Some(x as u32)
        } else {
            None
        },
        None => None,
    }
}

/// A number of the source as a signed 32-bit field: kept if it fits, absent
/// if not.
pub open spec fn narrow_i32(v: Option<i64>) -> Option<i32> {
    match v {
        Some(x) => if -0x8000_0000 <= x <= 0x7FFF_FFFF {
            Some(x as i32)
        } else {
            None
        },
        None => None,
    }
}

/// The timezone record for a timezone of the source.
pub open spec fn timezone_model(t: CountryTimezoneRaw) -> TimezoneModel {
    TimezoneModel {
        zone_name: t.zone_name.deep_view(),
        gmt_offset: narrow_i32(t.gmt_offset),
        gmt_offset_name: t.gmt_offset_name.deep_view(),
        abbreviation: t.abbreviation.deep_view(),
        tz_name: t.tz_name.deep_view(),
    }
}

/// The country record for a source country with the given id and ranges.
#[verifier::opaque]
pub open spec fn country_model(
    c: CountryRaw,
    id: int,
    states_start: int,
    states_end: int,
    cities_start: int,
    cities_end: int,
) -> CountryModel {
    CountryModel {
        id,
        iso2: c.iso2@,
        iso3: c.iso3.deep_view(),
        name: c.name@,
        capital: c.capital.deep_view(),
        currency: c.currency.deep_view(),
        phone_code: c.phonecode.deep_view(),
        region: c.region.deep_view(),
        subregion: c.subregion.deep_view(),
        native_name: c.native.deep_view(),
        tld: c.tld.deep_view(),
        nationality: c.nationality.deep_view(),
        population: narrow_u32(c.population),
        gdp: narrow_u32(c.gdp),
        translations: sort_by_code(c.translations.deep_view()),
        timezones: Seq::new(c.timezones@.len(), |i: int| timezone_model(c.timezones@[i])),
        states_start,
        states_end,
        cities_start,
        cities_end,
    }
}

/// The state record for a source state with the given ids and city range.
#[verifier::opaque]
pub open spec fn state_model(s: StateRaw, id: int, country_id: int, cities_start: int, cities_end: int) -> StateModel {
    StateModel {
        id,
        country_id,
        name: s.name@,
        code: s.iso2.deep_view(),
        full_code: s.iso3166_2.deep_view(),
        native_name: s.native.deep_view(),
        lat: s.latitude,
        lng: s.longitude,
        cities_start,
        cities_end,
    }
}

/// A list of the side index as a field of a city: absent when it is empty.
pub open spec fn listed(v: Vec<String>) -> Option<Seq<Seq<char>>> {
    if v@.len() > 0 {
        Some(v.deep_view())
    } else {
        None
    }
}

/// The entry of the side index for a city, if there is an index and it has
/// one.
pub open spec fn enrichment(
    meta: Option<&CityMetaIndex>,
    iso2: Seq<char>,
    state: Seq<char>,
    city: Seq<char>,
) -> Option<CityMeta> {
    match meta {
        Some(index) => index.canonical_spec(iso2, state, city),
        None => None,
    }
}

/// The city record for a source city of the given country and state. Its
/// aliases and region labels come from the side index, looked up by the
/// exact country code, state name and city name; its population stands for
/// the numeric id of the source record.
#[verifier::opaque]
pub open spec fn city_model(
    iso2: Seq<char>,
    state_name: Seq<char>,
    city: CityRaw,
    country_id: int,
    state_id: int,
    meta: Option<&CityMetaIndex>,
) -> CityModel {
    let entry = enrichment(meta, iso2, state_name, city.name@);
    CityModel {
        country_id,
        state_id,
        name: city.name@,
        aliases: match entry {
            Some(m) => listed(m.aliases),
            None => None,
        },
        regions: match entry {
            Some(m) => listed(m.regions),
            None => None,
        },
        lat: city.latitude,
        lng: city.longitude,
        population: narrow_u32(city.id),
        timezone: city.timezone.deep_view(),
    }
}

/// The position in the state array of state `s` of country `c`.
pub open spec fn state_position(raw: Seq<CountryRaw>, c: int, s: int) -> int {
    states_before(raw, c) + s
}

/// The position in the city array of the first city of state `s` of
/// country `c`.
pub open spec fn city_base(raw: Seq<CountryRaw>, c: int, s: int) -> int {
    cities_before(raw, c) + cities_within(raw[c].states@, s)
}

/// `db` is the flat form of the source up to a point: of all countries
/// before `k`, of the first `j` states of country `k`, and of the first `m`
/// cities of its state `j`; and it holds nothing else.
#[verifier::opaque]
pub open spec fn flat_upto(
    db: GeoDbModel,
    raw: Seq<CountryRaw>,
    meta: Option<&CityMetaIndex>,
    k: int,
    j: int,
    m: int,
) -> bool {
    &&& 0 <= k <= raw.len()
    &&& 0 <= j
    &&& 0 <= m
    &&& k == raw.len() ==> j == 0 && m == 0
    &&& k < raw.len() ==> j <= raw[k].states@.len()
    &&& k < raw.len() && j == raw[k].states@.len() ==> m == 0
    &&& k < raw.len() && j < raw[k].states@.len() ==> m <= raw[k].states@[j].cities@.len()
    &&& db.countries.len() == k
    &&& db.states.len() == states_before(raw, k) + j
    &&& db.cities.len() == cities_before(raw, k) + cities_within(raw[k].states@, j) + m
    &&& forall|c: int|
        0 <= c < k ==> #[trigger] db.countries[c] == country_model(
            raw[c],
            c,
            states_before(raw, c),
            states_before(raw, c + 1),
            cities_before(raw, c),
            cities_before(raw, c + 1),
        )
    &&& forall|c: int, s: int|
        0 <= c < raw.len() && 0 <= s < raw[c].states@.len() && (c < k || (c == k && s < j))
            ==> db.states[state_position(raw, c, s)] == state_model(
            #[trigger] raw[c].states@[s],
            state_position(raw, c, s),
            c,
            city_base(raw, c, s),
            city_base(raw, c, s + 1),
        )
    &&& forall|c: int, s: int, t: int|
        0 <= c < raw.len() && 0 <= s < raw[c].states@.len() && 0 <= t
            < raw[c].states@[s].cities@.len() && (c < k || (c == k && (s < j || (s == j && t < m))))
            ==> db.cities[city_base(raw, c, s) + t] == city_model(
            raw[c].iso2@,
            raw[c].states@[s].name@,
            #[trigger] raw[c].states@[s].cities@[t],
            c,
            state_position(raw, c, s),
            meta,
        )
}

/// `db` is the flat form of the whole source.
pub open spec fn is_flat_of(db: GeoDbModel, raw: Seq<CountryRaw>, meta: Option<&CityMetaIndex>) -> bool {
    flat_upto(db, raw, meta, raw.len() as int, 0, 0)
}

// ---------------------------------------------------------------------------
// One step of the construction, in the model
// ---------------------------------------------------------------------------

/// A state that comes before the point `(k, j)` has a position below the
/// number of states appended so far.
proof fn lemma_state_position_bound(raw: Seq<CountryRaw>, c: int, s: int, k: int, j: int)
    requires
        0 <= c < raw.len(),
        0 <= s < raw[c].states@.len(),
        0 <= j,
        c < k || (c == k && s < j),
    ensures
        0 <= state_position(raw, c, s) < states_before(raw, k) + j,
{
    lemma_states_before_ordered(raw, 0, c);
    if c < k {
        lemma_states_before_ordered(raw, c + 1, k);
    }
}

/// A city that comes before the point `(k, j, m)` has a position below the
/// number of cities appended so far.
proof fn lemma_city_position_bound(raw: Seq<CountryRaw>, c: int, s: int, t: int, k: int, j: int, m: int)
    requires
        0 <= c < raw.len(),
        0 <= s < raw[c].states@.len(),
        0 <= t < raw[c].states@[s].cities@.len(),
        0 <= j,
        0 <= m,
        c < k || (c == k && (s < j || (s == j && t < m))),
    ensures
        0 <= city_base(raw, c, s) + t < cities_before(raw, k) + cities_within(raw[k].states@, j) + m,
{
    let states = raw[c].states@;
    lemma_cities_before_ordered(raw, 0, c);
    lemma_cities_within_ordered(states, 0, s);
    lemma_cities_within_ordered(raw[k].states@, 0, j);
    if c < k {
        lemma_cities_within_ordered(states, s + 1, states.len() as int);
        lemma_cities_before_ordered(raw, c + 1, k);
    } else if s < j {
        lemma_cities_within_ordered(states, s + 1, j);
    }
}

/// Appending the next city moves the point one city on.
#[verifier::rlimit(40)]
proof fn lemma_push_city(
    old_db: GeoDbModel,
    new_db: GeoDbModel,
    raw: Seq<CountryRaw>,
    meta: Option<&CityMetaIndex>,
    k: int,
    j: int,
    m: int,
)
    requires
        flat_upto(old_db, raw, meta, k, j, m),
        k < raw.len(),
        j < raw[k].states@.len(),
        m < raw[k].states@[j].cities@.len(),
        new_db.countries == old_db.countries,
        new_db.states == old_db.states,
        new_db.cities == old_db.cities.push(
            city_model(
                raw[k].iso2@,
                raw[k].states@[j].name@,
                raw[k].states@[j].cities@[m],
                k,
                state_position(raw, k, j),
                meta,
            ),
        ),
    ensures
        flat_upto(new_db, raw, meta, k, j, m + 1),
{
    reveal(flat_upto);
    assert forall|c: int, s: int|
        0 <= c < raw.len() && 0 <= s < raw[c].states@.len() && (c < k || (c == k && s < j))
        implies new_db.states[state_position(raw, c, s)] == state_model(
        #[trigger] raw[c].states@[s],
        state_position(raw, c, s),
        c,
        city_base(raw, c, s),
        city_base(raw, c, s + 1),
    ) by {}
    assert forall|c: int, s: int, t: int|
        0 <= c < raw.len() && 0 <= s < raw[c].states@.len() && 0 <= t
            < raw[c].states@[s].cities@.len() && (c < k || (c == k && (s < j || (s == j && t < m
            + 1)))) implies new_db.cities[city_base(raw, c, s) + t] == city_model(
        raw[c].iso2@,
        raw[c].states@[s].name@,
        #[trigger] raw[c].states@[s].cities@[t],
        c,
        state_position(raw, c, s),
        meta,
    ) by {
        if c == k && s == j && t == m {
        } else {
            lemma_city_position_bound(raw, c, s, t, k, j, m);
        }
    }
}

/// Appending the state whose cities are all there moves the point to the
/// next state.
#[verifier::rlimit(40)]
proof fn lemma_push_state(
    old_db: GeoDbModel,
    new_db: GeoDbModel,
    raw: Seq<CountryRaw>,
    meta: Option<&CityMetaIndex>,
    k: int,
    j: int,
)
    requires
        k < raw.len(),
        j < raw[k].states@.len(),
        flat_upto(old_db, raw, meta, k, j, raw[k].states@[j].cities@.len() as int),
        new_db.countries == old_db.countries,
        new_db.cities == old_db.cities,
        new_db.states == old_db.states.push(
            state_model(
                raw[k].states@[j],
                state_position(raw, k, j),
                k,
                city_base(raw, k, j),
                city_base(raw, k, j + 1),
            ),
        ),
    ensures
        flat_upto(new_db, raw, meta, k, j + 1, 0),
{
    reveal(flat_upto);
    assert forall|c: int, s: int|
        0 <= c < raw.len() && 0 <= s < raw[c].states@.len() && (c < k || (c == k && s < j + 1))
        implies new_db.states[state_position(raw, c, s)] == state_model(
        #[trigger] raw[c].states@[s],
        state_position(raw, c, s),
        c,
        city_base(raw, c, s),
        city_base(raw, c, s + 1),
    ) by {
        if c == k && s == j {
        } else {
            lemma_state_position_bound(raw, c, s, k, j);
        }
    }
    assert forall|c: int, s: int, t: int|
        0 <= c < raw.len() && 0 <= s < raw[c].states@.len() && 0 <= t
            < raw[c].states@[s].cities@.len() && (c < k || (c == k && (s < j + 1 || (s == j + 1 && t
            < 0)))) implies new_db.cities[city_base(raw, c, s) + t] == city_model(
        raw[c].iso2@,
        raw[c].states@[s].name@,
        #[trigger] raw[c].states@[s].cities@[t],
        c,
        state_position(raw, c, s),
        meta,
    ) by {}
}

/// Appending the country whose states are all there moves the point to the
/// next country.
#[verifier::rlimit(40)]
proof fn lemma_push_country(
    old_db: GeoDbModel,
    new_db: GeoDbModel,
    raw: Seq<CountryRaw>,
    meta: Option<&CityMetaIndex>,
    k: int,
)
    requires
        k < raw.len(),
        flat_upto(old_db, raw, meta, k, raw[k].states@.len() as int, 0),
        new_db.states == old_db.states,
        new_db.cities == old_db.cities,
        new_db.countries == old_db.countries.push(
            country_model(
                raw[k],
                k,
                states_before(raw, k),
                states_before(raw, k + 1),
                cities_before(raw, k),
                cities_before(raw, k + 1),
            ),
        ),
    ensures
        flat_upto(new_db, raw, meta, k + 1, 0, 0),
{
    reveal(flat_upto);
    assert forall|c: int, s: int|
        0 <= c < raw.len() && 0 <= s < raw[c].states@.len() && (c < k + 1 || (c == k + 1 && s < 0))
        implies new_db.states[state_position(raw, c, s)] == state_model(
        #[trigger] raw[c].states@[s],
        state_position(raw, c, s),
        c,
        city_base(raw, c, s),
        city_base(raw, c, s + 1),
    ) by {}
    assert forall|c: int, s: int, t: int|
        0 <= c < raw.len() && 0 <= s < raw[c].states@.len() && 0 <= t
            < raw[c].states@[s].cities@.len() && (c < k + 1 || (c == k + 1 && (s < 0 || (s == 0 && t
            < 0)))) implies new_db.cities[city_base(raw, c, s) + t] == city_model(
        raw[c].iso2@,
        raw[c].states@[s].name@,
        #[trigger] raw[c].states@[s].cities@[t],
        c,
        state_position(raw, c, s),
        meta,
    ) by {}
}

/// What `flat_upto` says of the point and of the lengths of the arrays.
proof fn lemma_flat_lengths(
    db: GeoDbModel,
    raw: Seq<CountryRaw>,
    meta: Option<&CityMetaIndex>,
    k: int,
    j: int,
    m: int,
)
    requires
        flat_upto(db, raw, meta, k, j, m),
    ensures
        0 <= k <= raw.len(),
        0 <= j,
        0 <= m,
        k == raw.len() ==> j == 0 && m == 0,
        k < raw.len() ==> j <= raw[k].states@.len(),
        k < raw.len() && j == raw[k].states@.len() ==> m == 0,
        k < raw.len() && j < raw[k].states@.len() ==> m <= raw[k].states@[j].cities@.len(),
        db.countries.len() == k,
        db.states.len() == states_before(raw, k) + j,
        db.cities.len() == cities_before(raw, k) + cities_within(raw[k].states@, j) + m,
{
    reveal(flat_upto);
}

/// The store with nothing in it is the flat form of the source up to its
/// beginning.
proof fn lemma_flat_empty(db: GeoDbModel, raw: Seq<CountryRaw>, meta: Option<&CityMetaIndex>)
    requires
        db.countries.len() == 0,
        db.states.len() == 0,
        db.cities.len() == 0,
    ensures
        flat_upto(db, raw, meta, 0, 0, 0),
{
    reveal(flat_upto);
}

/// While the source fits a store, so does every point reached on the way.
proof fn lemma_point_fits(raw: Seq<CountryRaw>, k: int, j: int, m: int)
    requires
        raw_fits(raw),
        0 <= k < raw.len(),
        0 <= j <= raw[k].states@.len(),
        0 <= m,
        j < raw[k].states@.len() ==> m <= raw[k].states@[j].cities@.len(),
        j == raw[k].states@.len() ==> m == 0,
    ensures
        k <= 0xFFFF,
        0 <= states_before(raw, k) + j <= states_before(raw, k + 1) <= 0xFFFF,
        0 <= cities_before(raw, k) + cities_within(raw[k].states@, j) + m <= cities_before(raw, k + 1)
            <= 0xFFFF_FFFF,
{
    let states = raw[k].states@;
    lemma_states_before_ordered(raw, 0, k);
    lemma_states_before_ordered(raw, k + 1, raw.len() as int);
    lemma_cities_before_ordered(raw, 0, k);
    lemma_cities_before_ordered(raw, k + 1, raw.len() as int);
    lemma_cities_within_ordered(states, 0, j);
    if j < states.len() {
        lemma_cities_within_ordered(states, j + 1, states.len() as int);
    }
}

// ---------------------------------------------------------------------------
// Building the records
// ---------------------------------------------------------------------------

/// A number of the source as an unsigned 32-bit field.
fn narrow_to_u32(v: Option<i64>) -> (r: Option<u32>)
    ensures
        r == narrow_u32(v),
{
    match v {
        Some(x) => if 0 <= x && x <= 0xFFFF_FFFF {
            Some(x as u32)
        } else {
            None
        },
        None => None,
    }
}

/// A number of the source as a signed 32-bit field.
fn narrow_to_i32(v: Option<i64>) -> (r: Option<i32>)
    ensures
        r == narrow_i32(v),
{
    match v {
        Some(x) => if -0x8000_0000 <= x && x <= 0x7FFF_FFFF {
            Some(x as i32)
        } else {
            None
        },
        None => None,
    }
}

/// The timezone records of a country.
fn build_timezones(v: &Vec<CountryTimezoneRaw>) -> (r: Vec<CountryTimezone>)
    ensures
        r.deep_view() == Seq::new(v@.len(), |i: int| timezone_model(v@[i])),
{
    let mut r: Vec<CountryTimezone> = Vec::new();
    let mut i: usize = 0;
    while i < v.len()
        invariant
            i <= v.len(),
            r.len() == i,
            forall|n: int| 0 <= n < i ==> r@[n]@ == timezone_model(v@[n]),
        decreases v.len() - i,
    {
        let t = &v[i];
        r.push(
            CountryTimezone {
                zone_name: t.zone_name.clone(),
                gmt_offset: narrow_to_i32(t.gmt_offset),
                gmt_offset_name: t.gmt_offset_name.clone(),
                abbreviation: t.abbreviation.clone(),
                tz_name: t.tz_name.clone(),
            },
        );
        i += 1;
    }
    assert(r.deep_view() =~= Seq::new(v@.len(), |i: int| timezone_model(v@[i])));
    r
}

/// A copy of the list, or nothing if the list is empty.
fn nonempty(v: &Vec<String>) -> (r: Option<Vec<String>>)
    ensures
        r.deep_view() == listed(*v),
{
    if v.len() > 0 {
        Some(clone_strings(v))
    } else {
        None
    }
}

/// The city record of a source city.
fn build_city(
    iso2: &str,
    state_name: &str,
    city: &CityRaw,
    country_id: u16,
    state_id: u16,
    meta: Option<&CityMetaIndex>,
) -> (r: City)
    ensures
        r@ == city_model(iso2@, state_name@, *city, country_id as int, state_id as int, meta),
{
    reveal(city_model);
    let mut aliases: Option<Vec<String>> = None;
    let mut regions: Option<Vec<String>> = None;
    if let Some(index) = meta {
        if let Some(m) = index.find_canonical(iso2, state_name, city.name.as_str()) {
            aliases = nonempty(&m.aliases);
            regions = nonempty(&m.regions);
        }
    }
    City {
        country_id,
        state_id,
        name: city.name.clone(),
        aliases,
        regions,
        lat: city.latitude,
        lng: city.longitude,
        population: narrow_to_u32(city.id),
        timezone: city.timezone.clone(),
    }
}

/// The state record of a source state.
fn build_state(s: &StateRaw, id: u16, country_id: u16, cities_start: u32, cities_end: u32) -> (r: State)
    ensures
        r@ == state_model(*s, id as int, country_id as int, cities_start as int, cities_end as int),
{
    reveal(state_model);
    State {
        id,
        country_id,
        name: s.name.clone(),
        code: s.iso2.clone(),
        full_code: s.iso3166_2.clone(),
        native_name: s.native.clone(),
        lat: s.latitude,
        lng: s.longitude,
        cities_range: cities_start..cities_end,
    }
}

/// The country record of a source country.
fn build_country(
    c: &CountryRaw,
    id: u16,
    states_start: u16,
    states_end: u16,
    cities_start: u32,
    cities_end: u32,
) -> (r: Country)
    ensures
        r@ == country_model(
            *c,
            id as int,
            states_start as int,
            states_end as int,
            cities_start as int,
            cities_end as int,
        ),
{
    reveal(country_model);
    Country {
        id,
        iso2: c.iso2.clone(),
        iso3: c.iso3.clone(),
        name: c.name.clone(),
        capital: c.capital.clone(),
        currency: c.currency.clone(),
        phone_code: c.phonecode.clone(),
        region: c.region.clone(),
        subregion: c.subregion.clone(),
        native_name: c.native.clone(),
        tld: c.tld.clone(),
        nationality: c.nationality.clone(),
        population: narrow_to_u32(c.population),
        gdp: narrow_to_u32(c.gdp),
        translations: sorted_translations(&c.translations),
        timezones: build_timezones(&c.timezones),
        states_range: states_start..states_end,
        cities_range: cities_start..cities_end,
    }
}

// ---------------------------------------------------------------------------
// The construction
// ---------------------------------------------------------------------------

/// Appends the cities of state `j` of country `k`, then the state.
fn append_state(db: &mut GeoDb, raw: &Vec<CountryRaw>, k: usize, j: usize, meta: Option<&CityMetaIndex>)
    requires
        raw_fits(raw@),
        k < raw.len(),
        j < raw@[k as int].states@.len(),
        flat_upto(old(db)@, raw@, meta, k as int, j as int, 0),
    ensures
        flat_upto(final(db)@, raw@, meta, k as int, j as int + 1, 0),
{
    let c_raw = &raw[k];
    let s_raw = &c_raw.states[j];
    proof {
        lemma_point_fits(raw@, k as int, j as int, 0);
        lemma_flat_lengths(db@, raw@, meta, k as int, j as int, 0);
    }
    let country_id: u16 = k as u16;
    let state_id: u16 = db.states.len() as u16;
    let cities_start: u32 = db.cities.len() as u32;
    let mut m: usize = 0;
    while m < s_raw.cities.len()
        invariant
            raw_fits(raw@),
            k < raw.len(),
            j < raw@[k as int].states@.len(),
            *c_raw == raw@[k as int],
            *s_raw == raw@[k as int].states@[j as int],
            m <= s_raw.cities.len(),
            country_id == k,
            state_id == state_position(raw@, k as int, j as int),
            cities_start == city_base(raw@, k as int, j as int),
            flat_upto(db@, raw@, meta, k as int, j as int, m as int),
        decreases s_raw.cities.len() - m,
    {
        let ghost before = db@;
        let city = build_city(
            c_raw.iso2.as_str(),
            s_raw.name.as_str(),
            &s_raw.cities[m],
            country_id,
            state_id,
            meta,
        );
        let ghost pushed = city@;
        db.cities.push(city);
        proof {
            assert(db@.cities =~= before.cities.push(pushed));
            assert(db@.states =~= before.states);
            assert(db@.countries =~= before.countries);
            lemma_push_city(before, db@, raw@, meta, k as int, j as int, m as int);
        }
        m += 1;
    }
    proof {
        lemma_point_fits(raw@, k as int, j as int, m as int);
        lemma_flat_lengths(db@, raw@, meta, k as int, j as int, m as int);
    }
    let ghost before = db@;
    let cities_end: u32 = db.cities.len() as u32;
    let state = build_state(s_raw, state_id, country_id, cities_start, cities_end);
    let ghost pushed = state@;
    db.states.push(state);
    proof {
        assert(db@.states =~= before.states.push(pushed));
        assert(db@.cities =~= before.cities);
        assert(db@.countries =~= before.countries);
        lemma_push_state(before, db@, raw@, meta, k as int, j as int);
    }
}

/// Appends the states of country `k` with their cities, then the country.
fn append_country(db: &mut GeoDb, raw: &Vec<CountryRaw>, k: usize, meta: Option<&CityMetaIndex>)
    requires
        raw_fits(raw@),
        k < raw.len(),
        flat_upto(old(db)@, raw@, meta, k as int, 0, 0),
    ensures
        flat_upto(final(db)@, raw@, meta, k as int + 1, 0, 0),
{
    let c_raw = &raw[k];
    proof {
        lemma_point_fits(raw@, k as int, 0, 0);
        lemma_flat_lengths(db@, raw@, meta, k as int, 0, 0);
    }
    let id: u16 = k as u16;
    let states_start: u16 = db.states.len() as u16;
    let cities_start: u32 = db.cities.len() as u32;
    let mut j: usize = 0;
    while j < c_raw.states.len()
        invariant
            raw_fits(raw@),
            k < raw.len(),
            *c_raw == raw@[k as int],
            j <= c_raw.states.len(),
            id == k,
            states_start == states_before(raw@, k as int),
            cities_start == cities_before(raw@, k as int),
            flat_upto(db@, raw@, meta, k as int, j as int, 0),
        decreases c_raw.states.len() - j,
    {
        append_state(db, raw, k, j, meta);
        j += 1;
    }
    proof {
        lemma_point_fits(raw@, k as int, j as int, 0);
        lemma_flat_lengths(db@, raw@, meta, k as int, j as int, 0);
    }
    let ghost before = db@;
    let states_end: u16 = db.states.len() as u16;
    let cities_end: u32 = db.cities.len() as u32;
    let country = build_country(c_raw, id, states_start, states_end, cities_start, cities_end);
    let ghost pushed = country@;
    db.countries.push(country);
    proof {
        assert(db@.countries =~= before.countries.push(pushed));
        assert(db@.states =~= before.states);
        assert(db@.cities =~= before.cities);
        lemma_push_country(before, db@, raw@, meta, k as int);
    }
}

/// Counts the cities of the given states, as long as the count stays within
/// `budget`.
fn count_cities(states: &Vec<StateRaw>, budget: u64) -> (r: Option<u64>)
    ensures
        match r {
            Some(n) => n == cities_within(states@, states@.len() as int) && n <= budget,
            None => cities_within(states@, states@.len() as int) > budget,
        },
{
    let mut total: u64 = 0;
    let mut j: usize = 0;
    while j < states.len()
        invariant
            j <= states.len(),
            total == cities_within(states@, j as int),
            total <= budget,
        decreases states.len() - j,
    {
        let n = states[j].cities.len();
        if n as u64 > budget - total {
            proof {
                lemma_cities_within_ordered(states@, j + 1, states@.len() as int);
            }
            return None;
        }
        total = total + n as u64;
        j += 1;
    }
    Some(total)
}

/// Whether the source fits a store: whether its countries and states can be
/// numbered in 16 bits and its cities in 32.
pub fn fits(raw_countries: &Vec<CountryRaw>) -> (r: bool)
    ensures
        r == raw_fits(raw_countries@),
{
    if raw_countries.len() > 0x1_0000 {
        return false;
    }
    let mut states: u64 = 0;
    let mut cities: u64 = 0;
    let mut k: usize = 0;
    while k < raw_countries.len()
        invariant
            k <= raw_countries.len() <= 0x1_0000,
            states == states_before(raw_countries@, k as int),
            cities == cities_before(raw_countries@, k as int),
            states <= 0xFFFF,
            cities <= 0xFFFF_FFFF,
        decreases raw_countries.len() - k,
    {
        let c = &raw_countries[k];
        let n = c.states.len();
        if n as u64 > 0xFFFF - states {
            proof {
                lemma_states_before_ordered(raw_countries@, k + 1, raw_countries@.len() as int);
            }
            return false;
        }
        match count_cities(&c.states, 0xFFFF_FFFF - cities) {
            Some(m) => {
                states = states + n as u64;
                cities = cities + m;
            },
            None => {
                proof {
                    lemma_cities_before_ordered(raw_countries@, k + 1, raw_countries@.len() as int);
                }
                return false;
            },
        }
        k += 1;
    }
    true
}

/// Builds the flat store of a source.
///
/// Every country, state and city of the source is appended in source order;
/// ids are positions, ranges cover exactly an entity's descendants, and the
/// translations of a country are sorted by language code. The result is
/// determined by the source and the side index alone.
pub fn from_raw(raw_countries: Vec<CountryRaw>, meta_index: Option<&CityMetaIndex>) -> (db: GeoDb)
    requires
        raw_fits(raw_countries@),
    ensures
        is_flat_of(db@, raw_countries@, meta_index),
        db@.wf(),
{
    let mut db = GeoDb { countries: Vec::new(), states: Vec::new(), cities: Vec::new() };
    let mut k: usize = 0;
    proof {
        lemma_flat_empty(db@, raw_countries@, meta_index);
    }
    while k < raw_countries.len()
        invariant
            raw_fits(raw_countries@),
            k <= raw_countries.len(),
            flat_upto(db@, raw_countries@, meta_index, k as int, 0, 0),
        decreases raw_countries.len() - k,
    {
        append_country(&mut db, &raw_countries, k, meta_index);
        k += 1;
    }
    proof {
        lemma_flat_is_wf(db@, raw_countries@, meta_index);
    }
    db
}

/// Builds the flat store of a source if the source fits a store.
pub fn try_from_raw(raw_countries: Vec<CountryRaw>, meta_index: Option<&CityMetaIndex>) -> (r: Option<GeoDb>)
    ensures
        match r {
            Some(db) => raw_fits(raw_countries@) && is_flat_of(db@, raw_countries@, meta_index) && db@.wf(),
            None => !raw_fits(raw_countries@),
        },
{
    if fits(&raw_countries) {
        Some(from_raw(raw_countries, meta_index))
    } else {
        None
    }
}

// ---------------------------------------------------------------------------
// What holds of a built store
// ---------------------------------------------------------------------------

/// Every position of the state array below the states of the first `n`
/// countries is the position of one state of one of them.
pub proof fn lemma_locate_state(raw: Seq<CountryRaw>, n: int, p: int) -> (r: (int, int))
    requires
        0 <= n <= raw.len(),
        0 <= p < states_before(raw, n),
    ensures
        0 <= r.0 < n,
        0 <= r.1 < raw[r.0].states@.len(),
        p == state_position(raw, r.0, r.1),
    decreases n,
{
    if p >= states_before(raw, n - 1) {
        (n - 1, p - states_before(raw, n - 1))
    } else {
        lemma_locate_state(raw, n - 1, p)
    }
}

/// Every number below the number of cities in the first `n` states is the
/// number of one city of one of them, counted from the first city of the
/// first state.
pub proof fn lemma_locate_city_within(states: Seq<StateRaw>, n: int, q: int) -> (r: (int, int))
    requires
        0 <= n <= states.len(),
        0 <= q < cities_within(states, n),
    ensures
        0 <= r.0 < n,
        0 <= r.1 < states[r.0].cities@.len(),
        q == cities_within(states, r.0) + r.1,
    decreases n,
{
    if q >= cities_within(states, n - 1) {
        (n - 1, q - cities_within(states, n - 1))
    } else {
        lemma_locate_city_within(states, n - 1, q)
    }
}

/// Every position of the city array below the cities of the first `n`
/// countries is the position of one city of one state of one of them.
pub proof fn lemma_locate_city(raw: Seq<CountryRaw>, n: int, p: int) -> (r: (int, int, int))
    requires
        0 <= n <= raw.len(),
        0 <= p < cities_before(raw, n),
    ensures
        0 <= r.0 < n,
        0 <= r.1 < raw[r.0].states@.len(),
        0 <= r.2 < raw[r.0].states@[r.1].cities@.len(),
        p == city_base(raw, r.0, r.1) + r.2,
    decreases n,
{
    if p >= cities_before(raw, n - 1) {
        let states = raw[n - 1].states@;
        let (s, t) = lemma_locate_city_within(states, states.len() as int, p - cities_before(raw, n - 1));
        (n - 1, s, t)
    } else {
        lemma_locate_city(raw, n - 1, p)
    }
}

/// The state record that the flat form of a source holds for state `s` of
/// country `c`.
pub proof fn lemma_flat_state(db: GeoDbModel, raw: Seq<CountryRaw>, meta: Option<&CityMetaIndex>, c: int, s: int)
    requires
        is_flat_of(db, raw, meta),
        0 <= c < raw.len(),
        0 <= s < raw[c].states@.len(),
    ensures
        0 <= state_position(raw, c, s) < db.states.len(),
        db.states[state_position(raw, c, s)] == state_model(
            raw[c].states@[s],
            state_position(raw, c, s),
            c,
            city_base(raw, c, s),
            city_base(raw, c, s + 1),
        ),
{
    reveal(flat_upto);
    let st = raw[c].states@[s];
    lemma_state_position_bound(raw, c, s, raw.len() as int, 0);
}

/// The city record that the flat form of a source holds for city `t` of
/// state `s` of country `c`.
pub proof fn lemma_flat_city(
    db: GeoDbModel,
    raw: Seq<CountryRaw>,
    meta: Option<&CityMetaIndex>,
    c: int,
    s: int,
    t: int,
)
    requires
        is_flat_of(db, raw, meta),
        0 <= c < raw.len(),
        0 <= s < raw[c].states@.len(),
        0 <= t < raw[c].states@[s].cities@.len(),
    ensures
        0 <= city_base(raw, c, s) + t < db.cities.len(),
        db.cities[city_base(raw, c, s) + t] == city_model(
            raw[c].iso2@,
            raw[c].states@[s].name@,
            raw[c].states@[s].cities@[t],
            c,
            state_position(raw, c, s),
            meta,
        ),
{
    reveal(flat_upto);
    let city = raw[c].states@[s].cities@[t];
    lemma_city_position_bound(raw, c, s, t, raw.len() as int, 0, 0);
}

/// The country record that the flat form of a source holds for country `c`,
/// and the lengths of its arrays.
pub proof fn lemma_flat_country(db: GeoDbModel, raw: Seq<CountryRaw>, meta: Option<&CityMetaIndex>, c: int)
    requires
        is_flat_of(db, raw, meta),
        0 <= c < raw.len(),
    ensures
        db.countries.len() == raw.len(),
        db.states.len() == states_before(raw, raw.len() as int),
        db.cities.len() == cities_before(raw, raw.len() as int),
        db.countries[c] == country_model(
            raw[c],
            c,
            states_before(raw, c),
            states_before(raw, c + 1),
            cities_before(raw, c),
            cities_before(raw, c + 1),
        ),
{
    reveal(flat_upto);
}

/// The lengths of the arrays of the flat form of a source.
pub proof fn lemma_flat_sizes(db: GeoDbModel, raw: Seq<CountryRaw>, meta: Option<&CityMetaIndex>)
    requires
        is_flat_of(db, raw, meta),
    ensures
        db.countries.len() == raw.len(),
        db.states.len() == states_before(raw, raw.len() as int),
        db.cities.len() == cities_before(raw, raw.len() as int),
{
    reveal(flat_upto);
}

/// In the flat form of a source, the cities of state `s` of country `c`
/// begin where the states' city ranges before it end.
proof fn lemma_flat_boundary(db: GeoDbModel, raw: Seq<CountryRaw>, meta: Option<&CityMetaIndex>, c: int, s: int)
    requires
        is_flat_of(db, raw, meta),
        0 <= c <= raw.len(),
        0 <= s,
        c < raw.len() ==> s <= raw[c].states@.len(),
        c == raw.len() ==> s == 0,
    ensures
        db.state_cities_boundary(state_position(raw, c, s)) == city_base(raw, c, s),
    decreases c, s,
{
    reveal(country_model);
    reveal(state_model);
    reveal(city_model);
    lemma_states_before_ordered(raw, 0, c);
    if s > 0 {
        lemma_flat_state(db, raw, meta, c, s - 1);
        assert(state_position(raw, c, s) - 1 == state_position(raw, c, s - 1));
    } else if c > 0 {
        lemma_flat_boundary(db, raw, meta, c - 1, raw[c - 1].states@.len() as int);
        assert(state_position(raw, c, 0) == state_position(raw, c - 1, raw[c - 1].states@.len() as int));
        assert(city_base(raw, c, 0) == city_base(raw, c - 1, raw[c - 1].states@.len() as int));
    } else {
        assert(state_position(raw, 0, 0) == 0);
        assert(city_base(raw, 0, 0) == 0);
    }
}

/// In the flat form of a source the countries' ranges cut the arrays into
/// consecutive pieces.
proof fn lemma_flat_countries_partition(db: GeoDbModel, raw: Seq<CountryRaw>, meta: Option<&CityMetaIndex>)
    requires
        is_flat_of(db, raw, meta),
    ensures
        db.countries_partition(),
{
    reveal(country_model);
    reveal(state_model);
    reveal(city_model);
    let n = raw.len() as int;
    reveal(flat_upto);
    assert forall|k: int| 0 <= k < db.countries.len() implies {
        &&& #[trigger] db.states_boundary(k) == db.countries[k].states_start
        &&& db.countries[k].states_start <= db.countries[k].states_end
    } by {
        lemma_states_before_ordered(raw, k, k + 1);
    }
    assert forall|k: int| 0 <= k < db.countries.len() implies {
        &&& #[trigger] db.country_cities_boundary(k) == db.countries[k].cities_start
        &&& db.countries[k].cities_start <= db.countries[k].cities_end
    } by {
        lemma_cities_before_ordered(raw, k, k + 1);
    }
}

/// In the flat form of a source the city range of a state begins where the
/// range of the state before it ends.
proof fn lemma_flat_state_range(db: GeoDbModel, raw: Seq<CountryRaw>, meta: Option<&CityMetaIndex>, j: int)
    requires
        is_flat_of(db, raw, meta),
        0 <= j < db.states.len(),
    ensures
        db.state_cities_boundary(j) == db.states[j].cities_start,
        db.states[j].cities_start <= db.states[j].cities_end,
{
    reveal(country_model);
    reveal(state_model);
    reveal(city_model);
    lemma_flat_sizes(db, raw, meta);
    let (c, s) = lemma_locate_state(raw, raw.len() as int, j);
    lemma_flat_state(db, raw, meta, c, s);
    lemma_flat_boundary(db, raw, meta, c, s);
    lemma_cities_within_ordered(raw[c].states@, s, s + 1);
}

/// In the flat form of a source the states' ranges cut the city array into
/// consecutive pieces.
proof fn lemma_flat_states_partition(db: GeoDbModel, raw: Seq<CountryRaw>, meta: Option<&CityMetaIndex>)
    requires
        is_flat_of(db, raw, meta),
    ensures
        db.states_partition(),
{
    reveal(country_model);
    reveal(state_model);
    reveal(city_model);
    let n = raw.len() as int;
    lemma_flat_sizes(db, raw, meta);
    assert forall|j: int| 0 <= j < db.states.len() implies {
        &&& #[trigger] db.state_cities_boundary(j) == db.states[j].cities_start
        &&& db.states[j].cities_start <= db.states[j].cities_end
    } by {
        lemma_flat_state_range(db, raw, meta, j);
    }
    assert(db.state_cities_boundary(db.states.len() as int) == db.cities.len()) by {
        lemma_flat_boundary(db, raw, meta, n, 0);
        assert(state_position(raw, n, 0) == db.states.len());
        assert(city_base(raw, n, 0) == db.cities.len());
    }
}

/// In the flat form of a source a country's city range is made of the city
/// ranges of its states.
proof fn lemma_flat_ranges_nested(db: GeoDbModel, raw: Seq<CountryRaw>, meta: Option<&CityMetaIndex>)
    requires
        is_flat_of(db, raw, meta),
    ensures
        db.ranges_nested(),
{
    reveal(country_model);
    reveal(state_model);
    reveal(city_model);
    lemma_flat_sizes(db, raw, meta);
    assert forall|k: int| 0 <= k < db.countries.len() implies {
        let c = #[trigger] db.countries[k];
        &&& c.cities_start == db.state_cities_boundary(c.states_start)
        &&& c.cities_end == db.state_cities_boundary(c.states_end)
    } by {
        lemma_flat_country(db, raw, meta, k);
        lemma_flat_boundary(db, raw, meta, k, 0);
        lemma_flat_boundary(db, raw, meta, k + 1, 0);
        assert(state_position(raw, k, 0) == states_before(raw, k));
        assert(state_position(raw, k + 1, 0) == states_before(raw, k + 1));
        assert(city_base(raw, k, 0) == cities_before(raw, k));
        assert(city_base(raw, k + 1, 0) == cities_before(raw, k + 1));
    }
}

/// In the flat form of a source ids are positions.
proof fn lemma_flat_ids(db: GeoDbModel, raw: Seq<CountryRaw>, meta: Option<&CityMetaIndex>)
    requires
        is_flat_of(db, raw, meta),
    ensures
        db.ids_are_positions(),
{
    reveal(country_model);
    reveal(state_model);
    reveal(city_model);
    let n = raw.len() as int;
    lemma_flat_sizes(db, raw, meta);
    assert forall|k: int| 0 <= k < db.countries.len() implies (#[trigger] db.countries[k]).id == k by {
        lemma_flat_country(db, raw, meta, k);
    }
    assert forall|j: int| 0 <= j < db.states.len() implies (#[trigger] db.states[j]).id == j by {
        let (c, s) = lemma_locate_state(raw, n, j);
        lemma_flat_state(db, raw, meta, c, s);
    }
}

/// In the flat form of a source every state names its country.
proof fn lemma_flat_states_linked(db: GeoDbModel, raw: Seq<CountryRaw>, meta: Option<&CityMetaIndex>)
    requires
        is_flat_of(db, raw, meta),
    ensures
        db.states_linked(),
{
    reveal(country_model);
    reveal(state_model);
    reveal(city_model);
    lemma_flat_sizes(db, raw, meta);
    assert forall|k: int, j: int|
        0 <= k < db.countries.len() && 0 <= j < db.states.len() && (
        #[trigger] db.countries[k]).states_start <= j < db.countries[k].states_end implies (
    #[trigger] db.states[j]).country_id == db.countries[k].id by {
        lemma_flat_country(db, raw, meta, k);
        lemma_flat_state(db, raw, meta, k, j - states_before(raw, k));
    }
}

/// In the flat form of a source every city names its state and country.
proof fn lemma_flat_cities_linked(db: GeoDbModel, raw: Seq<CountryRaw>, meta: Option<&CityMetaIndex>)
    requires
        is_flat_of(db, raw, meta),
    ensures
        db.cities_linked(),
{
    reveal(country_model);
    reveal(state_model);
    reveal(city_model);
    let n = raw.len() as int;
    lemma_flat_sizes(db, raw, meta);
    assert forall|j: int, i: int|
        0 <= j < db.states.len() && 0 <= i < db.cities.len() && (
        #[trigger] db.states[j]).cities_start <= i < db.states[j].cities_end implies {
        &&& (#[trigger] db.cities[i]).state_id == db.states[j].id
        &&& db.cities[i].country_id == db.states[j].country_id
    } by {
        let (c, s) = lemma_locate_state(raw, n, j);
        lemma_flat_state(db, raw, meta, c, s);
        lemma_flat_city(db, raw, meta, c, s, i - city_base(raw, c, s));
    }
}

/// A store that is the flat form of a source satisfies the invariant of a
/// built store.
pub proof fn lemma_flat_is_wf(db: GeoDbModel, raw: Seq<CountryRaw>, meta: Option<&CityMetaIndex>)
    requires
        is_flat_of(db, raw, meta),
    ensures
        db.wf(),
{
    lemma_flat_countries_partition(db, raw, meta);
    lemma_flat_states_partition(db, raw, meta);
    lemma_flat_ranges_nested(db, raw, meta);
    lemma_flat_ids(db, raw, meta);
    lemma_flat_states_linked(db, raw, meta);
    lemma_flat_cities_linked(db, raw, meta);
}

/// In the flat form of a source the translations of a country come in the
/// order of their language codes, and they are the translations that the
/// source gives for the country, each as often as the source gives it.
pub proof fn lemma_flat_translations(db: GeoDbModel, raw: Seq<CountryRaw>, meta: Option<&CityMetaIndex>, c: int)
    requires
        is_flat_of(db, raw, meta),
        0 <= c < raw.len(),
    ensures
        in_order(db.countries[c].translations, by_code()),
        db.countries[c].translations.to_multiset() == raw[c].translations.deep_view().to_multiset(),
{
    reveal(country_model);
    lemma_flat_country(db, raw, meta, c);
    lemma_sort_by_code(raw[c].translations.deep_view());
}

/// The flat form of a source is determined by the source and the side
/// index: two stores that are both its flat form are the same store.
pub proof fn lemma_flat_unique(a: GeoDbModel, b: GeoDbModel, raw: Seq<CountryRaw>, meta: Option<&CityMetaIndex>)
    requires
        is_flat_of(a, raw, meta),
        is_flat_of(b, raw, meta),
    ensures
        a == b,
{
    let n = raw.len() as int;
    lemma_flat_sizes(a, raw, meta);
    lemma_flat_sizes(b, raw, meta);
    assert forall|k: int| 0 <= k < n implies a.countries[k] == b.countries[k] by {
        lemma_flat_country(a, raw, meta, k);
        lemma_flat_country(b, raw, meta, k);
    }
    assert(a.countries =~= b.countries);
    assert forall|j: int| 0 <= j < a.states.len() implies a.states[j] == b.states[j] by {
        let (c, s) = lemma_locate_state(raw, n, j);
        lemma_flat_state(a, raw, meta, c, s);
        lemma_flat_state(b, raw, meta, c, s);
    }
    assert(a.states =~= b.states);
    assert forall|i: int| 0 <= i < a.cities.len() implies a.cities[i] == b.cities[i] by {
        let (c, s, t) = lemma_locate_city(raw, n, i);
        lemma_flat_city(a, raw, meta, c, s, t);
        lemma_flat_city(b, raw, meta, c, s, t);
    }
    assert(a.cities =~= b.cities);
}

} // verus!
