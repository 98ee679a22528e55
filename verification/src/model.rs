//! The flat store: three arrays of countries, states and cities that refer
//! to each other by numeric ids and half-open index ranges.
//!
//! Every record has a mathematical model (its view) in which strings are
//! character sequences and numbers are unbounded integers. The contracts of
//! the library are stated over these models.

use vstd::prelude::*;
use std::ops::Range;

verus! {

// ---------------------------------------------------------------------------
// Records
// ---------------------------------------------------------------------------

/// A timezone record of a country.
#[derive(Debug, PartialEq, Eq)]
pub struct CountryTimezone {
    pub zone_name: Option<String>,
    pub gmt_offset: Option<i32>,
    pub gmt_offset_name: Option<String>,
    pub abbreviation: Option<String>,
    pub tz_name: Option<String>,
}

/// A country, with the ranges of its states and of its cities.
#[derive(Debug, PartialEq, Eq)]
pub struct Country {
    pub id: u16,
    pub iso2: String,
    pub iso3: Option<String>,
    pub name: String,
    pub capital: Option<String>,
    pub currency: Option<String>,
    pub phone_code: Option<String>,
    pub region: Option<String>,
    pub subregion: Option<String>,
    pub native_name: Option<String>,
    pub tld: Option<String>,
    pub nationality: Option<String>,
    pub population: Option<u32>,
    pub gdp: Option<u32>,
    /// Pairs of language code and translated name, sorted by language code.
    pub translations: Vec<(String, String)>,
    pub timezones: Vec<CountryTimezone>,
    /// The country's states, as a range of the store's state array.
    pub states_range: Range<u16>,
    /// The country's cities, as a range of the store's city array.
    pub cities_range: Range<u32>,
}

/// A state or region, with the range of its cities.
#[derive(Debug, PartialEq, Eq)]
pub struct State {
    pub id: u16,
    /// The id of the country that the state belongs to.
    pub country_id: u16,
    pub name: String,
    pub code: Option<String>,
    pub full_code: Option<String>,
    pub native_name: Option<String>,
    /// Latitude in degrees, as the bit pattern of an IEEE 754 double.
    pub lat: Option<u64>,
    /// Longitude in degrees, as the bit pattern of an IEEE 754 double.
    pub lng: Option<u64>,
    /// The state's cities, as a range of the store's city array.
    pub cities_range: Range<u32>,
}

/// A city.
#[derive(Debug, PartialEq, Eq)]
pub struct City {
    /// The id of the country that the city belongs to.
    pub country_id: u16,
    /// The id of the state that the city belongs to.
    pub state_id: u16,
    pub name: String,
    pub aliases: Option<Vec<String>>,
    pub regions: Option<Vec<String>>,
    /// Latitude in degrees, as the bit pattern of an IEEE 754 double.
    pub lat: Option<u64>,
    /// Longitude in degrees, as the bit pattern of an IEEE 754 double.
    pub lng: Option<u64>,
    /// Taken from the numeric id of the source record, which stands in for a
    /// population figure that the source does not carry.
    pub population: Option<u32>,
    pub timezone: Option<String>,
}

/// The store.
#[derive(Debug, PartialEq, Eq)]
pub struct GeoDb {
    pub countries: Vec<Country>,
    pub states: Vec<State>,
    pub cities: Vec<City>,
}

/// How many records of each kind a store holds.
#[derive(Clone, Copy, Debug, PartialEq, Eq, Structural)]
pub struct DbStats {
    pub countries: usize,
    pub states: usize,
    pub cities: usize,
}

// ---------------------------------------------------------------------------
// Models
// ---------------------------------------------------------------------------

/// The model of a timezone record.
pub struct TimezoneModel {
    pub zone_name: Option<Seq<char>>,
    pub gmt_offset: Option<i32>,
    pub gmt_offset_name: Option<Seq<char>>,
    pub abbreviation: Option<Seq<char>>,
    pub tz_name: Option<Seq<char>>,
}

/// The model of a country.
pub struct CountryModel {
    pub id: int,
    pub iso2: Seq<char>,
    pub iso3: Option<Seq<char>>,
    pub name: Seq<char>,
    pub capital: Option<Seq<char>>,
    pub currency: Option<Seq<char>>,
    pub phone_code: Option<Seq<char>>,
    pub region: Option<Seq<char>>,
    pub subregion: Option<Seq<char>>,
    pub native_name: Option<Seq<char>>,
    pub tld: Option<Seq<char>>,
    pub nationality: Option<Seq<char>>,
    pub population: Option<u32>,
    pub gdp: Option<u32>,
    pub translations: Seq<(Seq<char>, Seq<char>)>,
    pub timezones: Seq<TimezoneModel>,
    pub states_start: int,
    pub states_end: int,
    pub cities_start: int,
    pub cities_end: int,
}

/// The model of a state.
pub struct StateModel {
    pub id: int,
    pub country_id: int,
    pub name: Seq<char>,
    pub code: Option<Seq<char>>,
    pub full_code: Option<Seq<char>>,
    pub native_name: Option<Seq<char>>,
    pub lat: Option<u64>,
    pub lng: Option<u64>,
    pub cities_start: int,
    pub cities_end: int,
}

/// The model of a city.
pub struct CityModel {
    pub country_id: int,
    pub state_id: int,
    pub name: Seq<char>,
    pub aliases: Option<Seq<Seq<char>>>,
    pub regions: Option<Seq<Seq<char>>>,
    pub lat: Option<u64>,
    pub lng: Option<u64>,
    pub population: Option<u32>,
    pub timezone: Option<Seq<char>>,
}

/// The model of a store.
pub struct GeoDbModel {
    pub countries: Seq<CountryModel>,
    pub states: Seq<StateModel>,
    pub cities: Seq<CityModel>,
}

impl DeepView for CountryTimezone {
    type V = TimezoneModel;

    open spec fn deep_view(&self) -> TimezoneModel {
        TimezoneModel {
            zone_name: self.zone_name.deep_view(),
            gmt_offset: self.gmt_offset,
            gmt_offset_name: self.gmt_offset_name.deep_view(),
            abbreviation: self.abbreviation.deep_view(),
            tz_name: self.tz_name.deep_view(),
        }
    }
}

impl View for CountryTimezone {
    type V = TimezoneModel;

    open spec fn view(&self) -> TimezoneModel {
        self.deep_view()
    }
}

impl DeepView for Country {
    type V = CountryModel;

    open spec fn deep_view(&self) -> CountryModel {
        CountryModel {
            id: self.id as int,
            iso2: self.iso2@,
            iso3: self.iso3.deep_view(),
            name: self.name@,
            capital: self.capital.deep_view(),
            currency: self.currency.deep_view(),
            phone_code: self.phone_code.deep_view(),
            region: self.region.deep_view(),
            subregion: self.subregion.deep_view(),
            native_name: self.native_name.deep_view(),
            tld: self.tld.deep_view(),
            nationality: self.nationality.deep_view(),
            population: self.population,
            gdp: self.gdp,
            translations: self.translations.deep_view(),
            timezones: self.timezones.deep_view(),
            states_start: self.states_range.start as int,
            states_end: self.states_range.end as int,
            cities_start: self.cities_range.start as int,
            cities_end: self.cities_range.end as int,
        }
    }
}

impl View for Country {
    type V = CountryModel;

    open spec fn view(&self) -> CountryModel {
        self.deep_view()
    }
}

impl DeepView for State {
    type V = StateModel;

    open spec fn deep_view(&self) -> StateModel {
        StateModel {
            id: self.id as int,
            country_id: self.country_id as int,
            name: self.name@,
            code: self.code.deep_view(),
            full_code: self.full_code.deep_view(),
            native_name: self.native_name.deep_view(),
            lat: self.lat,
            lng: self.lng,
            cities_start: self.cities_range.start as int,
            cities_end: self.cities_range.end as int,
        }
    }
}

impl View for State {
    type V = StateModel;

    open spec fn view(&self) -> StateModel {
        self.deep_view()
    }
}

impl DeepView for City {
    type V = CityModel;

    open spec fn deep_view(&self) -> CityModel {
        CityModel {
            country_id: self.country_id as int,
            state_id: self.state_id as int,
            name: self.name@,
            aliases: self.aliases.deep_view(),
            regions: self.regions.deep_view(),
            lat: self.lat,
            lng: self.lng,
            population: self.population,
            timezone: self.timezone.deep_view(),
        }
    }
}

impl View for City {
    type V = CityModel;

    open spec fn view(&self) -> CityModel {
        self.deep_view()
    }
}

impl DeepView for GeoDb {
    type V = GeoDbModel;

    open spec fn deep_view(&self) -> GeoDbModel {
        GeoDbModel {
            countries: self.countries.deep_view(),
            states: self.states.deep_view(),
            cities: self.cities.deep_view(),
        }
    }
}

impl View for GeoDb {
    type V = GeoDbModel;

    open spec fn view(&self) -> GeoDbModel {
        self.deep_view()
    }
}

// ---------------------------------------------------------------------------
// Copies
// ---------------------------------------------------------------------------

/// A copy of a list of strings.
pub fn clone_strings(v: &Vec<String>) -> (r: Vec<String>)
    ensures
        r.deep_view() == v.deep_view(),
{
    let r = v.clone();
    assert(r.deep_view() =~= v.deep_view());
    r
}

/// A copy of an optional list of strings.
pub fn clone_opt_strings(v: &Option<Vec<String>>) -> (r: Option<Vec<String>>)
    ensures
        r.deep_view() == v.deep_view(),
{
    match v {
        Some(list) => Some(clone_strings(list)),
        None => None,
    }
}

/// A copy of a list of string pairs.
pub fn clone_pairs(v: &Vec<(String, String)>) -> (r: Vec<(String, String)>)
    ensures
        r.deep_view() == v.deep_view(),
{
    let mut r: Vec<(String, String)> = Vec::new();
    let mut i: usize = 0;
    while i < v.len()
        invariant
            i <= v.len(),
            r.len() == i,
            forall|k: int| 0 <= k < i ==> r@[k].deep_view() == v@[k].deep_view(),
        decreases v.len() - i,
    {
        r.push((v[i].0.clone(), v[i].1.clone()));
        i += 1;
    }
    assert(r.deep_view() =~= v.deep_view());
    r
}

impl Clone for CountryTimezone {
    fn clone(&self) -> (r: Self)
        ensures
            r@ == self@,
    {
        CountryTimezone {
            zone_name: self.zone_name.clone(),
            gmt_offset: self.gmt_offset,
            gmt_offset_name: self.gmt_offset_name.clone(),
            abbreviation: self.abbreviation.clone(),
            tz_name: self.tz_name.clone(),
        }
    }
}

/// A copy of a list of timezone records.
pub fn clone_timezones(v: &Vec<CountryTimezone>) -> (r: Vec<CountryTimezone>)
    ensures
        r.deep_view() == v.deep_view(),
{
    let mut r: Vec<CountryTimezone> = Vec::new();
    let mut i: usize = 0;
    while i < v.len()
        invariant
            i <= v.len(),
            r.len() == i,
            forall|k: int| 0 <= k < i ==> r@[k]@ == v@[k]@,
        decreases v.len() - i,
    {
        r.push(v[i].clone());
        i += 1;
    }
    assert(r.deep_view() =~= v.deep_view());
    r
}

impl Clone for Country {
    fn clone(&self) -> (r: Self)
        ensures
            r@ == self@,
    {
        Country {
            id: self.id,
            iso2: self.iso2.clone(),
            iso3: self.iso3.clone(),
            name: self.name.clone(),
            capital: self.capital.clone(),
            currency: self.currency.clone(),
            phone_code: self.phone_code.clone(),
            region: self.region.clone(),
            subregion: self.subregion.clone(),
            native_name: self.native_name.clone(),
            tld: self.tld.clone(),
            nationality: self.nationality.clone(),
            population: self.population,
            gdp: self.gdp,
            translations: clone_pairs(&self.translations),
            timezones: clone_timezones(&self.timezones),
            states_range: self.states_range.start..self.states_range.end,
            cities_range: self.cities_range.start..self.cities_range.end,
        }
    }
}

impl Clone for State {
    fn clone(&self) -> (r: Self)
        ensures
            r@ == self@,
    {
        State {
            id: self.id,
            country_id: self.country_id,
            name: self.name.clone(),
            code: self.code.clone(),
            full_code: self.full_code.clone(),
            native_name: self.native_name.clone(),
            lat: self.lat,
            lng: self.lng,
            cities_range: self.cities_range.start..self.cities_range.end,
        }
    }
}

impl Clone for City {
    fn clone(&self) -> (r: Self)
        ensures
            r@ == self@,
    {
        City {
            country_id: self.country_id,
            state_id: self.state_id,
            name: self.name.clone(),
            aliases: clone_opt_strings(&self.aliases),
            regions: clone_opt_strings(&self.regions),
            lat: self.lat,
            lng: self.lng,
            population: self.population,
            timezone: self.timezone.clone(),
        }
    }
}

} // verus!
