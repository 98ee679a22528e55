//! The nested records that a store is built from: countries that hold their
//! states, which hold their cities.
//!
//! Coordinates arrive already read: a coordinate is the bit pattern of an
//! IEEE 754 double, and it is absent where the source gave none or gave text
//! that is no number.

use vstd::prelude::*;

verus! {

/// A city of the source.
#[derive(Debug, PartialEq, Eq)]
pub struct CityRaw {
    pub id: Option<i64>,
    pub name: String,
    pub latitude: Option<u64>,
    pub longitude: Option<u64>,
    pub timezone: Option<String>,
}

/// A timezone record of the source.
#[derive(Debug, PartialEq, Eq)]
pub struct CountryTimezoneRaw {
    pub zone_name: Option<String>,
    pub gmt_offset: Option<i64>,
    pub gmt_offset_name: Option<String>,
    pub abbreviation: Option<String>,
    pub tz_name: Option<String>,
}

/// A state of the source, with its cities.
#[derive(Debug, PartialEq, Eq)]
pub struct StateRaw {
    pub id: Option<i64>,
    pub name: String,
    pub iso2: Option<String>,
    pub iso3166_2: Option<String>,
    pub native: Option<String>,
    pub latitude: Option<u64>,
    pub longitude: Option<u64>,
    pub cities: Vec<CityRaw>,
}

/// A country of the source, with its states.
#[derive(Debug, PartialEq, Eq)]
pub struct CountryRaw {
    pub id: Option<i64>,
    pub name: String,
    pub iso3: Option<String>,
    pub iso2: String,
    pub phonecode: Option<String>,
    pub capital: Option<String>,
    pub currency: Option<String>,
    pub tld: Option<String>,
    pub native: Option<String>,
    pub population: Option<i64>,
    pub gdp: Option<i64>,
    pub region: Option<String>,
    pub subregion: Option<String>,
    pub nationality: Option<String>,
    pub timezones: Vec<CountryTimezoneRaw>,
    /// Pairs of language code and translated name, in any order.
    pub translations: Vec<(String, String)>,
    pub states: Vec<StateRaw>,
}

} // verus!
