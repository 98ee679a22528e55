use geodb_core::convert::from_raw;
use geodb_core::model::{Country, GeoDb};
use geodb_core::raw::{CityRaw, CountryRaw, StateRaw};

fn state(name: &str, cities: &[&str]) -> StateRaw {
    StateRaw {
        id: None,
        name: name.to_string(),
        iso2: Some("XX".to_string()),
        iso3166_2: None,
        native: None,
        latitude: None,
        longitude: None,
        cities: cities
            .iter()
            .map(|c| CityRaw { id: None, name: c.to_string(), latitude: None, longitude: None, timezone: None })
            .collect(),
    }
}

fn country(iso2: &str, states: Vec<StateRaw>) -> CountryRaw {
    CountryRaw {
        id: None,
        name: iso2.to_string(),
        iso3: None,
        iso2: iso2.to_string(),
        phonecode: None,
        capital: Some("Capital".to_string()),
        currency: None,
        tld: None,
        native: None,
        population: Some(7),
        gdp: None,
        region: None,
        subregion: None,
        nationality: None,
        timezones: Vec::new(),
        translations: Vec::new(),
        states,
    }
}

fn sample() -> GeoDb {
    from_raw(
        vec![
            country("AA", vec![state("a1", &["x", "y"]), state("a2", &[])]),
            country("BB", vec![state("b1", &["z"])]),
        ],
        None,
    )
}

#[test]
fn a_built_store_is_well_formed() {
    let db = sample();
    assert!(db.is_well_formed());
    assert!(db.is_partitioned());
    assert!(db.has_partitioned_states());
    assert!(db.has_nested_ranges());
    assert!(db.has_positional_ids());
    assert!(db.has_linked_states());
    assert!(db.has_linked_cities());
    assert!(db.has_parents_in_bounds());
}

#[test]
fn a_gap_between_ranges_is_found() {
    let mut db = sample();
    db.countries[1].states_range = 3..3;
    assert!(!db.is_partitioned());
    assert!(!db.is_well_formed());
    let mut db = sample();
    db.countries[1].cities_range = 2..4;
    assert!(!db.is_partitioned());
    let mut db = sample();
    db.countries[0].states_range = 2..0;
    assert!(!db.is_partitioned());
    let mut db = sample();
    db.states[2].cities_range = 1..3;
    assert!(db.is_partitioned());
    assert!(!db.has_partitioned_states());
    assert!(!db.is_well_formed());
}

#[test]
fn a_wrong_back_reference_is_found() {
    let mut db = sample();
    db.states[2].country_id = 0;
    assert!(db.is_partitioned());
    assert!(!db.has_linked_states());
    assert!(!db.is_well_formed());
    let mut db = sample();
    db.cities[2].state_id = 0;
    assert!(!db.has_linked_cities());
    assert!(!db.is_well_formed());
    let mut db = sample();
    db.cities[0].country_id = 1;
    assert!(!db.has_linked_cities());
    let mut db = sample();
    db.cities[0].country_id = 2;
    assert!(!db.has_parents_in_bounds());
    let mut db = sample();
    db.states[0].country_id = 9;
    assert!(!db.has_parents_in_bounds());
    let mut db = sample();
    db.cities[1].state_id = 3;
    assert!(!db.has_parents_in_bounds());
}

#[test]
fn ids_that_are_no_positions_are_found() {
    let mut db = sample();
    db.countries[1].id = 5;
    assert!(!db.has_positional_ids());
    assert!(!db.is_well_formed());
    let mut db = sample();
    db.states[1].id = 0;
    assert!(!db.has_positional_ids());
}

#[test]
fn a_filtered_store_keeps_what_speaks_of_the_countries() {
    let db = sample();
    assert!(db.is_consistent());
    let f = db.filter_by_iso2(&["BB"]);
    assert!(f.is_partitioned());
    assert!(f.has_linked_states());
    assert!(f.has_linked_country_cities());
    assert!(f.is_consistent());
    assert!(!f.has_positional_ids());
    assert!(!f.is_well_formed());
    let mut g = db.filter_by_iso2(&["BB"]);
    g.cities[0].country_id = 0;
    assert!(!g.has_linked_country_cities());
    assert!(!g.is_consistent());
}

#[test]
fn fields_are_read_with_defaults() {
    let db = sample();
    let c: &Country = &db.countries[0];
    assert_eq!(c.name(), "AA");
    assert_eq!(c.iso2(), "AA");
    assert_eq!(c.iso_code(), "AA");
    assert_eq!(c.iso3(), "");
    assert_eq!(c.phone_code(), "");
    assert_eq!(c.currency(), "");
    assert_eq!(c.region(), "");
    assert_eq!(c.capital(), Some("Capital"));
    assert_eq!(c.population(), Some(7));
    assert_eq!(c.timezones().len(), 0);
    assert_eq!(db.states[0].name(), "a1");
    assert_eq!(db.states[0].state_code(), "XX");
    assert_eq!(db.cities[0].name(), "x");
}

#[test]
fn a_store_can_be_searched_if_its_ids_are_positions() {
    let db = sample();
    assert!(db.is_searchable());
    let tail = db.filter_by_iso2(&["BB"]);
    assert!(!tail.is_searchable());
    let head = db.filter_by_iso2(&["AA"]);
    assert!(head.is_searchable());
    assert_eq!(head.find_states_by_substring("a2").len(), 1);
}

#[test]
fn a_filtered_store_whose_ids_point_at_other_records_cannot_be_searched() {
    let db = from_raw(
        vec![country("AA", vec![]), country("BB", vec![state("b1", &[])]), country("CC", vec![])],
        None,
    );
    let f = db.filter_by_iso2(&["BB", "CC"]);
    assert!(f.has_parents_in_bounds());
    assert!(f.is_consistent());
    assert!(!f.has_positional_ids());
    assert!(!f.is_searchable());
    assert_eq!(f.states[0].country_id, f.countries[0].id);
}
