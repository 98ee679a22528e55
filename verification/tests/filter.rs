use geodb_core::cache::LoadFailure;
use geodb_core::convert::from_raw;
use geodb_core::filter::is_listed;
use geodb_core::model::GeoDb;
use geodb_core::raw::{CityRaw, CountryRaw, StateRaw};

fn city(name: &str) -> CityRaw {
    CityRaw { id: None, name: name.to_string(), latitude: None, longitude: None, timezone: None }
}

fn state(name: &str, cities: &[&str]) -> StateRaw {
    StateRaw {
        id: None,
        name: name.to_string(),
        iso2: None,
        iso3166_2: None,
        native: None,
        latitude: None,
        longitude: None,
        cities: cities.iter().map(|c| city(c)).collect(),
    }
}

fn country(iso2: &str, name: &str, states: Vec<StateRaw>) -> CountryRaw {
    CountryRaw {
        id: None,
        name: name.to_string(),
        iso3: None,
        iso2: iso2.to_string(),
        phonecode: None,
        capital: None,
        currency: None,
        tld: None,
        native: None,
        population: None,
        gdp: None,
        region: None,
        subregion: None,
        nationality: None,
        timezones: Vec::new(),
        translations: Vec::new(),
        states,
    }
}

fn sample() -> GeoDb {
    from_raw(
        vec![
            country("AT", "Austria", vec![state("Tyrol", &["Innsbruck"]), state("Vienna", &["Vienna"])]),
            country("CH", "Switzerland", vec![state("Zürich", &["Zürich", "Winterthur"])]),
            country("DE", "Germany", vec![state("Bavaria", &["Munich"]), state("Berlin", &["Berlin", "Spandau"])]),
        ],
        None,
    )
}

#[test]
fn filter_keeps_listed_countries_with_their_descendants() {
    let db = sample();
    let f = db.filter_by_iso2(&["DE", "AT"]);
    let codes: Vec<&str> = f.countries.iter().map(|c| c.iso2.as_str()).collect();
    assert_eq!(codes, vec!["AT", "DE"]);
    assert_eq!(f.countries[0].states_range, 0..2);
    assert_eq!(f.countries[0].cities_range, 0..2);
    assert_eq!(f.countries[1].states_range, 2..4);
    assert_eq!(f.countries[1].cities_range, 2..5);
    let states: Vec<&str> = f.states.iter().map(|s| s.name.as_str()).collect();
    assert_eq!(states, vec!["Tyrol", "Vienna", "Bavaria", "Berlin"]);
    let cities: Vec<&str> = f.cities.iter().map(|c| c.name.as_str()).collect();
    assert_eq!(cities, vec!["Innsbruck", "Vienna", "Munich", "Berlin", "Spandau"]);
    assert!(f.is_partitioned());
    assert!(f.has_linked_states());
}

#[test]
fn filter_copies_states_and_cities_as_they_are() {
    let db = sample();
    let f = db.filter_by_iso2(&["DE"]);
    assert_eq!(f.countries[0].id, 2);
    assert_eq!(f.states[0], db.states[3]);
    assert_eq!(f.states[1], db.states[4]);
    assert_eq!(f.cities[0], db.cities[4]);
    assert_eq!(f.cities[2], db.cities[6]);
    assert_eq!(f.countries[0].name, db.countries[2].name);
}

#[test]
fn filtering_twice_is_filtering_once() {
    let db = sample();
    let once = db.filter_by_iso2(&["CH", "DE"]);
    let twice = once.filter_by_iso2(&["CH", "DE"]);
    assert_eq!(once, twice);
}

#[test]
fn filtering_by_every_code_gives_the_store() {
    let db = sample();
    let f = db.filter_by_iso2(&["DE", "CH", "AT"]);
    assert_eq!(f, db);
}

#[test]
fn filtering_by_an_absent_code_gives_an_empty_store() {
    let db = sample();
    let f = db.filter_by_iso2(&["ZZ"]);
    assert_eq!(f.countries.len(), 0);
    assert_eq!(f.states.len(), 0);
    assert_eq!(f.cities.len(), 0);
}

#[test]
fn filter_compares_codes_exactly() {
    let db = sample();
    let f = db.filter_by_iso2(&["de"]);
    assert_eq!(f.countries.len(), 0);
    assert!(is_listed(&["DE", "CH"], "CH"));
    assert!(!is_listed(&["DE", "CH"], "ch"));
    assert!(!is_listed(&[], "CH"));
}

#[test]
fn no_filter_and_empty_filter_give_the_store_itself() {
    let empty: [&str; 0] = [];
    assert_eq!(sample().with_filter(None), sample());
    assert_eq!(sample().with_filter(Some(&empty)), sample());
    let f = sample().with_filter(Some(&["CH"]));
    assert_eq!(f.countries.len(), 1);
    assert_eq!(f.cities.len(), 2);
}

#[test]
fn a_built_store_is_delivered_under_the_filter() {
    let delivered = sample().deliver(Some(&["AT"])).unwrap();
    let codes: Vec<&str> = delivered.countries.iter().map(|c| c.iso2.as_str()).collect();
    assert_eq!(codes, vec!["AT"]);
    let states: Vec<&str> = delivered.states.iter().map(|s| s.name.as_str()).collect();
    assert_eq!(states, vec!["Tyrol", "Vienna"]);
    let cities: Vec<&str> = delivered.cities.iter().map(|c| c.name.as_str()).collect();
    assert_eq!(cities, vec!["Innsbruck", "Vienna"]);
    assert_eq!(delivered.countries[0].states_range, 0..2);
    assert_eq!(delivered.countries[0].cities_range, 0..2);
    assert_eq!(delivered, sample().with_filter(Some(&["AT"])));
    assert_eq!(delivered, sample().filter_by_iso2(&["AT"]));
}

#[test]
fn without_a_filter_the_store_is_delivered_as_it_is() {
    let empty: [&str; 0] = [];
    assert_eq!(sample().deliver(None), Ok(sample()));
    assert_eq!(sample().deliver(Some(&empty)), Ok(sample()));
    let mut broken = sample();
    broken.countries[1].states_range = 0..1;
    let kept = sample();
    assert_eq!(broken.deliver(None).map(|db| db.states.len()), Ok(kept.states.len()));
}

#[test]
fn a_store_that_cannot_be_filtered_is_refused() {
    let mut broken = sample();
    broken.countries[1].states_range = 0..1;
    assert!(!broken.can_be_delivered(Some(&["CH"])));
    assert!(broken.can_be_delivered(None));
    assert!(sample().can_be_delivered(Some(&["CH"])));
    assert_eq!(broken.deliver(Some(&["CH"])), Err(LoadFailure::Decode));
}

#[test]
fn a_filtered_store_can_be_searched_if_it_keeps_a_head() {
    let db = sample();
    assert!(db.filter_by_iso2(&["AT"]).is_searchable());
    assert!(db.filter_by_iso2(&["CH", "AT"]).is_searchable());
    assert!(db.filter_by_iso2(&["AT", "CH", "DE"]).is_searchable());
    assert!(db.filter_by_iso2(&["ZZ"]).is_searchable());
    assert!(!db.filter_by_iso2(&["CH"]).is_searchable());
    assert!(!db.filter_by_iso2(&["AT", "DE"]).is_searchable());
    assert!(!db.filter_by_iso2(&["DE"]).is_searchable());
    let head = db.filter_by_iso2(&["AT", "CH"]);
    assert!(head.is_well_formed());
    let found = head.find_cities_by_substring("zuri");
    assert_eq!(found.len(), 1);
    assert_eq!(found[0].2.iso2, "CH");
}
