use geodb_core::alias::{CityMeta, CityMetaIndex};
use geodb_core::convert::from_raw;
use geodb_core::model::GeoDb;
use geodb_core::raw::{CityRaw, CountryRaw, StateRaw};

fn city(name: &str) -> CityRaw {
    CityRaw { id: None, name: name.to_string(), latitude: None, longitude: None, timezone: None }
}

fn state(name: &str, cities: &[&str]) -> StateRaw {
    StateRaw {
        id: None,
        name: name.to_string(),
        iso2: None,
        iso3166_2: None,
        native: None,
        latitude: None,
        longitude: None,
        cities: cities.iter().map(|c| city(c)).collect(),
    }
}

fn country(iso2: &str, iso3: &str, name: &str, phone: &str, states: Vec<StateRaw>) -> CountryRaw {
    CountryRaw {
        id: None,
        name: name.to_string(),
        iso3: Some(iso3.to_string()),
        iso2: iso2.to_string(),
        phonecode: Some(phone.to_string()),
        capital: None,
        currency: None,
        tld: None,
        native: None,
        population: None,
        gdp: None,
        region: None,
        subregion: None,
        nationality: None,
        timezones: Vec::new(),
        translations: Vec::new(),
        states,
    }
}

fn index() -> CityMetaIndex {
    CityMetaIndex {
        entries: vec![
            CityMeta {
                iso2: "CH".to_string(),
                state: "Geneva".to_string(),
                city: "Geneva".to_string(),
                aliases: vec!["Genf".to_string(), "Genève".to_string(), "Genfer Stadt".to_string()],
                regions: vec![],
            },
            CityMeta {
                iso2: "DE".to_string(),
                state: "Bavaria".to_string(),
                city: "Munich".to_string(),
                aliases: vec!["München".to_string()],
                regions: vec![],
            },
        ],
    }
}

fn sample() -> GeoDb {
    from_raw(
        vec![
            country("US", "USA", "United States", "1", vec![state("California", &["Los Angeles", "San Francisco"])]),
            country("DE", "DEU", "Germany", "49", vec![state("Bavaria", &["Munich"]), state("Berlin", &["Berlin"])]),
            country("CH", "CHE", "Switzerland", "41", vec![state("Zürich", &["Zürich"]), state("Geneva", &["Geneva"])]),
        ],
        Some(&index()),
    )
}

#[test]
fn stats_count_the_arrays() {
    let db = sample();
    let s = db.stats();
    assert_eq!((s.countries, s.states, s.cities), (3, 5, 6));
    assert_eq!(db.country_count(), 3);
    assert_eq!(db.countries().len(), 3);
    assert_eq!(db.cities().len(), 6);
}

#[test]
fn cities_come_with_their_state_and_country() {
    let db = sample();
    let all = db.cities();
    let names: Vec<(&str, &str, &str)> =
        all.iter().map(|(c, s, k)| (c.name.as_str(), s.name.as_str(), k.iso2.as_str())).collect();
    assert_eq!(names[0], ("Los Angeles", "California", "US"));
    assert_eq!(names[3], ("Berlin", "Berlin", "DE"));
    assert_eq!(names[5], ("Geneva", "Geneva", "CH"));
}

#[test]
fn states_and_cities_of_a_parent() {
    let db = sample();
    let de = db.find_country_by_iso2("DE").unwrap();
    let states: Vec<&str> = db.states_for_country(de).iter().map(|s| s.name.as_str()).collect();
    assert_eq!(states, vec!["Bavaria", "Berlin"]);
    let ca = &db.states[0];
    let cities: Vec<&str> = db.cities_for_state(ca).iter().map(|c| c.name.as_str()).collect();
    assert_eq!(cities, vec!["Los Angeles", "San Francisco"]);
}

#[test]
fn a_range_that_is_no_slice_gives_nothing() {
    let db = sample();
    let mut stray = db.countries[1].clone();
    stray.states_range = 4..9;
    assert_eq!(db.states_for_country(&stray).len(), 0);
    stray.states_range = 3..2;
    assert_eq!(db.states_for_country(&stray).len(), 0);
    let mut lost = db.states[0].clone();
    lost.cities_range = 5..7;
    assert_eq!(db.cities_for_state(&lost).len(), 0);
}

#[test]
fn country_by_iso2_ignores_ascii_case() {
    let db = sample();
    assert_eq!(db.find_country_by_iso2("de").map(|c| c.name.as_str()), Some("Germany"));
    assert_eq!(db.find_country_by_iso2("De").map(|c| c.name.as_str()), Some("Germany"));
    assert!(db.find_country_by_iso2("DEU").is_none());
    assert!(db.find_country_by_iso2(" de").is_none());
    assert!(db.find_country_by_iso2("").is_none());
}

#[test]
fn country_by_code_trims_and_falls_back_to_iso3() {
    let db = sample();
    assert_eq!(db.find_country_by_code(" us ").map(|c| c.name.as_str()), Some("United States"));
    assert_eq!(db.find_country_by_code("usa").map(|c| c.name.as_str()), Some("United States"));
    assert_eq!(db.find_country_by_code("\u{a0}che\u{2003}\n").map(|c| c.iso2.as_str()), Some("CH"));
    assert_eq!(db.find_country_by_iso3("deu").map(|c| c.iso2.as_str()), Some("DE"));
    assert!(db.find_country_by_code("xx").is_none());
    assert!(db.find_country_by_code("").is_none());
}

#[test]
fn countries_by_phone_prefix() {
    let db = sample();
    let hit = |p: &str| -> Vec<String> {
        db.find_countries_by_phone_code(p).iter().map(|c| c.iso2.clone()).collect()
    };
    assert_eq!(hit("+4"), vec!["DE", "CH"]);
    assert_eq!(hit("4"), vec!["DE", "CH"]);
    assert_eq!(hit("++49"), vec!["DE"]);
    assert_eq!(hit("+1"), vec!["US"]);
    assert_eq!(hit("9"), Vec::<String>::new());
    assert_eq!(hit(""), Vec::<String>::new());
    assert_eq!(hit("+"), Vec::<String>::new());
    assert_eq!(hit("++"), Vec::<String>::new());
    assert_eq!(hit("4+"), Vec::<String>::new());
}

#[test]
fn substring_search_folds_names() {
    let db = sample();
    let cities = db.find_cities_by_substring("zuri");
    assert_eq!(cities.len(), 1);
    assert_eq!(cities[0].0.name, "Zürich");
    assert_eq!(cities[0].1.name, "Zürich");
    assert_eq!(cities[0].2.iso2, "CH");
    assert_eq!(cities[0].1.id, cities[0].0.state_id);
    assert_eq!(cities[0].2.id, cities[0].0.country_id);
    let cities = db.find_cities_by_substring("ZÜRI");
    assert_eq!(cities.len(), 1);
    let states = db.find_states_by_substring("varia");
    assert_eq!(states.len(), 1);
    assert_eq!(states[0].0.name, "Bavaria");
    assert_eq!(states[0].1.name, "Germany");
    assert_eq!(states[0].1.id, states[0].0.country_id);
    let countries = db.find_countries_by_substring("LAND");
    assert_eq!(countries.len(), 1);
    assert_eq!(countries[0].iso2, "CH");
}

#[test]
fn substring_search_reads_aliases() {
    let db = sample();
    let cities = db.find_cities_by_substring("genf");
    assert_eq!(cities.len(), 1);
    assert_eq!(cities[0].0.name, "Geneva");
    let cities = db.find_cities_by_substring("munchen");
    assert_eq!(cities.len(), 1);
    assert_eq!(cities[0].0.name, "Munich");
}

#[test]
fn empty_text_finds_nothing() {
    let db = sample();
    assert!(db.find_cities_by_substring("").is_empty());
    assert!(db.find_states_by_substring("").is_empty());
    assert!(db.find_countries_by_substring("").is_empty());
    assert!(db.find_countries_by_phone_code("").is_empty());
    assert!(db.countries_with_phone_prefix(&[]).is_empty());
    assert!(db.smart_search("").is_empty());
    assert!(db.smart_search("  \t ").is_empty());
    assert!(db.smart_search_ranked("").is_empty());
}

#[test]
fn cities_with_the_same_key_are_given_once() {
    let db = from_raw(
        vec![
            country("CH", "CHE", "Switzerland", "41", vec![state("Bern", &["Bern", "BERN", "Berne"])]),
            country("ch", "CHX", "Shadow", "0", vec![state("bern", &["bern"])]),
        ],
        None,
    );
    let cities = db.find_cities_by_substring("bern");
    let names: Vec<&str> = cities.iter().map(|c| c.0.name.as_str()).collect();
    assert_eq!(names, vec!["Bern", "Berne"]);
}

#[test]
fn alias_resolves_to_store_names() {
    let db = sample();
    let ix = index();
    let got = db.resolve_city_alias_with_index("genf", &ix);
    assert_eq!(
        got.map(|(a, b, c)| (a.as_str(), b.as_str(), c.as_str())),
        Some(("CH", "Geneva", "Geneva"))
    );
    let got = db.resolve_city_alias_with_index("MÜNCHEN", &ix);
    assert_eq!(
        got.map(|(a, b, c)| (a.as_str(), b.as_str(), c.as_str())),
        Some(("DE", "Bavaria", "Munich"))
    );
    let got = db.resolve_city_alias_with_index("München", &ix);
    assert_eq!(
        got.map(|(a, b, c)| (a.as_str(), b.as_str(), c.as_str())),
        Some(("DE", "Bavaria", "Munich"))
    );
    assert!(db.resolve_city_alias_with_index("Atlantis", &ix).is_none());
}
