use geodb_core::alias::{CityMeta, CityMetaIndex};
use geodb_core::convert::{fits, from_raw, try_from_raw};
use geodb_core::raw::{CityRaw, CountryRaw, CountryTimezoneRaw, StateRaw};

fn city(name: &str, id: Option<i64>) -> CityRaw {
    CityRaw { id, name: name.to_string(), latitude: None, longitude: None, timezone: None }
}

fn state(name: &str, cities: Vec<CityRaw>) -> StateRaw {
    StateRaw {
        id: None,
        name: name.to_string(),
        iso2: None,
        iso3166_2: None,
        native: None,
        latitude: None,
        longitude: None,
        cities,
    }
}

fn country(iso2: &str, name: &str, states: Vec<StateRaw>) -> CountryRaw {
    CountryRaw {
        id: None,
        name: name.to_string(),
        iso3: None,
        iso2: iso2.to_string(),
        phonecode: None,
        capital: None,
        currency: None,
        tld: None,
        native: None,
        population: None,
        gdp: None,
        region: None,
        subregion: None,
        nationality: None,
        timezones: Vec::new(),
        translations: Vec::new(),
        states,
    }
}

fn two_by_one_by_two() -> Vec<CountryRaw> {
    vec![
        country("CH", "Switzerland", vec![state("Zürich", vec![city("Zürich", Some(1)), city("Winterthur", Some(2))])]),
        country("DE", "Germany", vec![state("Bavaria", vec![city("Munich", Some(3)), city("Nuremberg", Some(4))])]),
    ]
}

#[test]
fn two_countries_one_state_each_two_cities_each() {
    let raw = two_by_one_by_two();
    assert!(fits(&raw));
    let db = from_raw(raw, None);
    assert_eq!(db.countries.len(), 2);
    assert_eq!(db.states.len(), 2);
    assert_eq!(db.cities.len(), 4);
    assert_eq!(db.countries[0].cities_range, 0..2);
    assert_eq!(db.countries[1].cities_range, 2..4);
    assert_eq!(db.countries[0].states_range, 0..1);
    assert_eq!(db.countries[1].states_range, 1..2);
    assert_eq!(db.states[0].cities_range, 0..2);
    assert_eq!(db.states[1].cities_range, 2..4);
}

#[test]
fn back_references_agree_with_ranges() {
    let db = from_raw(two_by_one_by_two(), None);
    for (k, c) in db.countries.iter().enumerate() {
        assert_eq!(c.id as usize, k);
        for j in c.states_range.clone() {
            assert_eq!(db.states[j as usize].country_id, c.id);
        }
        for i in c.cities_range.clone() {
            assert_eq!(db.cities[i as usize].country_id, c.id);
        }
    }
    for (j, s) in db.states.iter().enumerate() {
        assert_eq!(s.id as usize, j);
        for i in s.cities_range.clone() {
            assert_eq!(db.cities[i as usize].state_id, s.id);
            assert_eq!(db.cities[i as usize].country_id, s.country_id);
        }
    }
    assert!(db.is_well_formed());
    assert!(db.has_parents_in_bounds());
}

#[test]
fn converting_twice_gives_the_same_store() {
    let a = from_raw(two_by_one_by_two(), None);
    let b = from_raw(two_by_one_by_two(), None);
    assert_eq!(a, b);
}

#[test]
fn empty_source_gives_empty_store() {
    let db = from_raw(Vec::new(), None);
    assert_eq!(db.countries.len(), 0);
    assert_eq!(db.states.len(), 0);
    assert_eq!(db.cities.len(), 0);
    assert!(db.is_well_formed());
}

#[test]
fn countries_and_states_without_children_get_empty_ranges() {
    let raw = vec![
        country("AA", "First", vec![state("One", vec![city("a", None)])]),
        country("BB", "Childless", vec![]),
        country("CC", "Third", vec![state("Empty", vec![]), state("Two", vec![city("b", None), city("c", None)])]),
    ];
    let db = from_raw(raw, None);
    assert_eq!(db.countries[1].states_range, 1..1);
    assert_eq!(db.countries[1].cities_range, 1..1);
    assert_eq!(db.countries[2].states_range, 1..3);
    assert_eq!(db.countries[2].cities_range, 1..3);
    assert_eq!(db.states[1].cities_range, 1..1);
    assert_eq!(db.states[2].cities_range, 1..3);
    assert_eq!(db.states[2].id, 2);
    assert_eq!(db.cities[2].state_id, 2);
    assert_eq!(db.cities[2].country_id, 2);
    assert!(db.is_well_formed());
}

#[test]
fn translations_are_sorted_by_language_code() {
    let mut c = country("DE", "Germany", vec![]);
    c.translations = vec![
        ("fr".to_string(), "Allemagne".to_string()),
        ("de".to_string(), "Deutschland".to_string()),
        ("es".to_string(), "Alemania".to_string()),
        ("de".to_string(), "Deutschland (zwei)".to_string()),
    ];
    let db = from_raw(vec![c], None);
    let got: Vec<(&str, &str)> =
        db.countries[0].translations.iter().map(|(k, v)| (k.as_str(), v.as_str())).collect();
    assert_eq!(
        got,
        vec![("de", "Deutschland"), ("de", "Deutschland (zwei)"), ("es", "Alemania"), ("fr", "Allemagne")]
    );
}

#[test]
fn numbers_that_do_not_fit_are_dropped() {
    let mut c = country("XX", "Big", vec![state("S", vec![city("huge", Some(4_294_967_296)), city("neg", Some(-1)), city("max", Some(4_294_967_295))])]);
    c.population = Some(8_000_000_000);
    c.gdp = Some(123);
    c.timezones = vec![
        CountryTimezoneRaw {
            zone_name: Some("Europe/Test".to_string()),
            gmt_offset: Some(3600),
            gmt_offset_name: None,
            abbreviation: None,
            tz_name: None,
        },
        CountryTimezoneRaw {
            zone_name: None,
            gmt_offset: Some(2_147_483_648),
            gmt_offset_name: None,
            abbreviation: None,
            tz_name: None,
        },
    ];
    let db = from_raw(vec![c], None);
    assert_eq!(db.countries[0].population, None);
    assert_eq!(db.countries[0].gdp, Some(123));
    assert_eq!(db.cities[0].population, None);
    assert_eq!(db.cities[1].population, None);
    assert_eq!(db.cities[2].population, Some(4_294_967_295));
    assert_eq!(db.countries[0].timezones[0].gmt_offset, Some(3600));
    assert_eq!(db.countries[0].timezones[0].zone_name.as_deref(), Some("Europe/Test"));
    assert_eq!(db.countries[0].timezones[1].gmt_offset, None);
}

#[test]
fn city_population_is_the_source_id() {
    let db = from_raw(two_by_one_by_two(), None);
    assert_eq!(db.cities[0].population, Some(1));
    assert_eq!(db.cities[3].population, Some(4));
}

#[test]
fn coordinates_are_carried_over() {
    let mut c = city("Bern", None);
    c.latitude = Some(46.948f64.to_bits());
    c.longitude = Some(7.4474f64.to_bits());
    let mut s = state("Bern", vec![c]);
    s.latitude = Some(46.8f64.to_bits());
    let db = from_raw(vec![country("CH", "Switzerland", vec![s])], None);
    assert_eq!(db.cities[0].lat.map(f64::from_bits), Some(46.948));
    assert_eq!(db.cities[0].lng.map(f64::from_bits), Some(7.4474));
    assert_eq!(db.states[0].lat.map(f64::from_bits), Some(46.8));
    assert_eq!(db.states[0].lng, None);
}

#[test]
fn side_index_enriches_by_exact_names() {
    let index = CityMetaIndex {
        entries: vec![
            CityMeta {
                iso2: "CH".to_string(),
                state: "Geneva".to_string(),
                city: "Geneva".to_string(),
                aliases: vec!["Genf".to_string(), "Genève".to_string()],
                regions: vec![],
            },
            CityMeta {
                iso2: "CH".to_string(),
                state: "Zürich".to_string(),
                city: "Zürich".to_string(),
                aliases: vec![],
                regions: vec!["DACH".to_string()],
            },
        ],
    };
    let raw = vec![country(
        "CH",
        "Switzerland",
        vec![state("Geneva", vec![city("Geneva", None), city("geneva", None)]), state("Zürich", vec![city("Zürich", None)])],
    )];
    let db = from_raw(raw, Some(&index));
    assert_eq!(db.cities[0].aliases, Some(vec!["Genf".to_string(), "Genève".to_string()]));
    assert_eq!(db.cities[0].regions, None);
    assert_eq!(db.cities[1].aliases, None);
    assert_eq!(db.cities[2].aliases, None);
    assert_eq!(db.cities[2].regions, Some(vec!["DACH".to_string()]));
}

#[test]
fn a_source_with_too_many_states_does_not_fit() {
    let mut states = Vec::new();
    for n in 0..0x1_0000 {
        states.push(state(&format!("s{n}"), vec![]));
    }
    let raw = vec![country("XX", "Crowded", states)];
    assert!(!fits(&raw));
    let mut states = Vec::new();
    for n in 0..0xFFFF {
        states.push(state(&format!("s{n}"), vec![]));
    }
    let raw = vec![country("XX", "Full", states)];
    assert!(fits(&raw));
    let db = from_raw(raw, None);
    assert_eq!(db.states.len(), 0xFFFF);
    assert_eq!(db.countries[0].states_range, 0..0xFFFF);
    assert_eq!(db.states[0xFFFE].id, 0xFFFE);
}

#[test]
fn building_refuses_a_source_that_does_not_fit() {
    let mut states = Vec::new();
    for n in 0..0x1_0000 {
        states.push(state(&format!("s{n}"), vec![]));
    }
    assert!(try_from_raw(vec![country("XX", "Crowded", states)], None).is_none());
    let db = try_from_raw(two_by_one_by_two(), None).unwrap();
    assert_eq!(db, from_raw(two_by_one_by_two(), None));
}
