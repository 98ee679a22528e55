use geodb_core::alias::{CityMeta, CityMetaIndex};
use geodb_core::convert::from_raw;
use geodb_core::model::GeoDb;
use geodb_core::raw::{CityRaw, CountryRaw, StateRaw};
use geodb_core::smart::{rank, RankedHit, SmartItem, Target};

fn city(name: &str) -> CityRaw {
    CityRaw { id: None, name: name.to_string(), latitude: None, longitude: None, timezone: None }
}

fn state(name: &str, cities: &[&str]) -> StateRaw {
    StateRaw {
        id: None,
        name: name.to_string(),
        iso2: None,
        iso3166_2: None,
        native: None,
        latitude: None,
        longitude: None,
        cities: cities.iter().map(|c| city(c)).collect(),
    }
}

fn country(iso2: &str, name: &str, phone: &str, states: Vec<StateRaw>) -> CountryRaw {
    CountryRaw {
        id: None,
        name: name.to_string(),
        iso3: None,
        iso2: iso2.to_string(),
        phonecode: Some(phone.to_string()),
        capital: None,
        currency: None,
        tld: None,
        native: None,
        population: None,
        gdp: None,
        region: None,
        subregion: None,
        nationality: None,
        timezones: Vec::new(),
        translations: Vec::new(),
        states,
    }
}

fn sample() -> GeoDb {
    let index = CityMetaIndex {
        entries: vec![CityMeta {
            iso2: "CH".to_string(),
            state: "Geneva".to_string(),
            city: "Geneva".to_string(),
            aliases: vec!["Genf".to_string(), "Genève".to_string()],
            regions: vec![],
        }],
    };
    let mut de = country("DE", "Germany", "49", vec![state("Bavaria", &["Munich"]), state("Berlin", &["Berlin"])]);
    de.native = Some("Deutschland".to_string());
    de.translations = vec![("fr".to_string(), "Allemagne".to_string()), ("it".to_string(), "Germania".to_string())];
    from_raw(
        vec![
            country("US", "United States", "1", vec![state("California", &["Los Angeles"])]),
            de,
            country("CH", "Switzerland", "41", vec![state("Zürich", &["Zürich"]), state("Geneva", &["Geneva"])]),
            country("AU", "Australia", "61", vec![]),
        ],
        Some(&index),
    )
}

fn scores(db: &GeoDb, q: &str) -> Vec<(i32, Target)> {
    db.smart_search_ranked(q).iter().map(|h| (h.score, h.target)).collect()
}

#[test]
fn iso2_code_scores_100_and_comes_first() {
    let db = sample();
    for q in ["US", "us", "uS", " us "] {
        let hits = db.smart_search(q);
        assert!(!hits.is_empty());
        assert_eq!(hits[0].score, 100);
        assert!(hits[0].is_country_iso2("US"));
        assert!(hits[0].is_country_iso2("us"));
        assert!(!hits[0].is_country_iso2("DE"));
    }
    assert_eq!(scores(&db, "us"), vec![(100, Target::Country(0)), (70, Target::Country(3))]);
}

#[test]
fn alias_finds_the_city() {
    let db = sample();
    let hits = db.smart_search("genf");
    assert!(hits.iter().any(|h| h.is_city_named("Geneva")));
    assert_eq!(scores(&db, "genf"), vec![(45, Target::City(4))]);
    assert_eq!(scores(&db, "geneve"), vec![(45, Target::City(4))]);
    assert_eq!(scores(&db, "geneva"), vec![(60, Target::State(4)), (45, Target::City(4))]);
}

#[test]
fn country_names_score_by_their_strongest_match() {
    let db = sample();
    assert_eq!(scores(&db, "germany"), vec![(90, Target::Country(1))]);
    assert_eq!(scores(&db, "Deutschland"), vec![(90, Target::Country(1))]);
    assert_eq!(scores(&db, "allemagne"), vec![(90, Target::Country(1))]);
    assert_eq!(scores(&db, "german"), vec![(80, Target::Country(1))]);
    assert_eq!(scores(&db, "germ"), vec![(80, Target::Country(1))]);
    assert_eq!(scores(&db, "many"), vec![(70, Target::Country(1))]);
    assert_eq!(scores(&db, "ermani"), vec![(70, Target::Country(1))]);
}

#[test]
fn states_score_60_or_50() {
    let db = sample();
    assert_eq!(scores(&db, "bav"), vec![(60, Target::State(1))]);
    assert_eq!(scores(&db, "bavaria"), vec![(60, Target::State(1))]);
    assert_eq!(scores(&db, "varia"), vec![(50, Target::State(1))]);
    assert_eq!(scores(&db, "californ"), vec![(60, Target::State(0))]);
}

#[test]
fn cities_score_45_40_or_30() {
    let db = sample();
    assert_eq!(scores(&db, "munich"), vec![(45, Target::City(1))]);
    assert_eq!(scores(&db, "mun"), vec![(40, Target::City(1))]);
    assert_eq!(scores(&db, "nich"), vec![(30, Target::City(1))]);
    assert_eq!(scores(&db, "gen"), vec![(60, Target::State(4)), (40, Target::City(4))]);
    assert_eq!(scores(&db, "enf"), vec![(30, Target::City(4))]);
}

#[test]
fn phone_codes_score_20() {
    let db = sample();
    assert_eq!(scores(&db, "+49"), vec![(20, Target::Country(1))]);
    assert_eq!(scores(&db, "49"), vec![(20, Target::Country(1))]);
    assert_eq!(scores(&db, "+4"), vec![(20, Target::Country(1)), (20, Target::Country(2))]);
    assert_eq!(scores(&db, "+"), vec![]);
    assert_eq!(scores(&db, "++"), vec![]);
}

#[test]
fn hits_come_by_falling_score_and_ties_in_pass_order() {
    let db = sample();
    assert_eq!(scores(&db, "berlin"), vec![(60, Target::State(2)), (45, Target::City(2))]);
    assert_eq!(scores(&db, "zürich"), vec![(60, Target::State(3)), (45, Target::City(3))]);
    assert_eq!(
        scores(&db, "a"),
        vec![
            (80, Target::Country(1)),
            (80, Target::Country(3)),
            (70, Target::Country(0)),
            (70, Target::Country(2)),
            (50, Target::State(0)),
            (50, Target::State(1)),
            (50, Target::State(4)),
            (30, Target::City(0)),
            (30, Target::City(4)),
        ]
    );
}

#[test]
fn hits_point_at_the_records() {
    let db = sample();
    let hits = db.smart_search("berlin");
    assert_eq!(hits.len(), 2);
    match hits[0].item {
        SmartItem::State { country, state } => {
            assert_eq!(country.iso2, "DE");
            assert_eq!(state.name, "Berlin");
        }
        _ => panic!("a state was expected"),
    }
    assert!(hits[0].is_state_named("BERLIN"));
    assert!(!hits[0].is_city_named("Berlin"));
    match hits[1].item {
        SmartItem::City { country, state, city } => {
            assert_eq!(country.iso2, "DE");
            assert_eq!(state.name, "Berlin");
            assert_eq!(city.name, "Berlin");
        }
        _ => panic!("a city was expected"),
    }
    assert!(hits[1].is_city_named("berlin"));
    assert!(!hits[1].is_state_named("berlin"));
    let ranked = db.smart_search_ranked("berlin");
    assert_eq!(db.present(ranked[1]).score, 45);
}

#[test]
fn city_hits_are_given_once_per_key() {
    let db = from_raw(
        vec![country("CH", "Switzerland", "41", vec![state("Bern", &["Bern", "BERN", "Berne"])])],
        None,
    );
    assert_eq!(
        scores(&db, "bern"),
        vec![(60, Target::State(0)), (45, Target::City(0)), (40, Target::City(2))]
    );
}

#[test]
fn rank_is_a_stable_sort_by_falling_score() {
    let hits = vec![
        RankedHit { score: 50, target: Target::State(0) },
        RankedHit { score: 50, target: Target::State(1) },
        RankedHit { score: 90, target: Target::Country(0) },
        RankedHit { score: 20, target: Target::Country(1) },
        RankedHit { score: 50, target: Target::City(0) },
        RankedHit { score: 100, target: Target::Country(2) },
    ];
    let sorted = rank(&hits);
    assert_eq!(
        sorted,
        vec![
            RankedHit { score: 100, target: Target::Country(2) },
            RankedHit { score: 90, target: Target::Country(0) },
            RankedHit { score: 50, target: Target::State(0) },
            RankedHit { score: 50, target: Target::State(1) },
            RankedHit { score: 50, target: Target::City(0) },
            RankedHit { score: 20, target: Target::Country(1) },
        ]
    );
    assert!(rank(&Vec::new()).is_empty());
}
