use geodb_core::alias::{first_five, names_match_relaxed, relaxed_match, CityMeta, CityMetaIndex};
use geodb_core::fold::{fold_chars, match_kind, match_score, MatchKind};
use geodb_core::names::NameMatch;
use geodb_core::order::chars_le;
use geodb_core::text::{
    ascii_lower_char, contains, ends_with, eq_ignore_ascii_case, from_chars, mark_plus, mark_white_space,
    starts_with, str_eq, strip_leading, strip_marked, strip_plus, to_ascii_lower, to_chars, trim,
};
use geodb_core::model::City;

fn cs(s: &str) -> Vec<char> {
    s.chars().collect()
}

#[test]
fn characters_and_strings_convert_both_ways() {
    assert_eq!(to_chars("Łódź"), vec!['Ł', 'ó', 'd', 'ź']);
    assert_eq!(from_chars(&['a', 'ß', 'c']), "aßc");
    assert_eq!(to_chars(""), Vec::<char>::new());
    assert!(str_eq("abc", "abc"));
    assert!(!str_eq("abc", "abd"));
    assert!(!str_eq("abc", "ab"));
}

#[test]
fn ascii_lower_case_touches_ascii_letters_only() {
    assert_eq!(ascii_lower_char('A'), 'a');
    assert_eq!(ascii_lower_char('Z'), 'z');
    assert_eq!(ascii_lower_char('@'), '@');
    assert_eq!(ascii_lower_char('['), '[');
    assert_eq!(ascii_lower_char('Ä'), 'Ä');
    assert_eq!(to_ascii_lower("ZÜRich"), cs("zÜrich"));
    assert!(eq_ignore_ascii_case("DeU", "dEu"));
    assert!(!eq_ignore_ascii_case("Ä", "ä"));
    assert!(!eq_ignore_ascii_case("de", "deu"));
}

#[test]
fn prefix_and_substring() {
    assert!(starts_with(&cs("zurich"), &cs("zur")));
    assert!(starts_with(&cs("zurich"), &cs("")));
    assert!(starts_with(&cs("zurich"), &cs("zurich")));
    assert!(!starts_with(&cs("zurich"), &cs("zurichs")));
    assert!(!starts_with(&cs("zurich"), &cs("uri")));
    assert!(contains(&cs("zurich"), &cs("uri")));
    assert!(contains(&cs("zurich"), &cs("ch")));
    assert!(contains(&cs("zurich"), &cs("")));
    assert!(contains(&cs(""), &cs("")));
    assert!(!contains(&cs("zurich"), &cs("urc")));
    assert!(!contains(&cs("zu"), &cs("zur")));
    assert!(contains(&cs("aab"), &cs("ab")));
    assert!(ends_with(&cs("geodb.bin"), &cs(".bin")));
    assert!(ends_with(&cs("geodb.bin"), &cs("")));
    assert!(ends_with(&cs(".bin"), &cs(".bin")));
    assert!(!ends_with(&cs("bin"), &cs(".bin")));
    assert!(!ends_with(&cs("geodb.bin"), &cs("geodb")));
}

#[test]
fn trimming() {
    assert_eq!(trim(&cs("  de \t\n")), cs("de"));
    assert_eq!(trim(&cs("\u{a0}d e\u{3000}")), cs("d e"));
    assert_eq!(trim(&cs("   ")), cs(""));
    assert_eq!(trim(&cs("")), cs(""));
    assert_eq!(trim(&cs("x")), cs("x"));
    assert_eq!(strip_plus(&cs("++49+")), cs("49+"));
    assert_eq!(strip_plus(&cs("49")), cs("49"));
    assert_eq!(strip_plus(&cs("+")), cs(""));
    assert_eq!(mark_plus(&cs("+a+")), vec![true, false, true]);
    assert_eq!(strip_marked(&cs("abcde"), &[true, true, false, true, true]), cs("c"));
    assert_eq!(strip_marked(&cs("abcde"), &[true, false, true, false, true]), cs("bcd"));
    assert_eq!(strip_marked(&cs("abc"), &[true, true, true]), cs(""));
    assert_eq!(strip_marked(&cs("abc"), &[false, false, false]), cs("abc"));
    assert_eq!(strip_leading(&cs("abc"), &[true, false, true]), cs("bc"));
}

#[test]
fn match_kinds_and_scores() {
    assert_eq!(match_kind(&cs("berlin"), &cs("berlin")), Some(MatchKind::Exact));
    assert_eq!(match_kind(&cs("berlin"), &cs("ber")), Some(MatchKind::Prefix));
    assert_eq!(match_kind(&cs("berlin"), &cs("erl")), Some(MatchKind::Substring));
    assert_eq!(match_kind(&cs("berlin"), &cs("bern")), None);
    assert_eq!(match_kind(&cs("berlin"), &cs("")), Some(MatchKind::Prefix));
    assert_eq!(match_kind(&cs(""), &cs("")), Some(MatchKind::Exact));
    let q = fold_chars("ZÜR");
    assert_eq!(q, cs("zur"));
    assert_eq!(match_score("Zürich", &q, (90, 80, 70)), Some(80));
    assert_eq!(match_score("Zur", &q, (90, 80, 70)), Some(90));
    assert_eq!(match_score("Bad Zurzach", &q, (90, 80, 70)), Some(70));
    assert_eq!(match_score("Basel", &q, (90, 80, 70)), None);
}

#[test]
fn codes_are_ordered_by_character_value() {
    assert!(chars_le(&cs("de"), &cs("de")));
    assert!(chars_le(&cs("de"), &cs("es")));
    assert!(!chars_le(&cs("es"), &cs("de")));
    assert!(chars_le(&cs("d"), &cs("de")));
    assert!(!chars_le(&cs("de"), &cs("d")));
    assert!(chars_le(&cs(""), &cs("a")));
    assert!(chars_le(&cs("Z"), &cs("a")));
    assert!(chars_le(&cs("z"), &cs("ä")));
}

#[test]
fn relaxed_match_shares_five_leading_characters() {
    assert_eq!(first_five(&cs("geneva")), cs("genev"));
    assert_eq!(first_five(&cs("gen")), cs("gen"));
    assert!(relaxed_match(&cs("geneve"), &cs("geneva")));
    assert!(relaxed_match(&cs("geneva"), &cs("geneva")));
    assert!(relaxed_match(&cs("gen"), &cs("geneva")));
    assert!(relaxed_match(&cs("geneva"), &cs("gen")));
    assert!(!relaxed_match(&cs("genoa"), &cs("geneva")));
    assert!(!relaxed_match(&cs(""), &cs("geneva")));
    assert!(!relaxed_match(&cs("geneva"), &cs("")));
    assert!(relaxed_match(&cs(""), &cs("")));
    assert!(names_match_relaxed("Genève", "Geneva"));
    assert!(names_match_relaxed("GENEVA", "Genève"));
    assert!(!names_match_relaxed("Genoa", "Geneva"));
}

#[test]
fn side_index_lookups() {
    let index = CityMetaIndex {
        entries: vec![
            CityMeta {
                iso2: "CH".to_string(),
                state: "Geneva".to_string(),
                city: "Geneva".to_string(),
                aliases: vec!["Genf".to_string()],
                regions: vec!["Romandy".to_string()],
            },
            CityMeta {
                iso2: "CN".to_string(),
                state: "Hubei".to_string(),
                city: "Wuhan".to_string(),
                aliases: vec!["Hankow".to_string(), "Hankou".to_string()],
                regions: vec![],
            },
            CityMeta {
                iso2: "CH".to_string(),
                state: "Geneva".to_string(),
                city: "Geneva".to_string(),
                aliases: vec!["Second".to_string()],
                regions: vec![],
            },
        ],
    };
    let m = index.find_canonical("CH", "Geneva", "Geneva").unwrap();
    assert_eq!(m.aliases, vec!["Genf".to_string()]);
    assert!(index.find_canonical("ch", "Geneva", "Geneva").is_none());
    assert!(index.find_canonical("CH", "Geneva", "Genf").is_none());
    assert_eq!(index.find_by_alias("hankou").map(|m| m.city.as_str()), Some("Wuhan"));
    assert_eq!(index.find_by_alias("WUHAN").map(|m| m.city.as_str()), Some("Wuhan"));
    assert_eq!(index.find_by_alias("second").map(|m| m.aliases[0].as_str()), Some("Second"));
    assert_eq!(index.find_by_alias("Genève").map(|m| m.aliases[0].as_str()), Some("Genf"));
    assert_eq!(index.find_by_alias("Hankowski").map(|m| m.city.as_str()), Some("Wuhan"));
    assert!(index.find_by_alias("Atlantis").is_none());
}

#[test]
fn names_are_matched_after_folding() {
    let city = City {
        country_id: 0,
        state_id: 0,
        name: "Łódź".to_string(),
        aliases: None,
        regions: None,
        lat: None,
        lng: None,
        population: None,
        timezone: None,
    };
    assert_eq!(city.name(), "Łódź");
    assert_eq!(city.name_str(), "Łódź");
    assert!(city.is_named("lodz"));
    assert!(city.is_named("ŁODZ"));
    assert!(!city.is_named("lod"));
    assert!(city.name_contains("ODZ"));
    assert!(!city.name_contains("lodzi"));
    assert!(city.is_city_named("Lodz"));
}

#[test]
fn ascii_white_space_is_tab_to_carriage_return_and_space() {
    for code in 0u8..=0x7f {
        let c = code as char;
        let expected = (0x09..=0x0d).contains(&code) || code == 0x20;
        assert_eq!(mark_white_space(&[c]), vec![expected], "U+{code:04X}");
    }
    assert_eq!(mark_white_space(&cs(" a\u{a0}\u{3000}\u{200b}")), vec![true, false, true, true, false]);
}
