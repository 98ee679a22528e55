use geodb_core::fold::{equals_folded, fold_ascii_lower, fold_key};

#[test]
fn fold_key_transliterates_and_lowercases() {
    assert_eq!(fold_key("Łódź"), "lodz");
    assert_eq!(fold_key("łodz"), "lodz");
    assert_eq!(fold_key("Straße"), "strasse");
}

#[test]
fn fold_key_is_idempotent_on_samples() {
    for s in ["Łódź", "Straße", "Zürich", "São Paulo", "北亰", "plain", ""] {
        let once = fold_key(s);
        assert_eq!(fold_key(&once), once);
    }
}

#[test]
fn equals_folded_ignores_accents_and_case() {
    assert!(equals_folded("Łódź", "lodz"));
    assert!(equals_folded("MÜNCHEN", "munchen"));
    assert!(!equals_folded("Berlin", "Paris"));
}

#[test]
fn fold_ascii_lower_knows_western_letters() {
    assert_eq!(fold_ascii_lower("München"), "munchen");
    assert_eq!(fold_ascii_lower("Café"), "cafe");
    assert_eq!(fold_ascii_lower("Straße"), "strasse");
    assert_eq!(fold_ascii_lower("Æsir Œuvre"), "aesir oeuvre");
}

#[test]
fn text_below_the_delete_character_is_only_lower_cased() {
    assert_eq!(fold_key("a\tb"), "a\tb");
    assert_eq!(fold_key("A\u{1}Z ~"), "a\u{1}z ~");
    assert_eq!(fold_key(""), "");
}

#[test]
fn the_delete_character_is_dropped_with_the_control_characters_behind_it() {
    assert_eq!(fold_key("\u{7f}"), "");
    assert_eq!(fold_key("a\u{7f}\tb"), "ab");
    assert_eq!(fold_key("A\tB\u{7f}C\tD"), "a\tbcd");
    assert!(equals_folded("a\u{7f}", "a"));
}

#[test]
fn control_characters_behind_an_accented_letter_are_dropped() {
    assert_eq!(fold_key("é\tb"), "eb");
    assert_eq!(fold_key("a\tÉ\tb\u{1}"), "a\teb");
    assert_eq!(fold_key("Łódź\n"), "lodz");
}

#[test]
fn the_folded_form_lies_below_the_delete_character() {
    for s in ["\u{7f}", "a\u{7f}b", "é\u{7f}", "Zürich \u{80}", "北亰\u{7f}", "\u{0}\u{7f}"] {
        let once = fold_key(s);
        assert!(once.chars().all(|c| c < '\u{7f}' && !c.is_ascii_uppercase()));
        assert_eq!(fold_key(&once), once);
    }
}
