use unic_langid::{canonicalize, CharacterDirection, LanguageIdentifier, LanguageIdentifierError};

#[test]
fn parse_simple() {
    let li = LanguageIdentifier::from_text("en-US").unwrap();
    assert_eq!(li.get_language(), "en");
    assert_eq!(li.get_script(), None);
    assert_eq!(li.get_region(), Some("US".to_string()));
    assert_eq!(li.get_variants().len(), 0);
    assert_eq!(li.to_text(), "en-US");
}

#[test]
fn parse_full_and_normalize() {
    let li = LanguageIdentifier::from_text("eN_latn_Us-Valencia").unwrap();
    assert_eq!(li.get_language(), "en");
    assert_eq!(li.get_script(), Some("Latn".to_string()));
    assert_eq!(li.get_region(), Some("US".to_string()));
    assert_eq!(li.get_variants(), vec!["valencia".to_string()]);
    assert_eq!(li.to_text(), "en-Latn-US-valencia");
}

#[test]
fn case_normalization_same_identifier() {
    let a = LanguageIdentifier::from_text("EN-us").unwrap();
    let b = LanguageIdentifier::from_text("en-US").unwrap();
    let c = LanguageIdentifier::from_text("En_Us").unwrap();
    assert_eq!(a, b);
    assert_eq!(b, c);
    assert_eq!(a.to_text(), "en-US");
}

#[test]
fn und_is_absent_language() {
    let li = LanguageIdentifier::from_text("und-AT").unwrap();
    assert_eq!(li.get_language(), "und");
    let li2 = LanguageIdentifier::from_text("UND-AT").unwrap();
    assert_eq!(li, li2);
    assert_eq!(li.to_text(), "und-AT");
}

#[test]
fn wildcard_matching() {
    let li1 = LanguageIdentifier::from_text("en").unwrap();
    let li2 = LanguageIdentifier::from_text("en-US").unwrap();
    assert_ne!(li1, li2);
    assert_ne!(li1.to_text(), li2.to_text());
    assert_eq!(li1.matches(&li2, false, false), false);
    assert_eq!(li1.matches(&li2, true, false), true);
    assert_eq!(li1.matches(&li2, false, true), false);
    assert_eq!(li1.matches(&li2, true, true), true);
}

#[test]
fn variant_canonical_form() {
    let li = LanguageIdentifier::from_parts(Some("ca"), None, Some("ES"), &["valencia"]).unwrap();
    assert_eq!(li.to_text(), "ca-ES-valencia");
    let li = LanguageIdentifier::from_parts(
        Some("ca"),
        None,
        Some("ES"),
        &["valencia", "valencia"],
    )
    .unwrap();
    assert_eq!(li.get_variants().len(), 1);
    assert_eq!(li.to_text(), "ca-ES-valencia");
    let li = LanguageIdentifier::from_parts(
        Some("en"),
        None,
        None,
        &["valencia", "fonipa"],
    )
    .unwrap();
    assert_eq!(li.to_text(), "en-fonipa-valencia");
}

#[test]
fn invalid_rejection() {
    assert!(LanguageIdentifier::from_text("a").is_err());
    assert!(LanguageIdentifier::from_text("toolonglanguagetag").is_err());
    assert!(LanguageIdentifier::from_text("").is_err());
    assert!(LanguageIdentifier::from_parts(Some("en"), None, Some("1"), &[]).is_err());
    assert!(unic_langid::parse_region_subtag("1").is_err());
    // a four-letter first token is reserved for scripts, not languages
    assert!(unic_langid::parse_language_subtag("latn").is_err());
    // trailing input that fits no grammar slot
    assert!(LanguageIdentifier::from_text("en-US-x-priv").is_err());
    assert!(LanguageIdentifier::from_text("en-US-US").is_err());
}

#[test]
fn error_values() {
    assert_eq!(
        LanguageIdentifier::from_text("a"),
        Err(LanguageIdentifierError::ParserError(unic_langid::ParserError::InvalidLanguage))
    );
    assert_eq!(
        LanguageIdentifier::from_text("en-!!"),
        Err(LanguageIdentifierError::ParserError(unic_langid::ParserError::InvalidSubtag))
    );
}

#[test]
fn setters_update_and_keep_rest() {
    let mut li = LanguageIdentifier::from_text("de-Latn-AT").unwrap();
    li.set_language(Some("fr")).unwrap();
    assert_eq!(li.to_text(), "fr-Latn-AT");
    li.set_language(None).unwrap();
    assert_eq!(li.to_text(), "und-Latn-AT");
    li.set_script(Some("Cyrl")).unwrap();
    assert_eq!(li.to_text(), "und-Cyrl-AT");
    li.set_script(None).unwrap();
    li.set_region(Some("ca")).unwrap();
    assert_eq!(li.to_text(), "und-CA");
    li.set_variants(&["Valencia", "fonipa"]).unwrap();
    assert_eq!(li.to_text(), "und-CA-fonipa-valencia");
    li.set_variants(&[]).unwrap();
    assert_eq!(li.to_text(), "und-CA");
}

#[test]
fn setters_fail_without_change() {
    let mut li = LanguageIdentifier::from_text("de-AT").unwrap();
    assert!(li.set_language(Some("1234")).is_err());
    assert!(li.set_script(Some("toolong")).is_err());
    assert!(li.set_region(Some("abc")).is_err());
    assert!(li.set_variants(&["x"]).is_err());
    assert_eq!(li.to_text(), "de-AT");
}

#[test]
fn canonicalize_text() {
    assert_eq!(canonicalize("pL_latn_pl"), Ok("pl-Latn-PL".to_string()));
    assert_eq!(canonicalize("pl-Latn-PL"), Ok("pl-Latn-PL".to_string()));
    assert!(canonicalize("x-private").is_err());
}

#[test]
fn round_trip_is_stable() {
    for s in [
        "en",
        "en-US",
        "eN_latn_Us-Valencia",
        "und",
        "UND-arab",
        "ca-es-VALENCIA-fonipa",
        "zh-Hans-CN",
        "sl-rozaj-biske",
        "de-CH-1996",
        "es-419",
    ] {
        let li = LanguageIdentifier::from_text(s).unwrap();
        let text = li.to_text();
        let li2 = LanguageIdentifier::from_text(&text).unwrap();
        assert_eq!(li, li2, "round trip of {:?} via {:?}", s, text);
        assert_eq!(li2.to_text(), text);
    }
}

#[test]
fn raw_parts_round_trip() {
    let li = LanguageIdentifier::from_text("en-Latn-US-valencia").unwrap();
    let li_clone = li.clone();
    let (lang, script, region, variants) = li.into_raw_parts();
    let li2 = LanguageIdentifier::from_raw_parts_unchecked(lang, script, region, variants);
    assert_eq!(li2, li_clone);
    assert_eq!(li2.to_text(), "en-Latn-US-valencia");
}

#[test]
fn try_from_iter_with_extension_tail() {
    let subtags: Vec<String> =
        ["en", "US", "x", "private"].iter().map(|s| s.to_string()).collect();
    let li = LanguageIdentifier::try_from_iter(&subtags, true).unwrap();
    assert_eq!(li.to_text(), "en-US");
    // without the extension flag the one-letter token is an error
    assert!(LanguageIdentifier::try_from_iter(&subtags, false).is_err());
}

#[test]
fn character_direction() {
    let li1 = LanguageIdentifier::from_text("es-AR").unwrap();
    let li2 = LanguageIdentifier::from_text("fa").unwrap();
    let li3 = LanguageIdentifier::from_text("ar-EG").unwrap();
    let li4 = LanguageIdentifier::from_text("und").unwrap();
    assert_eq!(li1.get_character_direction(), CharacterDirection::LTR);
    assert_eq!(li2.get_character_direction(), CharacterDirection::RTL);
    assert_eq!(li3.get_character_direction(), CharacterDirection::RTL);
    assert_eq!(li4.get_character_direction(), CharacterDirection::LTR);
}

#[test]
fn default_is_und() {
    let li = LanguageIdentifier::default();
    assert_eq!(li.get_language(), "und");
    assert_eq!(li.to_text(), "und");
}

#[test]
fn variant_shape_rule() {
    // length exactly 4: accepted with a leading digit, or an alphanumeric tail
    assert!(unic_langid::parse_variant_subtag("1996").is_ok());
    assert!(unic_langid::parse_variant_subtag("abcd").is_ok());
    assert!(unic_langid::parse_variant_subtag("a-cd").is_err());
    assert!(unic_langid::parse_variant_subtag("1-cd").is_ok());
    // five or more: every character alphanumeric
    assert!(unic_langid::parse_variant_subtag("fonipa").is_ok());
    assert!(unic_langid::parse_variant_subtag("fon-pa").is_err());
    assert!(unic_langid::parse_variant_subtag("toolongvar").is_err());
    assert!(unic_langid::parse_variant_subtag("abc").is_err());
}
