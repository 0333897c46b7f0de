use idfm_realtime::text::{
    extract_idfm_id, extract_siri_trip_key, id_suffix, sanitize_entity_id, siri_reference_suffix,
    text_begins, text_eq, text_eq_ignore_case, text_occurs, text_precedes, text_trim,
};

#[test]
fn identifiers_end_in_their_last_segment() {
    assert_eq!(id_suffix("IDFM:monomodalStopPlace:47874"), "47874");
    assert_eq!(id_suffix("plain"), "plain");
    assert_eq!(id_suffix("ends:"), "");
}

#[test]
fn references_skip_empty_segments() {
    assert_eq!(siri_reference_suffix("STIF:StopArea:SP:47874:"), Some("47874"));
    assert_eq!(siri_reference_suffix("a::"), Some("a"));
    assert_eq!(siri_reference_suffix(":::"), None);
    assert_eq!(siri_reference_suffix(""), None);
}

#[test]
fn lines_become_routes() {
    assert_eq!(extract_idfm_id("STIF:Line::C01742:"), Some("IDFM:C01742".to_string()));
    assert_eq!(extract_idfm_id("::"), None);
}

#[test]
fn trip_keys_follow_the_first_double_colon() {
    assert_eq!(extract_siri_trip_key("RATP-SIV:VehicleJourney::abc.1:LOC"), Some("abc.1"));
    assert_eq!(extract_siri_trip_key("SIRI::some-uuid"), Some("some-uuid"));
    assert_eq!(extract_siri_trip_key("SNCF:VJ::a::b:"), Some("a::b"));
    assert_eq!(extract_siri_trip_key("SNCF:VJ::x:LOC:LOC"), Some("x"));
    assert_eq!(extract_siri_trip_key("SNCF:VJ::x::LOC"), Some("x"));
    assert_eq!(extract_siri_trip_key("no double"), None);
    assert_eq!(extract_siri_trip_key("SIRI:::LOC"), None);
}

#[test]
fn entity_identifiers_are_sanitized() {
    assert_eq!(sanitize_entity_id("Az09-_.:/é"), "Az09-_.---");
}

#[test]
fn texts_compare_as_strings_do() {
    let samples = ["", "a", "A", "ab", "b", "é", "z", "\u{ffff}", "\u{10000}", "a\u{301}"];
    for left in samples {
        for right in samples {
            assert_eq!(text_eq(left, right), left == right);
            assert_eq!(text_precedes(left, right), left < right);
            assert_eq!(text_begins(left, right), left.starts_with(right));
            assert_eq!(text_occurs(left, right), left.contains(right));
            assert_eq!(
                text_eq_ignore_case(left, right),
                left.eq_ignore_ascii_case(right)
            );
        }
    }
    assert!(text_occurs("IDFM:Metro:1", "Metro"));
    assert!(!text_occurs("IDFM:Met", "Metro"));
}

#[test]
fn white_space_inside_a_text_stays() {
    assert_eq!(text_trim(" \t a b\u{2003}\n"), "a b");
    assert_eq!(text_trim("\u{200b}x"), "\u{200b}x");
}
