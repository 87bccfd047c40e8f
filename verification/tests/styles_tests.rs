use codesync::inflector::case::fixed::{humps_are_marked, is_without_split, words_are_whole};
use codesync::inflector::case::{
    append_on_new_word, capitalize_acronym_substrings, keep_or_replace, to_case_camel_like,
    to_case_snake_like, to_uppercase_text, uppercase_acronym, write_any_case_pattern,
    CamelOptions,
};
use codesync::Case;
use codesync::inflector::{
    is_camel_case, is_kebab_case, is_pascal_case, is_screaming_snake_case, is_snake_case,
    is_train_case, to_camel_case, to_kebab_case, to_pascal_case, to_screaming_snake_case,
    to_snake_case, to_train_case,
};

const INPUTS: [&str; 12] = [
    "fooBar",
    "FooBar",
    "foo-bar",
    "Foo bar",
    "Foo Bar",
    "Foo-Bar",
    "FOO_BAR",
    "foo_bar",
    "  --leading and trailing!! ",
    "HTTPServer",
    "x",
    "",
];

#[test]
fn snake_case_of_the_usual_forms() {
    let expected = [
        "foo_bar", "foo_bar", "foo_bar", "foo_bar", "foo_bar", "foo_bar", "foo_bar", "foo_bar",
        "leading_and_trailing", "http_server", "x", "",
    ];
    for (input, want) in INPUTS.iter().zip(expected) {
        assert_eq!(to_snake_case(input), want);
    }
}

#[test]
fn kebab_case_of_the_usual_forms() {
    let expected = [
        "foo-bar", "foo-bar", "foo-bar", "foo-bar", "foo-bar", "foo-bar", "foo-bar", "foo-bar",
        "leading-and-trailing", "http-server", "x", "",
    ];
    for (input, want) in INPUTS.iter().zip(expected) {
        assert_eq!(to_kebab_case(input), want);
    }
}

#[test]
fn screaming_snake_case_of_the_usual_forms() {
    let expected = [
        "FOO_BAR", "FOO_BAR", "FOO_BAR", "FOO_BAR", "FOO_BAR", "FOO_BAR", "FOO_BAR", "FOO_BAR",
        "LEADING_AND_TRAILING", "HTTP_SERVER", "X", "",
    ];
    for (input, want) in INPUTS.iter().zip(expected) {
        assert_eq!(to_screaming_snake_case(input), want);
    }
}

#[test]
fn pascal_case_of_the_usual_forms() {
    let expected = [
        "FooBar", "FooBar", "FooBar", "FooBar", "FooBar", "FooBar", "FooBar", "FooBar",
        "LeadingAndTrailing", "Httpserver", "X", "",
    ];
    for (input, want) in INPUTS.iter().zip(expected) {
        assert_eq!(to_pascal_case(input), want);
    }
}

#[test]
fn train_case_of_the_usual_forms() {
    let expected = [
        "Foo-Bar", "Foo-Bar", "Foo-Bar", "Foo-Bar", "Foo-Bar", "Foo-Bar", "Foo-Bar", "Foo-Bar",
        "Leading-And-Trailing", "Httpserver", "X", "",
    ];
    for (input, want) in INPUTS.iter().zip(expected) {
        assert_eq!(to_train_case(input), want);
    }
}

#[test]
fn camel_case_of_the_usual_forms() {
    let expected = [
        "fooBar", "fooBar", "fooBar", "fooBar", "fooBar", "fooBar", "fooBar", "fooBar",
        "leadingAndTrailing", "httpserver", "x", "",
    ];
    for (input, want) in INPUTS.iter().zip(expected) {
        assert_eq!(to_camel_case(input, &[]), want);
    }
}

#[test]
fn digits_are_not_set_apart() {
    assert_eq!(to_snake_case("fooBar3"), "foo_bar3");
    assert_eq!(to_screaming_snake_case("fooBar3"), "FOO_BAR3");
    assert_eq!(to_kebab_case("foo1-string"), "foo1-string");
    assert_eq!(to_camel_case("FooBar3", &[]), "fooBar3");
}

#[test]
fn predicates_hold_of_their_own_style_only() {
    assert!(is_snake_case("foo_bar_string_that_is_really_really_long"));
    assert!(is_kebab_case("foo-bar-string-that-is-really-really-long"));
    assert!(is_screaming_snake_case("FOO_BAR_STRING_THAT_IS_REALLY_REALLY_LONG"));
    assert!(is_pascal_case("FooBarIsAReallyReallyLongString"));
    assert!(is_train_case("Foo-Bar-Is-A-Really-Really-Long-String"));
    assert!(is_camel_case("fooBarIsAReallyReallyLongString"));
    assert!(is_camel_case("fooBarIsAReallyReally3longString"));
    assert!(!is_snake_case("foo-bar"));
    assert!(!is_kebab_case("foo_bar"));
    assert!(!is_pascal_case("fooBar"));
    assert!(!is_train_case("Foo-bar"));
    assert!(!is_camel_case("Foo"));
    assert!(!is_snake_case("foo_"));
    assert!(!is_snake_case("_foo"));
    assert!(!is_snake_case("foo__bar"));
}

#[test]
fn the_empty_string_is_in_every_style() {
    assert!(is_snake_case(""));
    assert!(is_kebab_case(""));
    assert!(is_screaming_snake_case(""));
    assert!(is_pascal_case(""));
    assert!(is_train_case(""));
    assert!(is_camel_case(""));
}

#[test]
fn converted_text_is_in_its_style() {
    for input in INPUTS.iter().chain(["Robert C. Martin", "a1b2 c3", "MixedUP input_text-here"].iter()) {
        assert!(is_snake_case(&to_snake_case(input)));
        assert!(is_kebab_case(&to_kebab_case(input)));
        assert!(is_screaming_snake_case(&to_screaming_snake_case(input)));
        assert!(is_train_case(&to_train_case(input)));
    }
    for input in ["fooBar", "foo bar baz", "FOO_BAR", "a b c", "some-label here"] {
        assert!(is_camel_case(&to_camel_case(input, &[])));
    }
    for input in ["fooBar", "foo bar baz", "FOO_BAR", "some-label here"] {
        assert!(is_pascal_case(&to_pascal_case(input)));
    }
}

#[test]
fn a_word_after_a_number_is_not_found_again() {
    assert_eq!(to_camel_case("1 a", &[]), "1A");
    assert_eq!(to_camel_case("1A", &[]), "1a");
    assert!(!is_camel_case(&to_camel_case("1 a", &[])));
    assert_eq!(to_pascal_case("a b"), "AB");
    assert_eq!(to_pascal_case("AB"), "Ab");
    assert!(!is_pascal_case(&to_pascal_case("a b")));
    assert!(!is_pascal_case(&to_pascal_case("abc123_xyz")));
}

#[test]
fn capitals_outside_ascii_are_not_found_again() {
    assert_eq!(to_snake_case("XÉA"), "xÉa");
    assert_eq!(to_snake_case("xÉa"), "x_Éa");
    assert!(!is_snake_case(&to_snake_case("XÉA")));
    assert_eq!(to_screaming_snake_case("xyé"), "XYé");
    assert_eq!(to_screaming_snake_case("XYé"), "X_Yé");
    assert!(!is_screaming_snake_case(&to_screaming_snake_case("xyé")));
    assert_eq!(to_camel_case("foo1_bar", &[]), "foo1Bar");
    assert!(!is_camel_case(&to_camel_case("foo1_bar", &[])));
}

#[test]
fn letters_outside_ascii_can_be_in_a_style() {
    assert!(is_screaming_snake_case(&to_screaming_snake_case("é")));
    assert!(is_camel_case(&to_camel_case("É", &[])));
    assert!(is_snake_case(&to_snake_case("Éa b")));
    assert!(is_train_case(&to_train_case("éa Éb")));
}

#[test]
fn neighbours_are_the_adjacent_characters() {
    assert_eq!(to_snake_case("éB"), "é_b");
    assert_eq!(to_snake_case("eB"), "e_b");
    assert_eq!(to_snake_case("éaB"), "éa_b");
    assert_eq!(to_snake_case("eaB"), "ea_b");
    assert_eq!(to_snake_case("XYé"), "x_yé");
    assert_eq!(to_snake_case("→→aB"), "a_b");
    assert_eq!(to_kebab_case("ñandúGrande"), "ñandú-grande");
}

#[test]
fn settled_texts_are_told_apart() {
    let cases = [Case::Camel, Case::Kebab, Case::Pascal, Case::ScreamingSnake, Case::Snake, Case::Train];
    let inputs = [
        "", "x", "fooBar", "foo bar baz", "FOO_BAR", "1 a", "a b", "a1 b", "foo1_bar", "abc123_xyz",
        "XÉA", "xyé", "é", "É", "éa Éb", "aÉ b", "Robert C. Martin", "HTTPServer", "a b c",
    ];
    for case in cases {
        for input in inputs {
            let converted = case.to_case(input);
            assert_eq!(case.is_settled(input), case.has_case(&converted));
        }
    }
    assert!(!Case::Camel.is_settled("1 a"));
    assert!(!Case::Pascal.is_settled("a b"));
    assert!(!Case::Snake.is_settled("XÉA"));
    assert!(!Case::ScreamingSnake.is_settled("xyé"));
    assert!(Case::ScreamingSnake.is_settled("é"));
    assert!(Case::Camel.is_settled("É"));
}

#[test]
fn conditions_on_converted_text() {
    assert!(is_without_split("foo_bar"));
    assert!(is_without_split("FOO_BAR"));
    assert!(is_without_split("Foo_Bar"));
    assert!(!is_without_split("fooBar"));
    assert!(!is_without_split("xÉa"));
    assert!(is_without_split("x_Éa"));
    assert!(is_without_split(""));
    assert!(humps_are_marked("fooBarBAZ", 0));
    assert!(!humps_are_marked("1A", 0));
    assert!(!humps_are_marked("foo1Bar", 0));
    assert!(!humps_are_marked("AB", 1));
    assert!(humps_are_marked("AbC", 1));
    assert!(humps_are_marked("anything", 100));
    assert!(words_are_whole("Foo-Bar", '-'));
    assert!(!words_are_whole("FoO-Bar", '-'));
    assert!(words_are_whole("F-B", '-'));
}

#[test]
fn separators_and_cases_are_parameters() {
    assert_eq!(to_case_snake_like("fooBar baz", ".", "lower"), "foo.bar.baz");
    assert_eq!(to_case_snake_like("fooBar baz", "", "lower"), "foo_bar_baz");
    assert_eq!(to_case_snake_like("fooBar baz", "=>", "upper"), "FOO=BAR=BAZ");
    assert_eq!(to_case_snake_like("fooBar baz", "_", "anything"), "FOO_BAR_BAZ");
}

#[test]
fn camel_options_shape_the_words() {
    let sentence = CamelOptions {
        new_word: true,
        last_char: ' ',
        first_word: true,
        injectable_char: ' ',
        has_separator: true,
        inverted: true,
    };
    assert_eq!(to_case_camel_like("fooBar_baz", sentence, &[]), "Foo bar baz");
    let title = CamelOptions {
        new_word: true,
        last_char: ' ',
        first_word: true,
        injectable_char: ' ',
        has_separator: true,
        inverted: false,
    };
    assert_eq!(to_case_camel_like("fooBar_baz", title, &[]), "Foo Bar Baz");
    let options = CamelOptions {
        new_word: false,
        last_char: 'a',
        first_word: false,
        injectable_char: '.',
        has_separator: true,
        inverted: false,
    };
    assert_eq!(to_case_camel_like("Foo bar", options, &[]), ".Foo.Bar");
}

#[test]
fn append_on_new_word_writes_separator_and_letter() {
    let options = CamelOptions {
        new_word: true,
        last_char: ' ',
        first_word: true,
        injectable_char: '-',
        has_separator: true,
        inverted: true,
    };
    assert_eq!(append_on_new_word("x".to_string(), true, 'a', &options), "xA");
    assert_eq!(append_on_new_word("x".to_string(), false, 'A', &options), "x-a");
}

#[test]
fn acronyms_are_capitalized_wherever_they_stand() {
    let acronyms = ["API".to_string()];
    assert_eq!(to_camel_case("foo bar api", &acronyms), "fooBarAPI");
    assert_eq!(to_camel_case("my api client", &acronyms), "myAPIClient");
    assert_eq!(to_camel_case("rapid", &acronyms), "rAPId");
    assert_eq!(to_camel_case("therapist", &acronyms), "therAPIst");
    assert_eq!(to_camel_case("no acronym", &acronyms), "noAcronym");
}

#[test]
fn an_acronym_across_a_word_boundary_is_capitalized() {
    let acronyms = ["DEA".to_string()];
    assert_eq!(to_camel_case("wide area", &[]), "wideArea");
    assert_eq!(to_camel_case("wide area", &acronyms), "wiDEArea");
}

#[test]
fn the_search_for_an_acronym_is_a_written_pattern() {
    assert_eq!(write_any_case_pattern("api"), "(?i)(api)(?-i)");
    assert_eq!(write_any_case_pattern(""), "(?i)()(?-i)");
    assert_eq!(uppercase_acronym("an api, an Api", "API"), Some("an API, an API".to_string()));
    assert_eq!(uppercase_acronym("a.c abc", "a.c"), Some("A.C abc".to_string()));
    assert_eq!(uppercase_acronym("nothing here", "api"), Some("nothing here".to_string()));
}

#[test]
fn acronyms_are_applied_in_order() {
    let acronyms = ["ab".to_string(), "BC".to_string()];
    assert_eq!(capitalize_acronym_substrings("abc xbcx", &acronyms), "ABC xBCx");
    assert_eq!(capitalize_acronym_substrings("abc", &[]), "abc");
}

#[test]
fn acronyms_are_taken_literally() {
    let acronyms = ["a.c".to_string(), "(".to_string(), "x+".to_string()];
    assert_eq!(capitalize_acronym_substrings("abc a.c (x+) xx", &acronyms), "abc A.C (X+) xx");
}

#[test]
fn a_search_that_was_not_possible_keeps_the_text() {
    assert_eq!(keep_or_replace("text".to_string(), None), "text");
    assert_eq!(keep_or_replace("text".to_string(), Some("TEXT".to_string())), "TEXT");
}

#[test]
fn upper_case_of_all_of_unicode() {
    assert_eq!(to_uppercase_text("straße api"), "STRASSE API");
}
