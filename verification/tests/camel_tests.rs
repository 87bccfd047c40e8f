use codesync::inflector::case::{is_camel_case, to_camel_case, to_case_camel_like, CamelOptions};

#[test]
fn camel_from_camel_case() {
    let convertable_string: String = "fooBar".to_owned();
    let expected: String = "fooBar".to_owned();
    assert_eq!(
        to_camel_case(&convertable_string, &[]),
        expected
    )
}

#[test]
fn camel_from_pascal_case() {
    let convertable_string: String = "FooBar".to_owned();
    let expected: String = "fooBar".to_owned();
    assert_eq!(
        to_camel_case(&convertable_string, &[]),
        expected
    )
}

#[test]
fn camel_from_kebab_case() {
    let convertable_string: String = "foo-bar".to_owned();
    let expected: String = "fooBar".to_owned();
    assert_eq!(
        to_camel_case(&convertable_string, &[]),
        expected
    )
}

#[test]
fn camel_from_sentence_case() {
    let convertable_string: String = "Foo bar".to_owned();
    let expected: String = "fooBar".to_owned();
    assert_eq!(
        to_camel_case(&convertable_string, &[]),
        expected
    )
}

#[test]
fn camel_from_title_case() {
    let convertable_string: String = "Foo Bar".to_owned();
    let expected: String = "fooBar".to_owned();
    assert_eq!(
        to_camel_case(&convertable_string, &[]),
        expected
    )
}

#[test]
fn camel_from_train_case() {
    let convertable_string: String = "Foo-Bar".to_owned();
    let expected: String = "fooBar".to_owned();
    assert_eq!(
        to_camel_case(&convertable_string, &[]),
        expected
    )
}

#[test]
fn from_screaming_snake_case() {
    let convertable_string: String = "FOO_BAR".to_owned();
    let expected: String = "fooBar".to_owned();
    assert_eq!(
        to_camel_case(&convertable_string, &[]),
        expected
    )
}

#[test]
fn camel_from_snake_case() {
    let convertable_string: String = "foo_bar".to_owned();
    let expected: String = "fooBar".to_owned();
    assert_eq!(
        to_camel_case(&convertable_string, &[]),
        expected
    )
}

#[test]
fn from_case_with_loads_of_space() {
    let convertable_string: String = "foo           bar".to_owned();
    let expected: String = "fooBar".to_owned();
    assert_eq!(
        to_camel_case(&convertable_string, &[]),
        expected
    )
}

#[test]
fn a_name_with_a_dot() {
    let convertable_string: String = "Robert C. Martin".to_owned();
    let expected: String = "robertCMartin".to_owned();
    assert_eq!(
        to_camel_case(&convertable_string, &[]),
        expected
    )
}

#[test]
fn random_text_with_bad_chars() {
    let convertable_string: String = "Random text with *(bad) chars".to_owned();
    let expected: String = "randomTextWithBadChars".to_owned();
    assert_eq!(
        to_camel_case(&convertable_string, &[]),
        expected
    )
}

#[test]
fn trailing_bad_chars() {
    let convertable_string: String = "trailing bad_chars*(()())".to_owned();
    let expected: String = "trailingBadChars".to_owned();
    assert_eq!(
        to_camel_case(&convertable_string, &[]),
        expected
    )
}

#[test]
fn leading_bad_chars() {
    let convertable_string: String = "-!#$%leading bad chars".to_owned();
    let expected: String = "leadingBadChars".to_owned();
    assert_eq!(
        to_camel_case(&convertable_string, &[]),
        expected
    )
}

#[test]
fn wrapped_in_bad_chars() {
    let convertable_string: String =
        "-!#$%wrapped in bad chars&*^*&(&*^&(<><?>><?><>))".to_owned();
    let expected: String = "wrappedInBadChars".to_owned();
    assert_eq!(
        to_camel_case(&convertable_string, &[]),
        expected
    )
}

#[test]
fn has_a_sign() {
    let convertable_string: String = "has a + sign".to_owned();
    let expected: String = "hasASign".to_owned();
    assert_eq!(
        to_camel_case(&convertable_string, &[]),
        expected
    )
}

#[test]
fn has_an_integer_followed_by_an_underscore() {
    let options = CamelOptions {
        new_word: true,
        last_char: ' ',
        first_word: false,
        injectable_char: ' ',
        has_separator: false,
        inverted: false,
    };
    let convertable_string: String = "abc123_xyz".to_owned();
    let expected: String = "Abc123Xyz".to_owned();
    assert_eq!(
        to_case_camel_like(
            &convertable_string,
            options,
            &[]
        ),
        expected
    )
}

#[test]
fn camel_is_correct_from_camel_case() {
    let convertable_string: String = "fooBar".to_owned();
    assert!(is_camel_case(&convertable_string))
}

#[test]
fn camel_is_correct_from_pascal_case() {
    let convertable_string: String = "FooBar".to_owned();
    assert!(!is_camel_case(&convertable_string))
}

#[test]
fn camel_is_correct_from_kebab_case() {
    let convertable_string: String = "foo-bar".to_owned();
    assert!(!is_camel_case(&convertable_string))
}

#[test]
fn camel_is_correct_from_sentence_case() {
    let convertable_string: String = "Foo bar".to_owned();
    assert!(!is_camel_case(&convertable_string))
}

#[test]
fn camel_is_correct_from_title_case() {
    let convertable_string: String = "Foo Bar".to_owned();
    assert!(!is_camel_case(&convertable_string))
}

#[test]
fn camel_is_correct_from_train_case() {
    let convertable_string: String = "Foo-Bar".to_owned();
    assert!(!is_camel_case(&convertable_string))
}

#[test]
fn is_correct_from_screaming_snake_case() {
    let convertable_string: String = "FOO_BAR".to_owned();
    assert!(!is_camel_case(&convertable_string))
}

#[test]
fn camel_is_correct_from_snake_case() {
    let convertable_string: String = "foo_bar".to_owned();
    assert!(!is_camel_case(&convertable_string))
}
