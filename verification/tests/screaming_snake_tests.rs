use codesync::inflector::case::{is_screaming_snake_case, to_screaming_snake_case};

#[test]
fn screaming_snake_from_camel_case() {
    assert!(is_screaming_snake_case(
        "FOO_BAR1_STRING_THAT_IS_REALLY_REALLY_LONG"
    ));
    println!("\n");
    assert!(codesync::inflector::is_kebab_case(
        "foo-bar1-string-that-is-really-really-long"
    ));
    // let convertable_string: String = "fooBar".to_owned();
    // let expected: String = "FOO_BAR".to_owned();
    // assert_eq!(to_screaming_snake_case(&convertable_string), expected)
}

#[test]
fn screaming_snake_from_pascal_case() {
    let convertable_string: String = "FooBar".to_owned();
    let expected: String = "FOO_BAR".to_owned();
    assert_eq!(to_screaming_snake_case(&convertable_string), expected)
}

#[test]
fn screaming_snake_from_kebab_case() {
    let convertable_string: String = "foo-bar".to_owned();
    let expected: String = "FOO_BAR".to_owned();
    assert_eq!(to_screaming_snake_case(&convertable_string), expected)
}

#[test]
fn screaming_snake_from_sentence_case() {
    let convertable_string: String = "Foo bar".to_owned();
    let expected: String = "FOO_BAR".to_owned();
    assert_eq!(to_screaming_snake_case(&convertable_string), expected)
}

#[test]
fn screaming_snake_from_title_case() {
    let convertable_string: String = "Foo Bar".to_owned();
    let expected: String = "FOO_BAR".to_owned();
    assert_eq!(to_screaming_snake_case(&convertable_string), expected)
}

#[test]
fn screaming_snake_from_train_case() {
    let convertable_string: String = "Foo-Bar".to_owned();
    let expected: String = "FOO_BAR".to_owned();
    assert_eq!(to_screaming_snake_case(&convertable_string), expected)
}

#[test]
fn from_screaming_screaming_snake_case() {
    let convertable_string: String = "FOO_BAR".to_owned();
    let expected: String = "FOO_BAR".to_owned();
    assert_eq!(to_screaming_snake_case(&convertable_string), expected)
}

#[test]
fn screaming_snake_from_snake_case() {
    let convertable_string: String = "foo_bar".to_owned();
    let expected: String = "FOO_BAR".to_owned();
    assert_eq!(to_screaming_snake_case(&convertable_string), expected)
}

#[test]
fn screaming_snake_is_correct_from_camel_case() {
    let convertable_string: String = "fooBar".to_owned();
    assert!(!is_screaming_snake_case(&convertable_string))
}

#[test]
fn screaming_snake_is_correct_from_pascal_case() {
    let convertable_string: String = "FooBar".to_owned();
    assert!(!is_screaming_snake_case(&convertable_string))
}

#[test]
fn screaming_snake_is_correct_from_kebab_case() {
    let convertable_string: String = "foo-bar".to_owned();
    assert!(!is_screaming_snake_case(&convertable_string))
}

#[test]
fn screaming_snake_is_correct_from_sentence_case() {
    let convertable_string: String = "Foo bar".to_owned();
    assert!(!is_screaming_snake_case(&convertable_string))
}

#[test]
fn screaming_snake_is_correct_from_title_case() {
    let convertable_string: String = "Foo Bar".to_owned();
    assert!(!is_screaming_snake_case(&convertable_string))
}

#[test]
fn screaming_snake_is_correct_from_train_case() {
    let convertable_string: String = "Foo-Bar".to_owned();
    assert!(!is_screaming_snake_case(&convertable_string))
}

#[test]
fn is_correct_from_screaming_screaming_snake_case() {
    let convertable_string: String = "FOO_BAR".to_owned();
    assert!(is_screaming_snake_case(&convertable_string))
}

#[test]
fn screaming_snake_is_correct_from_snake_case() {
    let convertable_string: String = "foo_bar".to_owned();
    assert!(!is_screaming_snake_case(&convertable_string))
}
