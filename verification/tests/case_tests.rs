use codesync::inflector::case::{
    char_is_separator, first_word_or_not_inverted, is_not_alphanumeric,
    last_char_lower_current_is_upper_or_new_word, next_or_previous_char_is_lowercase,
    not_first_word_and_has_separator, requires_separator, snake_like_no_separator,
    snake_like_with_separator, trim_right,
};

#[test]
fn test_trim_bad_chars() {
    assert_eq!("abc", trim_right("abc----^"))
}

#[test]
fn test_trim_bad_chars_when_none_are_bad() {
    assert_eq!("abc", trim_right("abc"))
}

#[test]
fn test_is_not_alphanumeric_on_is_alphanumeric() {
    assert!(!is_not_alphanumeric('a'))
}

#[test]
fn test_is_not_alphanumeric_on_is_not_alphanumeric() {
    assert!(is_not_alphanumeric('_'))
}

#[test]
fn test_next_or_previous_char_is_lowercase_true() {
    assert!(next_or_previous_char_is_lowercase("TestWWW", 3))
}

#[test]
fn test_next_or_previous_char_is_lowercase_false() {
    assert!(!next_or_previous_char_is_lowercase("TestWWW", 5))
}

#[test]
fn snake_like_with_separator_lowers() {
    assert_eq!(
        snake_like_with_separator("".to_owned(), "^", &'c', "lower"),
        "^c".to_string()
    )
}

#[test]
fn snake_like_with_separator_upper() {
    assert_eq!(
        snake_like_with_separator("".to_owned(), "^", &'c', "upper"),
        "^C".to_string()
    )
}

#[test]
fn snake_like_no_separator_lower() {
    assert_eq!(
        snake_like_no_separator("".to_owned(), &'C', "lower"),
        "c".to_string()
    )
}

#[test]
fn snake_like_no_separator_upper() {
    assert_eq!(
        snake_like_no_separator("".to_owned(), &'c', "upper"),
        "C".to_string()
    )
}

#[test]
fn requires_separator_upper_not_first_wrap_is_safe_current_upper() {
    assert!(requires_separator((2, 'C'), false, "test"))
}

#[test]
fn requires_separator_upper_not_first_wrap_is_safe_current_lower() {
    assert!(!requires_separator((2, 'c'), false, "test"))
}

#[test]
fn requires_separator_upper_first_wrap_is_safe_current_upper() {
    assert!(!requires_separator((0, 'T'), true, "Test"))
}

#[test]
fn requires_separator_upper_first_wrap_is_safe_current_lower() {
    assert!(!requires_separator((0, 't'), true, "Test"))
}

#[test]
fn requires_separator_upper_first_wrap_is_safe_current_lower_next_is_too() {
    assert!(!requires_separator((0, 't'), true, "test"))
}

#[test]
fn test_char_is_separator_dash() {
    assert!(char_is_separator(&'-'))
}

#[test]
fn test_char_is_separator_underscore() {
    assert!(char_is_separator(&'_'))
}

#[test]
fn test_char_is_separator_space() {
    assert!(char_is_separator(&' '))
}

#[test]
fn test_char_is_separator_when_not() {
    assert!(!char_is_separator(&'A'))
}

#[test]
fn test_last_char_lower_current_is_upper_or_new_word_with_new_word() {
    assert!(last_char_lower_current_is_upper_or_new_word(true, ' ', '-'))
}

#[test]
fn test_last_char_lower_current_is_upper_or_new_word_last_char_space() {
    assert!(!last_char_lower_current_is_upper_or_new_word(
        false, ' ', '-'
    ))
}

#[test]
fn test_last_char_lower_current_is_upper_or_new_word_last_char_lower_current_upper() {
    assert!(last_char_lower_current_is_upper_or_new_word(
        false, 'a', 'A'
    ))
}

#[test]
fn test_last_char_lower_current_is_upper_or_new_word_last_char_upper_current_upper() {
    assert!(!last_char_lower_current_is_upper_or_new_word(
        false, 'A', 'A'
    ))
}

#[test]
fn test_last_char_lower_current_is_upper_or_new_word_last_char_upper_current_lower() {
    assert!(!last_char_lower_current_is_upper_or_new_word(
        false, 'A', 'a'
    ))
}

#[test]
fn test_first_word_or_not_inverted_with_first_word() {
    assert!(first_word_or_not_inverted(true, false))
}

#[test]
fn test_first_word_or_not_inverted_not_first_word_not_inverted() {
    assert!(first_word_or_not_inverted(false, false))
}

#[test]
fn test_first_word_or_not_inverted_not_first_word_is_inverted() {
    assert!(!first_word_or_not_inverted(false, true))
}

#[test]
fn test_not_first_word_and_has_separator_is_first_and_not_separator() {
    assert!(!not_first_word_and_has_separator(true, false))
}

#[test]
fn test_not_first_word_and_has_separator_not_first_and_not_separator() {
    assert!(!not_first_word_and_has_separator(false, false))
}

#[test]
fn test_not_first_word_and_has_separator_not_first_and_has_separator() {
    assert!(not_first_word_and_has_separator(false, true))
}
