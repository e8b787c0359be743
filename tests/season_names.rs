use imdb::{parse_season_name, validate_subdir_name};

#[test]
fn two_year_season_parses() {
    assert_eq!(parse_season_name("2015-16"), Some((2015, Some(2016))));
}

#[test]
fn one_year_season_parses() {
    assert_eq!(parse_season_name("2015"), Some((2015, None)));
}

#[test]
fn letters_do_not_parse() {
    assert_eq!(parse_season_name("abcd"), None);
    assert!(!validate_subdir_name("abcd"));
}

#[test]
fn one_digit_end_year_does_not_parse() {
    assert_eq!(parse_season_name("2015-1"), None);
    assert!(!validate_subdir_name("2015-1"));
}

#[test]
fn three_digit_start_year_does_not_parse() {
    assert_eq!(parse_season_name("999"), None);
    assert_eq!(parse_season_name("0999"), None);
}

#[test]
fn end_year_with_leading_zero_has_one_digit() {
    assert_eq!(parse_season_name("2008-09"), None);
}

#[test]
fn three_tokens_do_not_parse() {
    assert_eq!(parse_season_name("2015-16-17"), None);
}

#[test]
fn empty_name_and_empty_tokens_do_not_parse() {
    assert_eq!(parse_season_name(""), None);
    assert_eq!(parse_season_name("2015-"), None);
    assert_eq!(parse_season_name("-16"), None);
}

#[test]
fn end_year_takes_the_start_millennium() {
    assert_eq!(parse_season_name("1999-20"), Some((1999, Some(1020))));
    assert_eq!(parse_season_name("2099-10"), Some((2099, Some(2010))));
}

#[test]
fn plus_sign_is_read_as_by_integer_parsing() {
    assert_eq!(parse_season_name("+2015"), Some((2015, None)));
}

#[test]
fn validation_agrees_with_parsing() {
    assert!(validate_subdir_name("2017-18"));
    assert!(validate_subdir_name("2017"));
}
