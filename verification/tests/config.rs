use text_tools::config::{choose_extract, delimiter_byte, ConfigError, Extract};
use text_tools::positions::ParseError;

#[test]
fn delimiter_must_be_one_byte() {
    assert_eq!(delimiter_byte("\t"), Ok(b'\t'));
    assert_eq!(delimiter_byte(","), Ok(b','));
    assert_eq!(delimiter_byte(""), Err(ConfigError::Delimiter(String::new())));
    assert_eq!(delimiter_byte(",,"), Err(ConfigError::Delimiter(",,".to_string())));
    assert_eq!(delimiter_byte("á"), Err(ConfigError::Delimiter("á".to_string())));
    assert_eq!(
        delimiter_byte(",,").unwrap_err().message(),
        "--delim \",,\" must be a single byte"
    );
}

#[test]
fn exactly_one_kind_is_chosen() {
    let spec = || Some("1,3-4".to_string());
    let ranges = vec![0..1, 2..4];
    assert_eq!(choose_extract(spec(), None, None), Ok(Extract::Fields(ranges.clone())));
    assert_eq!(choose_extract(None, spec(), None), Ok(Extract::Bytes(ranges.clone())));
    assert_eq!(choose_extract(None, None, spec()), Ok(Extract::Chars(ranges)));
    assert_eq!(choose_extract(None, None, None), Err(ConfigError::Mode));
    assert_eq!(choose_extract(spec(), spec(), None), Err(ConfigError::Mode));
    assert_eq!(choose_extract(spec(), None, spec()), Err(ConfigError::Mode));
    assert_eq!(choose_extract(None, spec(), spec()), Err(ConfigError::Mode));
    assert_eq!(choose_extract(spec(), spec(), spec()), Err(ConfigError::Mode));
    assert_eq!(
        choose_extract(None, None, None).unwrap_err().message(),
        "Must have --fields, --bytes, or -- chars"
    );
}

#[test]
fn a_refused_list_is_passed_on() {
    assert_eq!(
        choose_extract(None, Some("2-1".to_string()), None),
        Err(ConfigError::Positions(ParseError::RangeOrderViolation(2, 1)))
    );
    assert_eq!(
        choose_extract(Some("a".to_string()), None, None).unwrap_err().message(),
        "illegal list value: \"a\""
    );
    assert_eq!(
        choose_extract(None, None, Some(String::new())),
        Err(ConfigError::Positions(ParseError::EmptySpecification))
    );
}
