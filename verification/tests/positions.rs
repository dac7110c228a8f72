use text_tools::positions::{parse_pos, ParseError};
use text_tools::text::decimal_string;

#[test]
fn test_parse_pos() {
    // The empty string is an error
    assert!(parse_pos("".to_string()).is_err());

    // Zero is an error
    let res = parse_pos("0".to_string());
    assert!(res.is_err());
    assert_eq!(res.unwrap_err().message(), r#"illegal list value: "0""#);

    let res = parse_pos("0-1".to_string());
    assert!(res.is_err());
    assert_eq!(res.unwrap_err().message(), r#"illegal list value: "0""#);

    // A leading "+" is an error
    let res = parse_pos("+1".to_string());
    assert!(res.is_err());
    assert_eq!(res.unwrap_err().message(), r#"illegal list value: "+1""#,);

    let res = parse_pos("+1-2".to_string());
    assert!(res.is_err());
    assert_eq!(
        res.unwrap_err().message(),
        r#"illegal list value: "+1-2""#,
    );

    let res = parse_pos("1-+2".to_string());
    assert!(res.is_err());
    assert_eq!(
        res.unwrap_err().message(),
        r#"illegal list value: "1-+2""#,
    );

    // Any non-number is an error
    let res = parse_pos("a".to_string());
    assert!(res.is_err());
    assert_eq!(res.unwrap_err().message(), r#"illegal list value: "a""#);

    let res = parse_pos("1,a".to_string());
    assert!(res.is_err());
    assert_eq!(res.unwrap_err().message(), r#"illegal list value: "a""#);

    let res = parse_pos("1-a".to_string());
    assert!(res.is_err());
    assert_eq!(res.unwrap_err().message(), r#"illegal list value: "1-a""#,);

    let res = parse_pos("a-1".to_string());
    assert!(res.is_err());
    assert_eq!(res.unwrap_err().message(), r#"illegal list value: "a-1""#,);

    // Wonky ranges
    let res = parse_pos("-".to_string());
    assert!(res.is_err());

    let res = parse_pos(",".to_string());
    assert!(res.is_err());

    let res = parse_pos("1,".to_string());
    assert!(res.is_err());

    let res = parse_pos("1-".to_string());
    assert!(res.is_err());

    let res = parse_pos("1-1-1".to_string());
    assert!(res.is_err());

    let res = parse_pos("1-1-a".to_string());
    assert!(res.is_err());

    // First number must be less than second
    let res = parse_pos("1-1".to_string());
    assert!(res.is_err());
    assert_eq!(
        res.unwrap_err().message(),
        "First number in range (1) must be lower than second number (1)"
    );

    let res = parse_pos("2-1".to_string());
    assert!(res.is_err());
    assert_eq!(
        res.unwrap_err().message(),
        "First number in range (2) must be lower than second number (1)"
    );

    // All the following are acceptable
    let res = parse_pos("1".to_string());
    assert!(res.is_ok());
    assert_eq!(res.unwrap(), vec![0..1]);

    let res = parse_pos("01".to_string());
    assert!(res.is_ok());
    assert_eq!(res.unwrap(), vec![0..1]);

    let res = parse_pos("1,3".to_string());
    assert!(res.is_ok());
    assert_eq!(res.unwrap(), vec![0..1, 2..3]);

    let res = parse_pos("001,0003".to_string());
    assert!(res.is_ok());
    assert_eq!(res.unwrap(), vec![0..1, 2..3]);

    let res = parse_pos("1-3".to_string());
    assert!(res.is_ok());
    assert_eq!(res.unwrap(), vec![0..3]);

    let res = parse_pos("0001-03".to_string());
    assert!(res.is_ok());
    assert_eq!(res.unwrap(), vec![0..3]);

    let res = parse_pos("1,7,3-5".to_string());
    assert!(res.is_ok());
    assert_eq!(res.unwrap(), vec![0..1, 6..7, 2..5]);

    let res = parse_pos("15,19-20".to_string());
    assert!(res.is_ok());
    assert_eq!(res.unwrap(), vec![14..15, 18..20]);
}

#[test]
fn empty_list_is_its_own_error() {
    let res = parse_pos(String::new());
    assert_eq!(res, Err(ParseError::EmptySpecification));
    assert_eq!(parse_pos(String::new()).unwrap_err().message(), "");
}

#[test]
fn zero_is_reported_in_either_place() {
    assert_eq!(parse_pos("0".to_string()), Err(ParseError::ZeroValue));
    assert_eq!(parse_pos("000".to_string()), Err(ParseError::ZeroValue));
    assert_eq!(parse_pos("0-1".to_string()), Err(ParseError::ZeroValue));
    assert_eq!(parse_pos("1-0".to_string()), Err(ParseError::ZeroValue));
    assert_eq!(parse_pos("0-0".to_string()), Err(ParseError::ZeroValue));
    assert_eq!(
        parse_pos("3-0".to_string()).unwrap_err().message(),
        r#"illegal list value: "0""#
    );
}

#[test]
fn invalid_token_is_reported_as_written() {
    for token in ["+1", "1-+2", "a", "1-a", "-", "1-", "-1", "1-1-1", "1 ", " 1", "1.5", "١"] {
        assert_eq!(
            parse_pos(token.to_string()),
            Err(ParseError::InvalidToken(token.to_string())),
            "token {:?}",
            token
        );
    }
    assert_eq!(
        parse_pos("1,,2".to_string()),
        Err(ParseError::InvalidToken(String::new()))
    );
    assert_eq!(
        parse_pos("1,".to_string()).unwrap_err().message(),
        r#"illegal list value: """#
    );
    assert_eq!(
        parse_pos("2,x-y,0".to_string()).unwrap_err().message(),
        r#"illegal list value: "x-y""#
    );
}

#[test]
fn order_violation_names_both_numbers() {
    assert_eq!(
        parse_pos("1-1".to_string()),
        Err(ParseError::RangeOrderViolation(1, 1))
    );
    assert_eq!(
        parse_pos("2-1".to_string()),
        Err(ParseError::RangeOrderViolation(2, 1))
    );
    assert_eq!(
        parse_pos("0120-007".to_string()).unwrap_err().message(),
        "First number in range (120) must be lower than second number (7)"
    );
}

#[test]
fn first_failing_token_decides() {
    assert_eq!(parse_pos("1,0,a".to_string()), Err(ParseError::ZeroValue));
    assert_eq!(
        parse_pos("1,a,0".to_string()),
        Err(ParseError::InvalidToken("a".to_string()))
    );
    assert_eq!(
        parse_pos("5-2,a".to_string()),
        Err(ParseError::RangeOrderViolation(5, 2))
    );
}

#[test]
fn number_beyond_usize_is_invalid() {
    let huge = "340282366920938463463374607431768211456";
    assert_eq!(
        parse_pos(huge.to_string()),
        Err(ParseError::InvalidToken(huge.to_string()))
    );
    let pair = format!("1-{}", huge);
    assert_eq!(
        parse_pos(pair.clone()),
        Err(ParseError::InvalidToken(pair))
    );
    let pair = format!("{}-1", huge);
    assert_eq!(
        parse_pos(pair.clone()),
        Err(ParseError::InvalidToken(pair))
    );
    assert_eq!(
        parse_pos(format!("0-{}", huge)),
        Err(ParseError::ZeroValue)
    );
    let max = usize::MAX.to_string();
    assert_eq!(parse_pos(max), Ok(vec![usize::MAX - 1..usize::MAX]));
}

#[test]
fn valid_tokens_give_one_range_each_in_order() {
    assert_eq!(
        parse_pos("2,4-6,1,4-6".to_string()),
        Ok(vec![1..2, 3..6, 0..1, 3..6])
    );
    assert_eq!(parse_pos("10-0100".to_string()), Ok(vec![9..100]));
    let ranges = parse_pos("9,8,7,1-2".to_string()).unwrap();
    assert_eq!(ranges.len(), 4);
    assert!(ranges.iter().all(|r| r.start < r.end));
}

#[test]
fn parsing_twice_gives_the_same() {
    for spec in ["1,7,3-5", "15,19-20", "", "0", "2-1", "x"] {
        assert_eq!(parse_pos(spec.to_string()), parse_pos(spec.to_string()));
    }
}

#[test]
fn decimal_string_writes_numbers() {
    assert_eq!(decimal_string(0), "0");
    assert_eq!(decimal_string(7), "7");
    assert_eq!(decimal_string(10), "10");
    assert_eq!(decimal_string(12345), "12345");
    assert_eq!(decimal_string(9_007_199), "9007199");
    assert_eq!(decimal_string(usize::MAX), usize::MAX.to_string());
}
