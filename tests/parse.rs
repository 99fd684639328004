use mandelbrot::parse::{
    find_separator, pair_from_fields, parse_pair, parse_u32_pair, split_pair, ParseError,
};

#[test]
fn test_parse_pair() {
    assert!(parse_pair::<i32>("", ',').is_err(),);
    assert!(parse_pair::<i32>("10", ',').is_err(),);
    assert!(parse_pair::<i32>(",10", ',').is_err(),);
    assert!(parse_pair::<i32>("10,", ',').is_err(),);
    assert_eq!(
        parse_pair::<i32>("1,2", ',').expect("should return values"),
        (1, 2)
    );
    assert!(parse_pair::<i32>("1,2xz", ',').is_err(),);
    assert!(parse_pair::<i32>("1.5,2.5", ',').is_err(),);
    assert_eq!(
        parse_pair::<f64>("1.5,2.5", ',').expect("should return values"),
        (1.5, 2.5)
    );
}

#[test]
fn parse_pair_error_kinds() {
    assert_eq!(parse_pair::<i32>("", ','), Err(ParseError::MissingSeparator));
    assert_eq!(parse_pair::<i32>("10", ','), Err(ParseError::MissingSeparator));
    assert_eq!(parse_pair::<i32>(",10", ','), Err(ParseError::MalformedField));
    assert_eq!(parse_pair::<i32>("10,", ','), Err(ParseError::MalformedField));
    assert_eq!(parse_pair::<i32>("1,2,3", ','), Err(ParseError::MalformedField));
    assert_eq!(parse_pair::<i32>("-4,7", ','), Ok((-4, 7)));
}

#[test]
fn parse_pair_complex_corners() {
    assert_eq!(parse_pair::<f64>("-1.20,0.35", ','), Ok((-1.2, 0.35)));
    assert_eq!(parse_pair::<f64>("1.0,10.3", ','), Ok((1.0, 10.3)));
    assert_eq!(parse_pair::<f64>("10", ','), Err(ParseError::MissingSeparator));
}

#[test]
fn find_separator_takes_first() {
    assert_eq!(find_separator("4000x3000", 'x'), Some(4));
    assert_eq!(find_separator("axbxc", 'x'), Some(1));
    assert_eq!(find_separator("", 'x'), None);
    assert_eq!(find_separator("12", 'x'), None);
    assert_eq!(find_separator("éx1", 'x'), Some(1));
}

#[test]
fn split_pair_fields() {
    assert_eq!(split_pair("1,2", ','), Some(("1", "2")));
    assert_eq!(split_pair("1,2,3", ','), Some(("1", "2,3")));
    assert_eq!(split_pair(",", ','), Some(("", "")));
    assert_eq!(split_pair("12", ','), None);
}

#[test]
fn pair_from_fields_needs_both() {
    assert_eq!(pair_from_fields(Some(1), Some(2)), Ok((1, 2)));
    assert_eq!(pair_from_fields::<u8>(None, Some(2)), Err(ParseError::MalformedField));
    assert_eq!(pair_from_fields::<u8>(Some(1), None), Err(ParseError::MalformedField));
    assert_eq!(pair_from_fields::<u8>(None, None), Err(ParseError::MalformedField));
}

#[test]
fn parse_u32_pair_dimensions() {
    assert_eq!(parse_u32_pair("4000x3000", 'x'), Ok((4000, 3000)));
    assert_eq!(parse_u32_pair("+7x0", 'x'), Ok((7, 0)));
    assert_eq!(parse_u32_pair("4294967295x1", 'x'), Ok((4294967295, 1)));
}

#[test]
fn parse_u32_pair_rejections() {
    assert_eq!(parse_u32_pair("", 'x'), Err(ParseError::MissingSeparator));
    assert_eq!(parse_u32_pair("4000", 'x'), Err(ParseError::MissingSeparator));
    assert_eq!(parse_u32_pair("x3000", 'x'), Err(ParseError::MalformedField));
    assert_eq!(parse_u32_pair("4000x", 'x'), Err(ParseError::MalformedField));
    assert_eq!(parse_u32_pair("-1x2", 'x'), Err(ParseError::MalformedField));
    assert_eq!(parse_u32_pair(" 1x2", 'x'), Err(ParseError::MalformedField));
    assert_eq!(parse_u32_pair("4294967296x1", 'x'), Err(ParseError::MalformedField));
    assert_eq!(parse_u32_pair("1x2x3", 'x'), Err(ParseError::MalformedField));
}
