use unit_splitter_core::request::Request;
use unit_splitter_core::requests::{parse, RequestsParseError};

#[test]
fn my_one_request() {
    let result = parse("A: 32");
    assert_eq!(result, Ok(vec![Request::new("A".to_string(), vec![32])]));
}

#[test]
fn repeat_amount() {
    let result = parse("A: 32x3");
    assert_eq!(
        result,
        Ok(vec![Request::new("A".to_string(), vec![32, 32, 32])])
    );
}

#[test]
fn many_requests() {
    let result = parse("A: 32x3, B: 450,234,4");
    assert_eq!(
        result,
        Ok(vec![
            Request::new("A".to_string(), vec![32, 32, 32]),
            Request::new("B".to_string(), vec![450, 234, 4]),
        ])
    );
}

#[test]
fn many_requests_to_data() {
    let result = parse("A: 32x3, B: 450,234,4");
    assert_eq!(
        result,
        Ok(vec![
            Request::new("A".to_string(), vec![32, 32, 32]),
            Request::new("B".to_string(), vec![450, 234, 4]),
        ])
    );
}

#[test]
fn empty_requests_text_is_a_syntax_error() {
    let result = parse("");
    match result {
        Err(errors) => {
            assert_eq!(errors.len(), 1);
            assert!(matches!(errors[0], RequestsParseError::Syntax { .. }));
        }
        Ok(_) => panic!("empty input must not parse"),
    }
}

#[test]
fn request_without_colon_is_a_syntax_error() {
    assert!(parse("A 32").is_err());
}

#[test]
fn request_without_amounts_is_a_syntax_error() {
    assert!(parse("A:").is_err());
    assert!(parse("A: , B: 5").is_err());
}

#[test]
fn amount_too_large_is_a_syntax_error() {
    assert!(parse("A: 99999999999").is_err());
}
