use braid_viz::braid::Braid;
use braid_viz::codec::ParseError;

#[test]
fn parse_simple() {
    let b = Braid::parse_braid("3\n1 -2\n").unwrap();
    assert_eq!(b.strands, 3);
    assert_eq!(b.crossings, vec![1, -2]);
}

#[test]
fn serialize_then_parse_is_fixed_point() {
    let b = Braid::parse_braid("3\n1 -2\n").unwrap();
    let text = b.serialize_braid();
    assert_eq!(text, "3\n1 -2\n");
    let again = Braid::parse_braid(&text).unwrap();
    assert_eq!(again, b);
    assert_eq!(again.serialize_braid(), text);
}

#[test]
fn round_trip_various() {
    let words = [
        (2, vec![]),
        (2, vec![1, -1, 1, -1]),
        (10, vec![2, -3, 4, 5, 5, -2, -5, -4, 9, -9]),
        (6, vec![-5, 5, -1, 1, 3]),
    ];
    for (strands, crossings) in words {
        let b = Braid { strands, crossings };
        let parsed = Braid::parse_braid(&b.serialize_braid()).unwrap();
        assert_eq!(parsed, b);
    }
}

#[test]
fn round_trip_extreme_values() {
    let b = Braid { strands: 2147483649, crossings: vec![-2147483648, 2147483647, 1] };
    let text = b.serialize_braid();
    assert_eq!(text, "2147483649\n-2147483648 2147483647 1\n");
    assert_eq!(Braid::parse_braid(&text).unwrap(), b);
}

#[test]
fn serialize_empty_crossings() {
    let b = Braid { strands: 4, crossings: vec![] };
    assert_eq!(b.serialize_braid(), "4\n\n");
    assert_eq!(Braid::parse_braid("4\n\n").unwrap(), b);
}

#[test]
fn parse_rejects_small_strand_count() {
    assert_eq!(Braid::parse_braid("1\n"), Err(ParseError::InvalidStrandCount));
    assert_eq!(Braid::parse_braid("0\n"), Err(ParseError::InvalidStrandCount));
    assert!(Braid::parse_braid("2\n").is_ok());
}

#[test]
fn parse_rejects_bad_strand_line() {
    assert_eq!(Braid::parse_braid("abc\n1\n"), Err(ParseError::InvalidStrandCount));
    assert_eq!(Braid::parse_braid("3 4\n1\n"), Err(ParseError::InvalidStrandCount));
    assert_eq!(Braid::parse_braid("4294967296\n"), Err(ParseError::InvalidStrandCount));
    assert_eq!(Braid::parse_braid("-3\n"), Err(ParseError::InvalidStrandCount));
}

#[test]
fn parse_missing_strand_count() {
    assert_eq!(Braid::parse_braid(""), Err(ParseError::MissingStrandCount));
    assert_eq!(
        Braid::parse_braid("# a comment\n   \n\t\n# another\n"),
        Err(ParseError::MissingStrandCount)
    );
}

#[test]
fn parse_invalid_generator_token() {
    assert_eq!(
        Braid::parse_braid("3\nabc\n"),
        Err(ParseError::InvalidGeneratorToken(String::from("abc")))
    );
    assert_eq!(
        Braid::parse_braid("3\n1 2x 2\n"),
        Err(ParseError::InvalidGeneratorToken(String::from("2x")))
    );
    assert_eq!(
        Braid::parse_braid("3\n99999999999\n"),
        Err(ParseError::InvalidGeneratorToken(String::from("99999999999")))
    );
}

#[test]
fn parse_generator_out_of_range() {
    assert_eq!(Braid::parse_braid("2\n5\n"), Err(ParseError::GeneratorOutOfRange(5, 1)));
    assert_eq!(Braid::parse_braid("3\n0\n"), Err(ParseError::GeneratorOutOfRange(0, 2)));
    assert_eq!(Braid::parse_braid("3\n1 -3\n"), Err(ParseError::GeneratorOutOfRange(-3, 2)));
}

#[test]
fn parse_checks_tokens_before_range() {
    assert_eq!(
        Braid::parse_braid("2\n5 abc\n"),
        Err(ParseError::InvalidGeneratorToken(String::from("abc")))
    );
}

#[test]
fn parse_strips_comments_and_blank_lines() {
    let b = Braid::parse_braid("# a braid\n3 # strands\n\n1 # first\n  -2\t\n").unwrap();
    assert_eq!(b.strands, 3);
    assert_eq!(b.crossings, vec![1, -2]);
}

#[test]
fn parse_accepts_plus_signs() {
    let b = Braid::parse_braid("+3\n+1 -2\n").unwrap();
    assert_eq!(b.strands, 3);
    assert_eq!(b.crossings, vec![1, -2]);
}

#[test]
fn parse_crossings_across_lines() {
    let b = Braid::parse_braid("4\n1 2\n-3\n2\n").unwrap();
    assert_eq!(b.crossings, vec![1, 2, -3, 2]);
}

#[test]
fn error_messages() {
    assert_eq!(ParseError::MissingStrandCount.message(), "Missing strand count");
    assert_eq!(ParseError::InvalidStrandCount.message(), "Invalid strand count");
    assert_eq!(
        ParseError::InvalidGeneratorToken(String::from("abc")).message(),
        "Invalid crossing value 'abc'"
    );
    assert_eq!(
        ParseError::GeneratorOutOfRange(5, 1).message(),
        "Invalid generator 5: magnitude must be between 1 and 1"
    );
    assert_eq!(
        ParseError::GeneratorOutOfRange(-7, 3).message(),
        "Invalid generator -7: magnitude must be between 1 and 3"
    );
}
