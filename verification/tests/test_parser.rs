use braindamage::{parse, ParseError, Token};

#[test]
fn test_parse_valid() {
    let result = parse("[->+<]");

    assert_eq!(
        result,
        Ok(vec![
            Token::LoopStart(5),
            Token::DecByte,
            Token::IncPtr,
            Token::IncByte,
            Token::DecPtr,
            Token::LoopEnd(0)
        ])
    );
}

#[test]
fn test_parse_unexpected_closing_bracket() {
    let result = parse("[->]+<]");

    assert_eq!(result, Err(ParseError::UnexpectedClosingBracket(6)));
}

#[test]
fn test_parse_expected_closing_bracket() {
    let result = parse("[->[[+<]");

    assert_eq!(result, Err(ParseError::ExpectedClosingBracket(2)));
}

#[test]
fn test_parse_comments_invisible_to_positions() {
    // comment characters emit nothing and do not shift loop targets
    let result = parse("a[b-c]d");

    assert_eq!(
        result,
        Ok(vec![Token::LoopStart(2), Token::DecByte, Token::LoopEnd(0)])
    );
}

#[test]
fn test_parse_nested_pairing_is_involution() {
    let tokens = parse("[[][]]").unwrap();

    assert_eq!(
        tokens,
        vec![
            Token::LoopStart(5),
            Token::LoopStart(2),
            Token::LoopEnd(1),
            Token::LoopStart(4),
            Token::LoopEnd(3),
            Token::LoopEnd(0),
        ]
    );
    // every loop-start's target holds the loop-end pointing back at it
    for (i, t) in tokens.iter().enumerate() {
        match t {
            Token::LoopStart(j) => assert_eq!(tokens[*j], Token::LoopEnd(i)),
            Token::LoopEnd(j) => assert_eq!(tokens[*j], Token::LoopStart(i)),
            _ => {}
        }
    }
}

#[test]
fn test_parse_empty_source() {
    assert_eq!(parse(""), Ok(vec![]));
}

#[test]
fn test_parse_stray_bracket_first() {
    assert_eq!(parse("]"), Err(ParseError::UnexpectedClosingBracket(0)));
}
