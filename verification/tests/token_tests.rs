use chiya::token::{Token, TokenizerError, tokenize};

#[test]
fn test_tokenize() {
    assert_eq!(tokenize("     "), Ok(vec![]));
    assert_eq!(tokenize("123"), Ok(vec![Token::Integer(123)]));
    assert_eq!(tokenize("-123"), Ok(vec![Token::Integer(-123)]));

    assert_eq!(
        tokenize("123 123"),
        Ok(vec![Token::Integer(123), Token::Integer(123)])
    );
    assert_eq!(tokenize("*"), Ok(vec![Token::Star]));
    assert_eq!(tokenize("+="), Ok(vec![Token::PlusEq]));
    assert_eq!(tokenize("-="), Ok(vec![Token::MinusEq]));
    assert_eq!(tokenize(";"), Ok(vec![Token::Semi]));
    assert_eq!(tokenize("("), Ok(vec![Token::ParenOpen]));
    assert_eq!(tokenize(")"), Ok(vec![Token::ParenClose]));
    assert_eq!(tokenize("{"), Ok(vec![Token::CurlyOpen]));
    assert_eq!(tokenize("}"), Ok(vec![Token::CurlyClose]));

    assert_eq!(tokenize("while"), Ok(vec![Token::While]));
    assert_eq!(
        tokenize("hoge"),
        Ok(vec![Token::Identififier("hoge".to_owned())])
    );
    assert_eq!(
        tokenize("hoge_fuga"),
        Ok(vec![Token::Identififier("hoge_fuga".to_owned())])
    );
    assert_eq!(
        tokenize("hoge123"),
        Ok(vec![Token::Identififier("hoge123".to_owned())])
    );
    assert!(tokenize("_").is_err());
    assert_eq!(
        tokenize("_hoge"),
        Ok(vec![Token::Identififier("_hoge".to_owned())])
    );

    assert!(tokenize("+").is_err());
    assert!(tokenize("-").is_err());
    assert!(tokenize("/").is_err());
    assert!(tokenize(">").is_err());
    assert!(tokenize("<").is_err());

    assert_eq!(tokenize("// coment"), Ok(vec![]));
    assert_eq!(tokenize("123// coment"), Ok(vec![Token::Integer(123)]));
    assert_eq!(
        tokenize("123\n// coment\n456"),
        Ok(vec![Token::Integer(123), Token::Integer(456)])
    );

    assert_eq!(
        tokenize("foo();"),
        Ok(vec![
            Token::Identififier("foo".to_owned()),
            Token::ParenOpen,
            Token::ParenClose,
            Token::Semi
        ])
    );

    assert_eq!(
        tokenize("while *ptr {\nptr -= 1;\n}"),
        Ok(vec![
            Token::While,
            Token::Star,
            Token::Identififier("ptr".to_owned()),
            Token::CurlyOpen,
            Token::Identififier("ptr".to_owned()),
            Token::MinusEq,
            Token::Integer(1),
            Token::Semi,
            Token::CurlyClose,
        ])
    );
}

#[test]
fn test_tokenize_statement_tokens() {
    assert_eq!(
        tokenize("while *ptr { ptr -= 1; }"),
        Ok(vec![
            Token::While,
            Token::Star,
            Token::Identififier("ptr".to_owned()),
            Token::CurlyOpen,
            Token::Identififier("ptr".to_owned()),
            Token::MinusEq,
            Token::Integer(1),
            Token::Semi,
            Token::CurlyClose,
        ])
    );
}

#[test]
fn test_tokenize_comment_produces_no_tokens() {
    assert_eq!(
        tokenize("123// comment\n456"),
        Ok(vec![Token::Integer(123), Token::Integer(456)])
    );
}

#[test]
fn test_tokenize_empty_input() {
    assert_eq!(tokenize(""), Ok(vec![]));
}

#[test]
fn test_tokenize_integer_boundaries() {
    assert_eq!(tokenize("2147483647"), Ok(vec![Token::Integer(2147483647)]));
    assert_eq!(tokenize("-2147483648"), Ok(vec![Token::Integer(-2147483648)]));
    // a digit run whose value fits no 32-bit token matches no rule: its
    // first character is reported, and InputError stays unreachable
    assert_eq!(
        tokenize("2147483648"),
        Err(TokenizerError::UnexpectedCharacter { character: '2' })
    );
    assert_eq!(
        tokenize("-2147483649"),
        Err(TokenizerError::UnexpectedCharacter { character: '-' })
    );
    assert_eq!(
        tokenize("99999999999999999999999999"),
        Err(TokenizerError::UnexpectedCharacter { character: '9' })
    );
}

#[test]
fn test_tokenize_unexpected_character() {
    assert_eq!(
        tokenize("@"),
        Err(TokenizerError::UnexpectedCharacter { character: '@' })
    );
    // a digit run glued to a name matches no rule at all
    assert_eq!(
        tokenize("123abc"),
        Err(TokenizerError::UnexpectedCharacter { character: '1' })
    );
    // two slashes with nothing after them are no comment
    assert_eq!(
        tokenize("//"),
        Err(TokenizerError::UnexpectedCharacter { character: '/' })
    );
    // multi-byte characters are rejected whole, never split
    assert_eq!(
        tokenize("é"),
        Err(TokenizerError::UnexpectedCharacter { character: 'é' })
    );
}
