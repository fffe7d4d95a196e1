use oxy_python::check_keyword;
use oxy_python::lex;
use oxy_python::take_until;
use oxy_python::LexError;
use oxy_python::Location;
use oxy_python::Token;
use oxy_python::TokenType;

fn assert_lexes_to(s: &str, expected: &[TokenType]) {
    match lex(s) {
        Ok(tokens) => {
            assert_eq!(
                tokens.len(),
                expected.len(),
                "wrong token count for {:?}: got {:?}",
                s,
                tokens
            );
            for (index, value) in tokens.iter().enumerate() {
                assert!(
                    value.is_type(&expected[index]),
                    "wrong token at {} for {:?}: got {:?}",
                    index,
                    s,
                    value
                );
            }
        }
        Err(e) => panic!("did not lex correctly: {:?}. Received: {:?}", s, e),
    }
}

fn tokens_of(s: &str) -> Vec<Token> {
    match lex(s) {
        Ok(tokens) => tokens,
        Err(e) => panic!("did not lex correctly: {:?}. Received: {:?}", s, e),
    }
}

#[test]
fn test_lex_1_token() {
    assert_lexes_to("**", &[TokenType::StarStar]);
    assert_lexes_to("+", &[TokenType::Plus]);
    assert_lexes_to("-", &[TokenType::Minus]);
    assert_lexes_to("*", &[TokenType::Star]);
    assert_lexes_to("/", &[TokenType::Slash]);
    assert_lexes_to("if", &[TokenType::If]);
    assert_lexes_to("else", &[TokenType::Else]);
}

#[test]
fn test_name_token() {
    assert_lexes_to("test", &[TokenType::Name("test".to_owned())]);
    assert_lexes_to(
        "test tested",
        &[TokenType::Name("test".to_owned()), TokenType::Name("tested".to_owned())],
    );
}

#[test]
fn test_lex_multi_token() {
    assert_lexes_to("* *", &[TokenType::Star, TokenType::Star]);
    assert_lexes_to("+ *", &[TokenType::Plus, TokenType::Star]);
    assert_lexes_to("*-", &[TokenType::Star, TokenType::Minus]);
}

#[test]
fn test_empty_input_yields_no_tokens() {
    let tokens = tokens_of("");
    assert!(tokens.is_empty());
}

#[test]
fn test_spaces_only_yield_no_tokens() {
    let tokens = tokens_of("   ");
    assert!(tokens.is_empty());
}

#[test]
fn test_double_star_is_one_token() {
    let tokens = tokens_of("**");
    assert_eq!(tokens.len(), 1);
    assert!(tokens[0].is_type(&TokenType::StarStar));
    assert!(!tokens[0].is_type(&TokenType::Star));
}

#[test]
fn test_adjacent_operators() {
    assert_lexes_to("+*", &[TokenType::Plus, TokenType::Star]);
    assert_lexes_to("***", &[TokenType::StarStar, TokenType::Star]);
    assert_lexes_to("+-*/", &[TokenType::Plus, TokenType::Minus, TokenType::Star, TokenType::Slash]);
}

#[test]
fn test_keywords_are_case_sensitive() {
    assert_lexes_to("IF", &[TokenType::Name("IF".to_owned())]);
    assert_lexes_to("Else", &[TokenType::Name("Else".to_owned())]);
    assert_lexes_to("iff", &[TokenType::Name("iff".to_owned())]);
    assert_lexes_to("elsewhere", &[TokenType::Name("elsewhere".to_owned())]);
}

#[test]
fn test_character_after_identifier_is_scanned() {
    assert_lexes_to("if+", &[TokenType::If, TokenType::Plus]);
    assert_lexes_to("if x", &[TokenType::If, TokenType::Name("x".to_owned())]);
    assert_lexes_to("a*b", &[TokenType::Name("a".to_owned()), TokenType::Star, TokenType::Name("b".to_owned())]);
}

#[test]
fn test_unexpected_character_at_start() {
    match lex("@") {
        Ok(tokens) => panic!("lexed unexpectedly: {:?}", tokens),
        Err(LexError::UnexpectedToken(c, start, end)) => {
            assert_eq!(c, '@');
            assert_eq!(start, Location::new(1, 1));
            assert_eq!(end, Location::new(1, 1));
        }
    }
}

#[test]
fn test_digit_is_not_recognized() {
    match lex("3") {
        Ok(tokens) => panic!("lexed unexpectedly: {:?}", tokens),
        Err(LexError::UnexpectedToken(c, start, end)) => {
            assert_eq!(c, '3');
            assert_eq!(start, Location::new(1, 1));
            assert_eq!(end, Location::new(1, 1));
        }
    }
}

#[test]
fn test_tab_is_not_recognized() {
    match lex("\t") {
        Ok(tokens) => panic!("lexed unexpectedly: {:?}", tokens),
        Err(LexError::UnexpectedToken(c, _, _)) => assert_eq!(c, '\t'),
    }
}

#[test]
fn test_error_discards_preceding_tokens() {
    match lex("+ @") {
        Ok(tokens) => panic!("lexed unexpectedly: {:?}", tokens),
        Err(LexError::UnexpectedToken(c, start, end)) => {
            assert_eq!(c, '@');
            assert_eq!(start, Location::new(1, 3));
            assert_eq!(end, Location::new(1, 3));
        }
    }
}

#[test]
fn test_error_after_identifier() {
    match lex("name@") {
        Ok(tokens) => panic!("lexed unexpectedly: {:?}", tokens),
        Err(LexError::UnexpectedToken(c, start, end)) => {
            assert_eq!(c, '@');
            assert_eq!(start, Location::new(1, 5));
            assert_eq!(end, Location::new(1, 5));
        }
    }
}

#[test]
fn test_token_positions_single_characters() {
    let tokens = tokens_of("+ *");
    assert_eq!(tokens[0].start, Location::new(1, 1));
    assert_eq!(tokens[0].end, Location::new(1, 1));
    assert_eq!(tokens[1].start, Location::new(1, 3));
    assert_eq!(tokens[1].end, Location::new(1, 3));
}

#[test]
fn test_token_positions_spans() {
    let tokens = tokens_of("**");
    assert_eq!(tokens[0].start, Location::new(1, 1));
    assert_eq!(tokens[0].end, Location::new(1, 2));

    let tokens = tokens_of("test tested");
    assert_eq!(tokens[0].start, Location::new(1, 1));
    assert_eq!(tokens[0].end, Location::new(1, 4));
    assert_eq!(tokens[1].start, Location::new(1, 6));
    assert_eq!(tokens[1].end, Location::new(1, 11));
}

#[test]
fn test_check_keyword_table() {
    assert_eq!(check_keyword("if".to_owned()), TokenType::If);
    assert_eq!(check_keyword("else".to_owned()), TokenType::Else);
    assert_eq!(
        check_keyword("other".to_owned()),
        TokenType::Name("other".to_owned())
    );
    assert_eq!(check_keyword("IF".to_owned()), TokenType::Name("IF".to_owned()));
}

#[test]
fn test_take_until_consumes_letters_only() {
    assert_eq!(take_until("abc+def", 0), "abc");
    assert_eq!(take_until("abc+def", 4), "def");
    assert_eq!(take_until("+abc", 0), "");
    assert_eq!(take_until("abc", 3), "");
}

#[test]
fn test_concatenation_fails_when_either_part_fails() {
    assert!(lex("+-").is_ok());
    assert!(lex("@").is_err());
    assert!(lex("+-@").is_err());
    assert!(lex("@+-").is_err());
}

#[test]
fn test_round_trip_with_space_boundary() {
    let first = tokens_of("+ ");
    let second = tokens_of("*");
    let whole = tokens_of("+ *");
    assert_eq!(whole.len(), first.len() + second.len());
    assert!(whole[0].is_type(&TokenType::Plus));
    assert!(whole[1].is_type(&TokenType::Star));
    assert_eq!(whole[0].start, first[0].start);
    assert_eq!(whole[1].start, Location::new(1, second[0].start.column + 2));
}

#[test]
fn test_adjacent_texts_can_merge() {
    let whole = tokens_of("test");
    assert_eq!(whole.len(), 1);
    assert!(whole[0].is_type(&TokenType::Name("test".to_owned())));

    let star = tokens_of("**");
    assert_eq!(star.len(), 1);
    assert!(star[0].is_type(&TokenType::StarStar));
}
