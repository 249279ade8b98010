use json_scanner::{Number, ScanError, Scanner, Token, TokenType, TokenValue};

fn scan(text: &str) -> Result<Vec<Token>, ScanError> {
    Scanner::new(text).scan()
}

fn kinds(tokens: &[Token]) -> Vec<TokenType> {
    tokens.iter().map(|t| t.t_type).collect()
}

fn string_of(t: &Token) -> &str {
    match &t.t_value {
        Some(TokenValue::STRING(s)) => s.as_str(),
        other => panic!("not a string payload: {:?}", other),
    }
}

fn number_of(t: &Token) -> f64 {
    match &t.t_value {
        Some(TokenValue::NUMBER(n)) => n.as_str().parse::<f64>().unwrap(),
        other => panic!("not a number payload: {:?}", other),
    }
}

fn number_text(t: &Token) -> String {
    match &t.t_value {
        Some(TokenValue::NUMBER(n)) => n.as_str().to_string(),
        other => panic!("not a number payload: {:?}", other),
    }
}

#[test]
fn scans_true() {
    let toks = scan("true").unwrap();
    assert_eq!(toks, vec![Token::new(TokenType::BOOL, Some(TokenValue::BOOL(true)))]);
}

#[test]
fn scans_false() {
    let toks = scan("false").unwrap();
    assert_eq!(toks, vec![Token::new(TokenType::BOOL, Some(TokenValue::BOOL(false)))]);
}

#[test]
fn scans_null() {
    let toks = scan("null").unwrap();
    assert_eq!(toks, vec![Token::new(TokenType::NULL, None)]);
}

#[test]
fn scans_decimal_number() {
    let toks = scan("123.45").unwrap();
    assert_eq!(kinds(&toks), vec![TokenType::NUMBER]);
    assert_eq!(number_of(&toks[0]), 123.45);
    assert_eq!(number_text(&toks[0]), "123.45");
}

#[test]
fn scans_string() {
    let toks = scan("\"abc\"").unwrap();
    assert_eq!(kinds(&toks), vec![TokenType::STRING]);
    assert_eq!(string_of(&toks[0]), "abc");
}

#[test]
fn scans_empty_object() {
    let toks = scan("{}").unwrap();
    assert_eq!(toks, vec![Token::new(TokenType::LBRACE, None), Token::new(TokenType::RBRACE, None)]);
}

#[test]
fn scans_small_object() {
    let toks = scan("{\"a\": 1}").unwrap();
    assert_eq!(
        kinds(&toks),
        vec![
            TokenType::LBRACE,
            TokenType::STRING,
            TokenType::COLON,
            TokenType::WHITESPACE,
            TokenType::NUMBER,
            TokenType::RBRACE
        ]
    );
    assert_eq!(string_of(&toks[1]), "a");
    assert_eq!(number_of(&toks[4]), 1.0);
}

#[test]
fn truncated_boolean_fails() {
    assert_eq!(scan("t"), Err(ScanError::PrematureEndOfInput));
}

#[test]
fn truncated_null_fails() {
    assert_eq!(scan("[nul"), Err(ScanError::PrematureEndOfInput));
}

#[test]
fn wrong_letter_in_boolean_fails() {
    assert_eq!(scan("tx"), Err(ScanError::UnexpectedCharacter('x')));
    assert_eq!(scan("fals "), Err(ScanError::UnexpectedCharacter(' ')));
}

#[test]
fn wrong_letter_in_null_fails() {
    assert_eq!(scan("nil"), Err(ScanError::UnexpectedCharacter('i')));
}

#[test]
fn bare_minus_fails() {
    assert_eq!(scan("-"), Err(ScanError::UnparsableNumber));
    assert_eq!(scan("[-, 1]"), Err(ScanError::UnparsableNumber));
}

#[test]
fn two_dots_fail() {
    assert_eq!(scan("1.2.3"), Err(ScanError::UnparsableNumber));
}

#[test]
fn minus_dot_fails() {
    assert_eq!(scan("-."), Err(ScanError::UnparsableNumber));
}

#[test]
fn failure_after_good_tokens_returns_no_tokens() {
    assert_eq!(scan("{\"k\": tru"), Err(ScanError::PrematureEndOfInput));
}

#[test]
fn negative_and_fraction_only_numbers() {
    let toks = scan("-3.25,-.5,7.").unwrap();
    assert_eq!(
        kinds(&toks),
        vec![TokenType::NUMBER, TokenType::COMMA, TokenType::NUMBER, TokenType::COMMA, TokenType::NUMBER]
    );
    assert_eq!(number_of(&toks[0]), -3.25);
    assert_eq!(number_of(&toks[2]), -0.5);
    assert_eq!(number_of(&toks[4]), 7.0);
    assert_eq!(number_text(&toks[2]), "-.5");
}

#[test]
fn number_stops_at_first_other_character() {
    let toks = scan("12e5").unwrap();
    assert_eq!(kinds(&toks), vec![TokenType::NUMBER, TokenType::NUMBER]);
    assert_eq!(number_of(&toks[0]), 12.0);
    assert_eq!(number_of(&toks[1]), 5.0);
}

#[test]
fn unterminated_string_ends_at_input_end() {
    let toks = scan("\"ab").unwrap();
    assert_eq!(kinds(&toks), vec![TokenType::STRING]);
    assert_eq!(string_of(&toks[0]), "ab");
}

#[test]
fn string_ends_before_non_ascii_character() {
    let toks = scan("\"a\u{e9}\"").unwrap();
    assert_eq!(kinds(&toks), vec![TokenType::STRING, TokenType::STRING]);
    assert_eq!(string_of(&toks[0]), "a");
    assert_eq!(string_of(&toks[1]), "");
}

#[test]
fn backslash_has_no_special_meaning() {
    let toks = scan("\"a\\\"b").unwrap();
    assert_eq!(kinds(&toks), vec![TokenType::STRING]);
    assert_eq!(string_of(&toks[0]), "a\\");
}

#[test]
fn string_keeps_spaces_and_punctuation() {
    let toks = scan("\"x, y: {z}\"").unwrap();
    assert_eq!(kinds(&toks), vec![TokenType::STRING]);
    assert_eq!(string_of(&toks[0]), "x, y: {z}");
}

#[test]
fn empty_input_gives_no_tokens() {
    assert_eq!(scan(""), Ok(vec![]));
}

#[test]
fn tabs_returns_newlines_give_no_tokens() {
    let mut sc = Scanner::new("\t\r\n\n");
    assert_eq!(sc.scan(), Ok(vec![]));
    assert_eq!(sc.line(), 2);
}

#[test]
fn newline_inside_string_is_counted() {
    let mut sc = Scanner::new("\"a\nb\"\n");
    let toks = sc.scan().unwrap();
    assert_eq!(string_of(&toks[0]), "a\nb");
    assert_eq!(sc.line(), 2);
}

#[test]
fn unknown_characters_are_dropped() {
    let toks = scan("x@[#]").unwrap();
    assert_eq!(kinds(&toks), vec![TokenType::LBRACKET, TokenType::RBRACKET]);
}

#[test]
fn each_space_is_one_whitespace_token() {
    let toks = scan("   ").unwrap();
    assert_eq!(kinds(&toks), vec![TokenType::WHITESPACE; 3]);
    let toks = scan("[ 1 ,  2 ]").unwrap();
    let spaces = kinds(&toks).iter().filter(|k| **k == TokenType::WHITESPACE).count();
    assert_eq!(spaces, 5);
}

#[test]
fn units_come_out_in_order() {
    let toks = scan("[true, false,null,\"s\" ,-1]\t:").unwrap();
    assert_eq!(
        kinds(&toks),
        vec![
            TokenType::LBRACKET,
            TokenType::BOOL,
            TokenType::COMMA,
            TokenType::WHITESPACE,
            TokenType::BOOL,
            TokenType::COMMA,
            TokenType::NULL,
            TokenType::COMMA,
            TokenType::STRING,
            TokenType::WHITESPACE,
            TokenType::COMMA,
            TokenType::NUMBER,
            TokenType::RBRACKET,
            TokenType::COLON
        ]
    );
    assert_eq!(toks[1].t_value, Some(TokenValue::BOOL(true)));
    assert_eq!(toks[4].t_value, Some(TokenValue::BOOL(false)));
    assert_eq!(number_of(&toks[11]), -1.0);
}

#[test]
fn scanning_is_deterministic() {
    let text = "{\"k\": [1.5, true, null]}";
    let first = scan(text);
    let second = scan(text);
    assert_eq!(first, second);
    let mut sc = Scanner::new(text);
    let again = sc.scan();
    let once_more = sc.scan();
    assert_eq!(again, once_more);
    assert_eq!(again, first);
}

#[test]
fn decimal_text_reads_as_its_value() {
    for (text, value) in [("0", 0.0), ("10", 10.0), ("0.5", 0.5), ("3.", 3.0), ("007.25", 7.25)] {
        let toks = scan(text).unwrap();
        assert_eq!(kinds(&toks), vec![TokenType::NUMBER]);
        assert_eq!(number_text(&toks[0]), text);
        assert_eq!(number_of(&toks[0]), value);
    }
}

#[test]
fn token_new_keeps_its_parts() {
    let t = Token::new(TokenType::STRING, Some(TokenValue::STRING("q".to_string())));
    assert_eq!(t.t_type, TokenType::STRING);
    assert_eq!(t.t_value, Some(TokenValue::STRING("q".to_string())));
    let t = Token::new(TokenType::COMMA, None);
    assert_eq!(t.t_type, TokenType::COMMA);
    assert_eq!(t.t_value, None);
}

#[test]
fn number_parse_accepts_number_text() {
    for text in ["0", "-1", "123.45", "-.5", "7.", "007"] {
        let n = Number::parse(text).unwrap();
        assert_eq!(n.as_str(), text);
    }
    let n = Number::parse("-2.5").unwrap();
    assert_eq!(n.as_str().parse::<f64>().unwrap(), -2.5);
}

#[test]
fn number_parse_rejects_other_text() {
    for text in ["", "-", "-.", ".", "1.2.3", "1e5", "+1", " 1", "--1", "1-"] {
        assert_eq!(Number::parse(text), None);
    }
}

#[test]
fn number_token_built_by_hand_equals_scanned_one() {
    let n = Number::parse("123.45").unwrap();
    let expected = Token::new(TokenType::NUMBER, Some(TokenValue::NUMBER(n)));
    assert_eq!(scan("123.45").unwrap(), vec![expected]);
}

#[test]
fn tokens_clone_to_equal_tokens() {
    let toks = scan("[\"s\", 2.5, true]").unwrap();
    let copy = toks.clone();
    assert_eq!(copy, toks);
    assert_eq!(number_text(&copy[4]), "2.5");
}

#[test]
fn inserted_tabs_returns_newlines_change_nothing() {
    let plain = scan("{\"a\":[1,true,null]}").unwrap();
    let spread = scan("\t{\r\n\"a\"\n:[1\t,true\r,null]\n}\n").unwrap();
    assert_eq!(spread, plain);
    assert_eq!(scan("\t\r\n"), Ok(vec![]));
}

#[test]
fn spaces_outside_strings_are_whitespace_tokens() {
    let toks = scan("{ \"a b\" :  \" \" }").unwrap();
    let ws = toks.iter().filter(|t| t.t_type == TokenType::WHITESPACE).count();
    assert_eq!(ws, 5);
    assert!(toks.iter().filter(|t| t.t_type == TokenType::WHITESPACE).all(|t| t.t_value.is_none()));
    assert_eq!(string_of(&toks[2]), "a b");
    assert_eq!(string_of(&toks[7]), " ");
}
