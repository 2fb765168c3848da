use monkey_json::{Lexer, Number, Token};

fn number_token(f: f64) -> Token {
    Token::Number(Number::new(&f.to_string()).unwrap())
}

fn token_eq(a: &Token, b: &Token) -> bool {
    match (a, b) {
        (Token::Number(x), Token::Number(y)) => {
            x.text().parse::<f64>().unwrap() == y.text().parse::<f64>().unwrap()
        }
        _ => a == b,
    }
}

#[test]
fn test_number() {
    //integer
    let num = "1234567890";
    let tokens = Lexer::new(num).tokenize().unwrap();
    assert!(token_eq(&tokens[0], &number_token(1234567890f64)));

    //float
    let num = "-0.001";
    let tokens = Lexer::new(num).tokenize().unwrap();
    assert!(token_eq(&tokens[0], &number_token(-0.001)));

    // exponent
    let num = "1e-10";
    let tokens = Lexer::new(num).tokenize().unwrap();
    assert!(token_eq(&tokens[0], &number_token(0.0000000001)));
}

#[test]
fn test_bool() {
    let b = "true";
    let tokens = Lexer::new(b).tokenize().unwrap();
    assert_eq!(tokens[0], Token::Bool(true));

    let b = "false";
    let tokens = Lexer::new(b).tokenize().unwrap();
    assert_eq!(tokens[0], Token::Bool(false));
}

#[test]
fn test_string() {
    let s = "\"togatoga123\"";
    let tokens = Lexer::new(s).tokenize().unwrap();
    assert_eq!(tokens[0], Token::String("togatoga123".to_string()));

    let s = "\"あいうえお\"";
    let tokens = Lexer::new(s).tokenize().unwrap();
    assert_eq!(tokens[0], Token::String("あいうえお".to_string()));

    let s = r#""\u3042\u3044\u3046abc""#; //あいうabc

    let tokens = Lexer::new(s).tokenize().unwrap();
    assert_eq!(tokens[0], Token::String("あいうabc".to_string()));

    let s = format!(r#" " \b \f \n \r \t \/ \" ""#);
    let tokens = Lexer::new(&s).tokenize().unwrap();
    assert_eq!(
        tokens[0],
        Token::String(r#" \b \f \n \r \t \/ \" "#.to_string())
    );

    let s = r#""\uD83D\uDE04\uD83D\uDE07\uD83D\uDC7A""#;
    let tokens = Lexer::new(&s).tokenize().unwrap();
    assert_eq!(tokens[0], Token::String(r#"😄😇👺"#.to_string()));
}

#[test]
fn test_null() {
    let null = "null";
    let tokens = Lexer::new(null).tokenize().unwrap();
    assert_eq!(tokens[0], Token::Null);
}

#[test]
fn test_object() {
    let obj = r#"
        {
            "number": 123,
            "boolean": true,
            "string": "togatoga",
            "object": {
               "number": 2E10
            }
         }
         "#;

    let tokens = Lexer::new(obj).tokenize().unwrap();
    let result_tokens = [
        // start {
        Token::LeftBrace,
        // begin: "number": 123,
        Token::String("number".to_string()),
        Token::Colon,
        number_token(123f64),
        Token::Comma,
        // end

        // begin: "boolean": true,
        Token::String("boolean".to_string()),
        Token::Colon,
        Token::Bool(true),
        Token::Comma,
        // end

        // begin: "string": "togatoga",
        Token::String("string".to_string()),
        Token::Colon,
        Token::String("togatoga".to_string()),
        Token::Comma,
        // end

        // begin: "object": {
        Token::String("object".to_string()),
        Token::Colon,
        Token::LeftBrace,
        // begin: "number": 2E10,
        Token::String("number".to_string()),
        Token::Colon,
        number_token(20000000000f64),
        // end
        Token::RightBrace,
        // end
        Token::RightBrace,
        // end
    ];
    tokens
        .iter()
        .zip(result_tokens.iter())
        .enumerate()
        .for_each(|(i, (x, y))| {
            assert!(token_eq(x, y), "index: {}", i);
        });
}

#[test]
fn test_array() {
    let a = "[true, {\"キー\": null}]";
    let tokens = Lexer::new(a).tokenize().unwrap();
    let result_tokens = vec![
        Token::LeftBracket,
        Token::Bool(true),
        Token::Comma,
        Token::LeftBrace,
        Token::String("キー".to_string()),
        Token::Colon,
        Token::Null,
        Token::RightBrace,
        Token::RightBracket,
    ];
    tokens
        .iter()
        .zip(result_tokens.iter())
        .for_each(|(x, y)| assert_eq!(x, y));
}

#[test]
fn lexer_keeps_the_whole_token_count() {
    let tokens = Lexer::new(" [ 1 , \"a\" ] ").tokenize().unwrap();
    assert_eq!(tokens.len(), 5);
}

#[test]
fn lexer_rejects_an_unterminated_string() {
    assert!(Lexer::new("\"abc").tokenize().is_err());
}

#[test]
fn lexer_rejects_an_unknown_escape() {
    let e = Lexer::new("\"\\q\"").tokenize().unwrap_err();
    assert!(e.msg.ends_with('q'));
}

#[test]
fn lexer_rejects_a_short_unicode_escape() {
    assert!(Lexer::new("\"\\u12\"").tokenize().is_err());
    assert!(Lexer::new("\"\\u12G4\"").tokenize().is_err());
}

#[test]
fn lexer_rejects_an_unpaired_surrogate() {
    assert!(Lexer::new("\"\\uD83D\"").tokenize().is_err());
    assert!(Lexer::new("\"\\uDE04\"").tokenize().is_err());
    assert!(Lexer::new("\"\\uD83Dx\"").tokenize().is_err());
}

#[test]
fn lexer_decodes_a_unit_next_to_an_escape() {
    let tokens = Lexer::new("\"\\u0041\\n\"").tokenize().unwrap();
    assert_eq!(tokens[0], Token::String("A\\n".to_string()));
}

#[test]
fn lexer_rejects_misspelt_words() {
    assert!(Lexer::new("tru").tokenize().is_err());
    assert!(Lexer::new("fals").tokenize().is_err());
    assert!(Lexer::new("nul").tokenize().is_err());
    assert!(Lexer::new("nulx").tokenize().is_err());
}

#[test]
fn lexer_rejects_an_unexpected_char() {
    let e = Lexer::new("[1, @]").tokenize().unwrap_err();
    assert!(e.msg.ends_with('@'));
}

#[test]
fn lexer_rejects_a_malformed_number() {
    assert!(Lexer::new("1.2.3").tokenize().is_err());
    assert!(Lexer::new("1e").tokenize().is_err());
    assert!(Lexer::new("-").tokenize().is_err());
    assert!(Lexer::new("--1").tokenize().is_err());
}

#[test]
fn lexer_accepts_a_leading_plus() {
    let tokens = Lexer::new("+10").tokenize().unwrap();
    assert!(token_eq(&tokens[0], &number_token(10.0)));
}
