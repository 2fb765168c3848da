use monkey_json::{Lexer, Number, Object, Parser, Value};

fn number(f: f64) -> Value {
    Value::Number(Number::new(&f.to_string()).unwrap())
}

fn value_eq(a: &Value, b: &Value) -> bool {
    match (a, b) {
        (Value::Number(x), Value::Number(y)) => {
            x.text().parse::<f64>().unwrap() == y.text().parse::<f64>().unwrap()
        }
        (Value::Array(xs), Value::Array(ys)) => {
            xs.len() == ys.len() && xs.iter().zip(ys.iter()).all(|(x, y)| value_eq(x, y))
        }
        (Value::Object(x), Value::Object(y)) => {
            x.len() == y.len()
                && (0..x.len()).all(|i| {
                    let (kx, vx) = x.entry(i).unwrap();
                    let (ky, vy) = y.entry(i).unwrap();
                    kx == ky && value_eq(vx, vy)
                })
        }
        _ => a == b,
    }
}

#[test]
fn test_parse_object() {
    let json = r#"{"togatoga" : "monkey-json"}"#;
    let value = Parser::new(Lexer::new(json).tokenize().unwrap())
        .parse()
        .unwrap();
    let mut object = Object::new();
    object.insert(
        "togatoga".to_string(),
        Value::String("monkey-json".to_string()),
    );
    assert_eq!(value, Value::Object(object));

    let json = r#"
        {
            "key": {
                "key": false
            }
        }
        "#;

    let value = Parser::new(Lexer::new(json).tokenize().unwrap())
        .parse()
        .unwrap();
    let mut object = Object::new();
    let mut nested_object = Object::new();
    nested_object.insert("key".to_string(), Value::Bool(false));
    object.insert("key".to_string(), Value::Object(nested_object));
    assert_eq!(value, Value::Object(object));
}

#[test]
fn test_parse_array() {
    let json = r#"[null, 1, true, "monkey-json"]"#;
    let value = Parser::new(Lexer::new(json).tokenize().unwrap())
        .parse()
        .unwrap();
    let array = Value::Array(vec![
        Value::Null,
        number(1.0),
        Value::Bool(true),
        Value::String("monkey-json".to_string()),
    ]);
    assert!(value_eq(&value, &array));

    let json = r#"[["togatoga", 123]]"#;
    let value = Parser::new(Lexer::new(json).tokenize().unwrap())
        .parse()
        .unwrap();
    let array = Value::Array(vec![Value::Array(vec![
        Value::String("togatoga".to_string()),
        number(123.0),
    ])]);
    assert!(value_eq(&value, &array));
}

#[test]
fn test_parse() {
    let json = r#"{"key" : [1, "value"]}"#;
    let value = Parser::new(Lexer::new(json).tokenize().unwrap())
        .parse()
        .unwrap();
    let mut object = Object::new();
    object.insert(
        "key".to_string(),
        Value::Array(vec![number(1.0), Value::String("value".to_string())]),
    );
    assert!(value_eq(&value, &Value::Object(object)));

    let json = r#"[{"key": "value"}]"#;
    let value = Parser::new(Lexer::new(json).tokenize().unwrap())
        .parse()
        .unwrap();
    let mut object = Object::new();
    object.insert("key".to_string(), Value::String("value".to_string()));

    let array = Value::Array(vec![Value::Object(object)]);
    assert_eq!(value, array);
}

#[test]
fn parser_reads_an_empty_container_inside_another() {
    let json = r#"{"a": [], "b": {}, "c": 1}"#;
    let value = Parser::new(Lexer::new(json).tokenize().unwrap())
        .parse()
        .unwrap();
    assert_eq!(value.get("a"), Some(&Value::Array(vec![])));
    assert_eq!(value.get("b"), Some(&Value::Object(Object::new())));
    assert!(value_eq(value.get("c").unwrap(), &number(1.0)));
}

#[test]
fn parser_stops_after_the_first_value() {
    let mut parser = Parser::new(Lexer::new("1 2").tokenize().unwrap());
    let value = parser.parse().unwrap();
    assert!(value_eq(&value, &number(1.0)));
    let value = parser.parse().unwrap();
    assert!(value_eq(&value, &number(2.0)));
    assert!(parser.parse().is_err());
}

#[test]
fn parser_rejects_a_missing_separator() {
    assert!(Parser::new(Lexer::new("[1 2]").tokenize().unwrap()).parse().is_err());
    assert!(Parser::new(Lexer::new("{\"a\" 1}").tokenize().unwrap()).parse().is_err());
    assert!(Parser::new(Lexer::new("{\"a\":1 \"b\":2}").tokenize().unwrap()).parse().is_err());
}

#[test]
fn parser_rejects_a_key_that_is_no_string() {
    assert!(Parser::new(Lexer::new("{1:2}").tokenize().unwrap()).parse().is_err());
}

#[test]
fn parser_rejects_an_unclosed_container() {
    assert!(Parser::new(Lexer::new("[1,").tokenize().unwrap()).parse().is_err());
    assert!(Parser::new(Lexer::new("{\"a\":1").tokenize().unwrap()).parse().is_err());
    assert!(Parser::new(Lexer::new("[").tokenize().unwrap()).parse().is_err());
}

#[test]
fn parser_rejects_a_stray_closer() {
    assert!(Parser::new(Lexer::new("]").tokenize().unwrap()).parse().is_err());
    assert!(Parser::new(Lexer::new(":").tokenize().unwrap()).parse().is_err());
}
