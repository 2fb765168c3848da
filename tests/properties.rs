use monkey_json::{green, parse, red, render, yellow, ErrorKind, Number, Object, RenderOptions, Value};

const COMPACT: RenderOptions = RenderOptions { minify: true, color: false };
const INDENTED: RenderOptions = RenderOptions { minify: false, color: false };

fn number_of(v: &Value) -> f64 {
    match v {
        Value::Number(n) => n.text().parse::<f64>().unwrap(),
        _ => panic!("not a number"),
    }
}

#[test]
fn scalars_parse_to_scalar_values() {
    assert_eq!(parse("null").unwrap(), Value::Null);
    assert_eq!(parse("true").unwrap(), Value::Bool(true));
    assert_eq!(parse("false").unwrap(), Value::Bool(false));
    assert_eq!(number_of(&parse("-0.001").unwrap()), -0.001);
    assert_eq!(number_of(&parse("1e-10").unwrap()), 0.0000000001);
    assert_eq!(parse("\"x\"").unwrap(), Value::String("x".to_string()));
}

#[test]
fn surrogate_pair_becomes_one_character() {
    let v = parse("\"\\uD83D\\uDE04\"").unwrap();
    assert_eq!(v, Value::String("\u{1F604}".to_string()));
    match v {
        Value::String(s) => assert_eq!(s.chars().count(), 1),
        _ => panic!("not a string"),
    }
}

#[test]
fn kept_escapes_stay_as_written() {
    let v = parse("\" \\n \"").unwrap();
    assert_eq!(v, Value::String(" \\n ".to_string()));
}

#[test]
fn later_duplicate_key_wins() {
    let v = parse("{\"a\":1,\"a\":2}").unwrap();
    assert_eq!(number_of(v.get("a").unwrap()), 2.0);
    match &v {
        Value::Object(o) => assert_eq!(o.len(), 1),
        _ => panic!("not an object"),
    }
}

#[test]
fn keys_render_in_ascending_order() {
    let v = parse("{\"b\":1,\"a\":2}").unwrap();
    assert_eq!(render(&v, COMPACT), "{\"a\":2,\"b\":1}");
    assert_eq!(render(&v, INDENTED), "{\n   \"a\": 2,\n   \"b\": 1\n}");
    let mut o = Object::new();
    o.insert("b".to_string(), Value::Null);
    o.insert("a".to_string(), Value::Null);
    o.insert("ab".to_string(), Value::Null);
    o.insert("B".to_string(), Value::Null);
    assert_eq!(render(&Value::Object(o), COMPACT), "{\"B\":null,\"a\":null,\"ab\":null,\"b\":null}");
}

#[test]
fn canonical_text_is_a_fixed_point() {
    let x = "{\"z\": [1, 2.5, {\"k\": \"v\\n\"}], \"a\": {\"b\": null, \"c\": []}, \"m\": -3e2}";
    for opts in [COMPACT, INDENTED] {
        let once = render(&parse(x).unwrap(), opts);
        let twice = render(&parse(&once).unwrap(), opts);
        assert_eq!(once, twice);
    }
}

#[test]
fn colour_free_text_is_a_fixed_point() {
    let x = "[1, [true, false], {}, -2.5e3]";
    for minify in [true, false] {
        let opts = RenderOptions { minify, color: true };
        let once = render(&parse(x).unwrap(), opts);
        assert_eq!(once, render(&parse(x).unwrap(), RenderOptions { minify, color: false }));
        let twice = render(&parse(&once).unwrap(), opts);
        assert_eq!(once, twice);
    }
}

#[test]
fn decoded_quote_does_not_read_back() {
    let v = parse("\"\\u0022\"").unwrap();
    assert_eq!(v, Value::String("\"".to_string()));
    assert!(parse(&render(&v, COMPACT)).is_err());
}

#[test]
fn empty_containers() {
    let o = parse("{}").unwrap();
    let a = parse("[]").unwrap();
    assert_eq!(o, Value::Object(Object::new()));
    assert_eq!(a, Value::Array(vec![]));
    for opts in [COMPACT, INDENTED] {
        assert_eq!(render(&o, opts), "{}");
        assert_eq!(render(&a, opts), "[]");
    }
    let nested = parse("[{}, []]").unwrap();
    assert_eq!(render(&nested, INDENTED), "[\n   {},\n   []\n]");
}

#[test]
fn malformed_structure_is_a_parse_error() {
    assert_eq!(parse("{\"a\":}").unwrap_err().kind, ErrorKind::Parse);
    assert_eq!(parse("[1,]").unwrap_err().kind, ErrorKind::Parse);
    assert_eq!(parse("").unwrap_err().kind, ErrorKind::Parse);
    assert_eq!(parse("{\"a\",1}").unwrap_err().kind, ErrorKind::Parse);
}

#[test]
fn invalid_escape_is_a_lex_error() {
    assert_eq!(parse("\"\\q\"").unwrap_err().kind, ErrorKind::Lex);
    assert_eq!(parse("\"open").unwrap_err().kind, ErrorKind::Lex);
    assert_eq!(parse("[1, x]").unwrap_err().kind, ErrorKind::Lex);
    assert_eq!(parse("1.2.3").unwrap_err().kind, ErrorKind::Lex);
}

#[test]
fn compact_rendering() {
    let v = parse("[true, false, null, \"s\", 12, {\"k\": [1]}]").unwrap();
    assert_eq!(render(&v, COMPACT), "[true,false,null,\"s\",12,{\"k\":[1]}]");
}

#[test]
fn indented_rendering() {
    let v = parse("{\"key\":[1,{\"a\":null}],\"s\":\"t\"}").unwrap();
    assert_eq!(
        render(&v, INDENTED),
        "{\n   \"key\": [\n      1,\n      {\n         \"a\": null\n      }\n   ],\n   \"s\": \"t\"\n}"
    );
    assert_eq!(render(&parse("7").unwrap(), INDENTED), "7");
}

#[test]
fn colour_sequences() {
    assert_eq!(red("null"), "\x1b[31mnull\x1b[m");
    assert_eq!(green("s"), "\x1b[32ms\x1b[m");
    assert_eq!(yellow("k"), "\x1b[33mk\x1b[m");
    let v = parse("{\"k\":[\"s\",null,1,true]}").unwrap();
    let opts = RenderOptions { minify: true, color: true };
    assert_eq!(
        render(&v, opts),
        "{\"\x1b[33mk\x1b[m\":[\"\x1b[32ms\x1b[m\",\x1b[31mnull\x1b[m,1,true]}"
    );
    let opts = RenderOptions { minify: false, color: true };
    assert_eq!(render(&parse("null").unwrap(), opts), "\x1b[31mnull\x1b[m");
}

#[test]
fn number_literals() {
    for ok in ["0", "+1", "-1", ".5", "5.", "1e5", "1E+5", "1e-5", "0012", "-.5e3"] {
        assert!(Number::new(ok).is_some(), "{}", ok);
        assert_eq!(Number::new(ok).unwrap().text(), ok);
    }
    for bad in ["", "+", ".", "1e", "e1", "1..2", "1.2.3", "--1", "1e+", "1e5.0", "1x", "inf"] {
        assert!(Number::new(bad).is_none(), "{}", bad);
    }
}

#[test]
fn value_accessors() {
    let v = parse("{\"a\": [10, 20], \"b\": true}").unwrap();
    let a = v.get("a").unwrap();
    assert_eq!(number_of(a.at(1).unwrap()), 20.0);
    assert!(a.at(2).is_none());
    assert!(v.get("c").is_none());
    assert!(v.at(0).is_none());
    assert!(a.get("a").is_none());
    assert_eq!(v.get("b"), Some(&Value::Bool(true)));
}

#[test]
fn object_entries_in_key_order() {
    let mut o = Object::new();
    o.insert("y".to_string(), Value::Bool(true));
    o.insert("x".to_string(), Value::Null);
    o.insert("y".to_string(), Value::Bool(false));
    assert_eq!(o.len(), 2);
    let (k0, v0) = o.entry(0).unwrap();
    let (k1, v1) = o.entry(1).unwrap();
    assert_eq!((k0.as_str(), v0), ("x", &Value::Null));
    assert_eq!((k1.as_str(), v1), ("y", &Value::Bool(false)));
    assert!(o.entry(2).is_none());
    assert_eq!(o.get("y"), Some(&Value::Bool(false)));
}

#[test]
fn unicode_text_survives_reading_and_writing() {
    let v = parse("[\"\\u3042\u{3044}\"]").unwrap();
    assert_eq!(render(&v, COMPACT), "[\"\u{3042}\u{3044}\"]");
}

#[test]
fn cloned_value_is_equal() {
    let v = parse("{\"a\": [1, \"x\", null, {\"b\": false}], \"c\": {}}").unwrap();
    let c = v.clone();
    assert_eq!(c, v);
    assert_eq!(render(&c, INDENTED), render(&v, INDENTED));
}
