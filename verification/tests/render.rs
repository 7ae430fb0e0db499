use cereal::php::{parse_any, Parsed};
use cereal::render::render_object;
use cereal::stream::{parse_all, parse_stream};
use cereal::util::{CerealError, ErrorKind, ParseError, Rule};

fn fail<T>(kind: ErrorKind, rule: Rule, at: usize) -> Result<T, ParseError> {
    Err(ParseError { kind, rule, at })
}


#[test]
fn render_scalars() {
    assert_eq!(Parsed::Integer("-12").render(), "-12");
    assert_eq!(Parsed::Double(("5", "50")).render(), "5.50");
    assert_eq!(Parsed::Null("N;").render(), "Null");
    assert_eq!(Parsed::Bool("0").render(), "false");
    assert_eq!(Parsed::Bool("1").render(), "true");
    assert_eq!(Parsed::Eof.render(), "EOF");
}

#[test]
fn render_strings() {
    assert_eq!(Parsed::String(vec![]).render(), "\"\"");
    assert_eq!(
        Parsed::String(vec!["a", "\"", "é", ";"]).render(),
        "\"a\"é;\""
    );
}

#[test]
fn render_arrays() {
    assert_eq!(Parsed::Array(vec![]).render(), "[]");
    assert_eq!(
        Parsed::Array(vec![Parsed::Integer("5"), Parsed::Double(("5", "5"))]).render(),
        "[\n5, \n5.5, \n]"
    );
    assert_eq!(
        Parsed::Array(vec![Parsed::Array(vec![Parsed::Bool("1")])]).render(),
        "[\n[\ntrue, \n], \n]"
    );
}

#[test]
fn render_key_with_value() {
    let pair = Parsed::ObjectVal(Box::new((
        Parsed::String(vec!["k"]),
        Parsed::Integer("1"),
    )));
    assert_eq!(pair.render(), "\"k\": 1");
}

#[test]
fn render_objects() {
    let (_, value) = parse_any("O:5:\"Fruit\":2:{s:4:\"name\";N;s:5:\"color\";b:1;}").unwrap();
    assert_eq!(
        value.render(),
        "(5, Fruit):([ObjectVal((String([\"n\", \"a\", \"m\", \"e\"]), Null(\"N;\"))), ObjectVal((String([\"c\", \"o\", \"l\", \"o\", \"r\"]), Bool(\"1\")))])"
    );
    assert_eq!(Parsed::Object(("1", "A", vec![])).render(), "(1, A):([])");
}

#[test]
fn render_object_parts() {
    assert_eq!(render_object("5", "Fruit", "[]"), "(5, Fruit):([])");
    assert_eq!(render_object("", "", ""), "(, ):()");
}

#[test]
fn renderable_wants_boolean_tokens() {
    assert!(Parsed::Bool("0").is_renderable());
    assert!(Parsed::Bool("1").is_renderable());
    assert!(!Parsed::Bool("2").is_renderable());
    assert!(!Parsed::Bool("").is_renderable());
    assert!(!Parsed::Array(vec![Parsed::Integer("1"), Parsed::Bool("x")]).is_renderable());
    assert!(!Parsed::ObjectVal(Box::new((Parsed::Bool("1"), Parsed::Bool("01")))).is_renderable());
    assert!(Parsed::Object(("1", "A", vec![Parsed::Bool("x")])).is_renderable());
    assert!(Parsed::Integer("abc").is_renderable());
}

#[test]
fn whatever_decodes_can_be_rendered() {
    for input in ["i:5;", "b:1;", "a:2:{b:0;a:1:{s:1:\"k\";b:1;}}", "O:1:\"A\":1:{s:1:\"k\";b:0;}", ""] {
        let (_, value) = parse_any(input).unwrap();
        assert!(value.is_renderable());
    }
    let (_, value) = parse_any("a:2:{b:0;a:1:{s:1:\"k\";b:1;}}").unwrap();
    assert_eq!(value.render(), "[\nfalse, \n[\n\"k\": true, \n], \n]");
}

#[test]
fn stream_of_values() {
    assert_eq!(
        parse_stream("i:5;N;s:1:\"a\";"),
        Ok(vec![
            Parsed::Integer("5"),
            Parsed::Null("N;"),
            Parsed::String(vec!["a"])
        ])
    );
    assert_eq!(parse_stream(""), Ok(vec![]));
    assert_eq!(parse_stream("i:5;x"), fail(ErrorKind::SyntaxMismatch, Rule::Any, 4));
    assert_eq!(parse_stream("i:5;b:2;"), fail(ErrorKind::MalformedScalar, Rule::Bool, 6));
}

#[test]
fn all_lines_are_one_text() {
    assert_eq!(parse_all(vec![]), Ok(0));
    assert_eq!(parse_all(vec!["", ""]), Ok(0));
    assert_eq!(parse_all(vec!["i:5;", "N;"]), Ok(2));
    assert_eq!(parse_all(vec!["a:2:{i:", "1;i:2", ";}", "b:1;"]), Ok(2));
    assert_eq!(parse_all(vec!["s:2:\"", "é\";"]), Ok(1));
    assert_eq!(parse_all(vec!["i:5;", "a:1:{"]), fail(ErrorKind::Exhausted, Rule::Array, 9));
    assert_eq!(parse_all(vec!["s:3:\"", "é\";"]), fail(ErrorKind::LengthMismatch, Rule::String, 5));
}

#[test]
fn error_messages() {
    assert_eq!(
        CerealError::StringParseFailure.message(),
        "failed to parse string after lexing"
    );
    assert_eq!(CerealError::Unknown.message(), "unknown error");
}
