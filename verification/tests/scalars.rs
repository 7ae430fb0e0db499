use cereal::php::{parse_any, parse_bool, parse_double, parse_eof, parse_int, parse_null, Parsed};
use cereal::util::{ErrorKind, ParseError, Rule};

fn fail<T>(kind: ErrorKind, rule: Rule, at: usize) -> Result<T, ParseError> {
    Err(ParseError { kind, rule, at })
}


#[test]
fn integer_keeps_its_text() {
    assert_eq!(parse_int("i:007;"), Ok(("", Parsed::Integer("007"))));
    assert_eq!(
        parse_int("i:123456789012345678901234567890;"),
        Ok(("", Parsed::Integer("123456789012345678901234567890")))
    );
    assert_eq!(parse_int("i:0;i:1;"), Ok(("i:1;", Parsed::Integer("0"))));
}

#[test]
fn integer_may_carry_a_sign() {
    assert_eq!(parse_int("i:-5;"), Ok(("", Parsed::Integer("-5"))));
    assert_eq!(parse_int("i:+12;rest"), Ok(("rest", Parsed::Integer("+12"))));
    assert_eq!(parse_int("i:--5;"), fail(ErrorKind::MalformedScalar, Rule::Integer, 3));
    assert_eq!(parse_int("i:-;"), fail(ErrorKind::MalformedScalar, Rule::Integer, 3));
}

#[test]
fn integer_failures() {
    assert_eq!(parse_int(""), fail(ErrorKind::SyntaxMismatch, Rule::Integer, 0));
    assert_eq!(parse_int("I:5;"), fail(ErrorKind::SyntaxMismatch, Rule::Integer, 0));
    assert_eq!(parse_int("i5;"), fail(ErrorKind::SyntaxMismatch, Rule::Integer, 0));
    assert_eq!(parse_int("i:;"), fail(ErrorKind::MalformedScalar, Rule::Integer, 2));
    assert_eq!(parse_int("i:x;"), fail(ErrorKind::MalformedScalar, Rule::Integer, 2));
    assert_eq!(parse_int("i:5"), fail(ErrorKind::SyntaxMismatch, Rule::Integer, 3));
    assert_eq!(parse_int("i:5x;"), fail(ErrorKind::SyntaxMismatch, Rule::Integer, 3));
    assert_eq!(parse_int("i:5.5;"), fail(ErrorKind::SyntaxMismatch, Rule::Integer, 3));
}

#[test]
fn null_is_exact() {
    assert_eq!(parse_null("N;N;"), Ok(("N;", Parsed::Null("N;"))));
    assert_eq!(parse_null("N"), fail(ErrorKind::SyntaxMismatch, Rule::Null, 0));
    assert_eq!(parse_null("n;"), fail(ErrorKind::SyntaxMismatch, Rule::Null, 0));
    assert_eq!(parse_null(""), fail(ErrorKind::SyntaxMismatch, Rule::Null, 0));
}

#[test]
fn bool_tokens() {
    assert_eq!(parse_bool("b:1;"), Ok(("", Parsed::Bool("1"))));
    assert_eq!(parse_bool("b:0;b:1;"), Ok(("b:1;", Parsed::Bool("0"))));
    assert_eq!(parse_bool("b:2;"), fail(ErrorKind::MalformedScalar, Rule::Bool, 2));
    assert_eq!(parse_bool("b:;"), fail(ErrorKind::MalformedScalar, Rule::Bool, 2));
    assert_eq!(parse_bool("b:"), fail(ErrorKind::MalformedScalar, Rule::Bool, 2));
    assert_eq!(parse_bool("b:10;"), fail(ErrorKind::SyntaxMismatch, Rule::Bool, 3));
    assert_eq!(parse_bool("b:1"), fail(ErrorKind::SyntaxMismatch, Rule::Bool, 3));
    assert_eq!(parse_bool("c:1;"), fail(ErrorKind::SyntaxMismatch, Rule::Bool, 0));
}

#[test]
fn double_keeps_both_spans() {
    assert_eq!(
        parse_double("d:0.014881134033203125;"),
        Ok(("", Parsed::Double(("0", "014881134033203125"))))
    );
    assert_eq!(parse_double("d:10.00;x"), Ok(("x", Parsed::Double(("10", "00")))));
}

#[test]
fn double_failures() {
    assert_eq!(parse_double("5.5;"), fail(ErrorKind::SyntaxMismatch, Rule::Double, 0));
    assert_eq!(parse_double("d:.5;"), fail(ErrorKind::MalformedScalar, Rule::Double, 2));
    assert_eq!(parse_double("d:5.;"), fail(ErrorKind::MalformedScalar, Rule::Double, 4));
    assert_eq!(parse_double("d:5;"), fail(ErrorKind::MalformedScalar, Rule::Double, 3));
    assert_eq!(parse_double("d:5"), fail(ErrorKind::MalformedScalar, Rule::Double, 3));
    assert_eq!(parse_double("d:5.5"), fail(ErrorKind::SyntaxMismatch, Rule::Double, 5));
    assert_eq!(parse_double("d:5.5.5;"), fail(ErrorKind::SyntaxMismatch, Rule::Double, 5));
    assert_eq!(parse_double("d:-5.5;"), fail(ErrorKind::MalformedScalar, Rule::Double, 2));
}

#[test]
fn eof_only_at_the_end() {
    assert_eq!(parse_eof(""), Ok(("", Parsed::Eof)));
    assert_eq!(parse_eof("i:5;"), fail(ErrorKind::SyntaxMismatch, Rule::Eof, 0));
}

#[test]
fn empty_input_is_always_the_end_marker() {
    for _ in 0..3 {
        assert_eq!(parse_any(""), Ok(("", Parsed::Eof)));
    }
}

#[test]
fn dispatcher_scalars() {
    assert_eq!(parse_any("i:5;"), Ok(("", Parsed::Integer("5"))));
    assert_eq!(parse_any("N;"), Ok(("", Parsed::Null("N;"))));
    assert_eq!(parse_any("d:5.5;"), Ok(("", Parsed::Double(("5", "5")))));
    assert_eq!(parse_any("b:0;"), Ok(("", Parsed::Bool("0"))));
    assert_eq!(parse_any("s:0:\"\";"), Ok(("", Parsed::String(vec![]))));
    assert_eq!(parse_any("a:0:{}"), Ok(("", Parsed::Array(vec![]))));
}

#[test]
fn dispatcher_failures() {
    assert_eq!(parse_any("x"), fail(ErrorKind::SyntaxMismatch, Rule::Any, 0));
    assert_eq!(parse_any("}"), fail(ErrorKind::SyntaxMismatch, Rule::Any, 0));
    assert_eq!(parse_any(" i:5;"), fail(ErrorKind::SyntaxMismatch, Rule::Any, 0));
    assert_eq!(parse_any("i:;"), fail(ErrorKind::MalformedScalar, Rule::Integer, 2));
    assert_eq!(parse_any("b:7;"), fail(ErrorKind::MalformedScalar, Rule::Bool, 2));
    assert_eq!(parse_any("s:3:\"ab\";"), fail(ErrorKind::LengthMismatch, Rule::String, 5));
    assert_eq!(parse_any("a:1:{"), fail(ErrorKind::Exhausted, Rule::Array, 5));
    assert_eq!(parse_any("é"), fail(ErrorKind::SyntaxMismatch, Rule::Any, 0));
}

#[test]
fn dispatcher_leaves_the_rest() {
    assert_eq!(parse_any("i:5;N;"), Ok(("N;", Parsed::Integer("5"))));
    assert_eq!(parse_any("N;trailing"), Ok(("trailing", Parsed::Null("N;"))));
}
