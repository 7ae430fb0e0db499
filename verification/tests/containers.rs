use cereal::php::{parse_any, parse_array, parse_object, Parsed};
use cereal::util::{ErrorKind, ParseError, Rule};

fn fail<T>(kind: ErrorKind, rule: Rule, at: usize) -> Result<T, ParseError> {
    Err(ParseError { kind, rule, at })
}


fn key<'a>(chars: Vec<&'a str>, value: Parsed<'a>) -> Parsed<'a> {
    Parsed::ObjectVal(Box::new((Parsed::String(chars), value)))
}

#[test]
fn array_count_must_match() {
    assert_eq!(
        parse_array("a:2:{i:1;i:2;}"),
        Ok(("", Parsed::Array(vec![Parsed::Integer("1"), Parsed::Integer("2")])))
    );
    assert_eq!(parse_array("a:3:{i:1;i:2;}"), fail(ErrorKind::LengthMismatch, Rule::Array, 13));
    assert_eq!(parse_array("a:1:{i:1;i:2;}"), fail(ErrorKind::LengthMismatch, Rule::Array, 9));
    assert_eq!(parse_array("a:0:{i:1;}"), fail(ErrorKind::LengthMismatch, Rule::Array, 5));
    assert_eq!(parse_array("a:1:{}"), fail(ErrorKind::LengthMismatch, Rule::Array, 5));
}

#[test]
fn array_count_too_large_to_hold() {
    assert_eq!(
        parse_array("a:99999999999999999999999999:{i:1;}"),
        fail(ErrorKind::LengthMismatch, Rule::Array, 34)
    );
    assert_eq!(parse_array("a:1000:{i:1;}"), fail(ErrorKind::LengthMismatch, Rule::Array, 12));
}

#[test]
fn array_cut_short() {
    assert_eq!(parse_array("a:1:{"), fail(ErrorKind::Exhausted, Rule::Array, 5));
    assert_eq!(parse_array("a:1:{i:1;"), fail(ErrorKind::Exhausted, Rule::Array, 9));
    assert_eq!(parse_array("a:2:{i:1;"), fail(ErrorKind::Exhausted, Rule::Array, 9));
    assert_eq!(parse_array("a:0:{"), fail(ErrorKind::Exhausted, Rule::Array, 5));
    assert_eq!(parse_array("a:1:{s:1:\"a\";"), fail(ErrorKind::Exhausted, Rule::Array, 13));
}

#[test]
fn array_header_failures() {
    assert_eq!(parse_array(""), fail(ErrorKind::SyntaxMismatch, Rule::Array, 0));
    assert_eq!(parse_array("b:1:{i:1;}"), fail(ErrorKind::SyntaxMismatch, Rule::Array, 0));
    assert_eq!(parse_array("a:{i:1;}"), fail(ErrorKind::MalformedScalar, Rule::Array, 2));
    assert_eq!(parse_array("a:1{i:1;}"), fail(ErrorKind::SyntaxMismatch, Rule::Array, 3));
    assert_eq!(parse_array("a:1:i:1;}"), fail(ErrorKind::SyntaxMismatch, Rule::Array, 3));
}

#[test]
fn array_element_failure_is_handed_up() {
    assert_eq!(parse_array("a:1:{i:;}"), fail(ErrorKind::MalformedScalar, Rule::Integer, 7));
    assert_eq!(parse_array("a:1:{x}"), fail(ErrorKind::SyntaxMismatch, Rule::Any, 5));
    assert_eq!(parse_array("a:1:{s:2:\"a\";}"), fail(ErrorKind::LengthMismatch, Rule::String, 10));
    assert_eq!(
        parse_array("a:1:{a:1:{b:3;}}"),
        fail(ErrorKind::MalformedScalar, Rule::Bool, 12)
    );
}

#[test]
fn array_with_string_keys() {
    assert_eq!(
        parse_array("a:2:{s:1:\"a\";i:1;s:1:\"b\";b:0;}"),
        Ok((
            "",
            Parsed::Array(vec![
                key(vec!["a"], Parsed::Integer("1")),
                key(vec!["b"], Parsed::Bool("0")),
            ])
        ))
    );
}

#[test]
fn array_keyed_form_comes_first() {
    assert_eq!(
        parse_array("a:1:{s:1:\"a\";s:1:\"b\";}"),
        Ok((
            "",
            Parsed::Array(vec![key(vec!["a"], Parsed::String(vec!["b"]))])
        ))
    );
    assert_eq!(
        parse_array("a:2:{s:1:\"a\";s:1:\"b\";}"),
        fail(ErrorKind::LengthMismatch, Rule::Array, 21)
    );
}

#[test]
fn array_falls_back_to_a_bare_value() {
    assert_eq!(
        parse_array("a:1:{s:1:\"a\";}"),
        Ok(("", Parsed::Array(vec![Parsed::String(vec!["a"])])))
    );
    assert_eq!(
        parse_array("a:2:{i:0;s:1:\"a\";}"),
        Ok((
            "",
            Parsed::Array(vec![Parsed::Integer("0"), Parsed::String(vec!["a"])])
        ))
    );
}

#[test]
fn array_nested_in_keyed_array() {
    assert_eq!(
        parse_any("a:2:{s:7:\"Volumes\";a:0:{}s:4:\"uuid\";N;}rest"),
        Ok((
            "rest",
            Parsed::Array(vec![
                key(vec!["V", "o", "l", "u", "m", "e", "s"], Parsed::Array(vec![])),
                key(vec!["u", "u", "i", "d"], Parsed::Null("N;")),
            ])
        ))
    );
}

#[test]
fn nesting_three_deep() {
    assert_eq!(
        parse_any("a:1:{a:1:{a:1:{i:5;}}}"),
        Ok((
            "",
            Parsed::Array(vec![Parsed::Array(vec![Parsed::Array(vec![
                Parsed::Integer("5")
            ])])])
        ))
    );
}

#[test]
fn object_with_values() {
    assert_eq!(
        parse_object("O:1:\"A\":1:{s:1:\"k\";a:1:{i:1;}}x"),
        Ok((
            "x",
            Parsed::Object((
                "1",
                "A",
                vec![key(vec!["k"], Parsed::Array(vec![Parsed::Integer("1")]))]
            ))
        ))
    );
    assert_eq!(
        parse_any("O:3:\"a1B\":0:{}"),
        Ok(("", Parsed::Object(("3", "a1B", vec![]))))
    );
}

#[test]
fn object_name_length_must_match() {
    assert_eq!(
        parse_object("O:4:\"Fruit\":0:{}"),
        fail(ErrorKind::LengthMismatch, Rule::Object, 5)
    );
    assert_eq!(
        parse_object("O:6:\"Fruit\":0:{}"),
        fail(ErrorKind::LengthMismatch, Rule::Object, 5)
    );
    assert_eq!(
        parse_object("O:99999999999999999999999999:\"Fruit\":0:{}"),
        fail(ErrorKind::LengthMismatch, Rule::Object, 30)
    );
}

#[test]
fn object_count_must_match() {
    assert_eq!(
        parse_object("O:1:\"A\":2:{s:1:\"k\";N;}"),
        fail(ErrorKind::LengthMismatch, Rule::Object, 21)
    );
    assert_eq!(
        parse_object("O:1:\"A\":0:{s:1:\"k\";N;}"),
        fail(ErrorKind::LengthMismatch, Rule::Object, 11)
    );
    assert_eq!(
        parse_object("O:1:\"A\":1:{s:1:\"k\";N;s:1:\"l\";N;}"),
        fail(ErrorKind::LengthMismatch, Rule::Object, 21)
    );
}

#[test]
fn object_keys_are_strings() {
    assert_eq!(
        parse_object("O:1:\"A\":1:{i:1;N;}"),
        fail(ErrorKind::SyntaxMismatch, Rule::String, 11)
    );
    assert_eq!(
        parse_object("O:1:\"A\":1:{s:1:\"k\";}"),
        fail(ErrorKind::SyntaxMismatch, Rule::Any, 19)
    );
}

#[test]
fn object_header_failures() {
    assert_eq!(parse_object(""), fail(ErrorKind::SyntaxMismatch, Rule::Object, 0));
    assert_eq!(parse_object("o:1:\"A\":0:{}"), fail(ErrorKind::SyntaxMismatch, Rule::Object, 0));
    assert_eq!(parse_object("O:\"A\":0:{}"), fail(ErrorKind::MalformedScalar, Rule::Object, 2));
    assert_eq!(parse_object("O:1:A:0:{}"), fail(ErrorKind::SyntaxMismatch, Rule::Object, 3));
    assert_eq!(parse_object("O:0:\"\":0:{}"), fail(ErrorKind::SyntaxMismatch, Rule::Object, 5));
    assert_eq!(parse_object("O:3:\"A b\":0:{}"), fail(ErrorKind::LengthMismatch, Rule::Object, 5));
    assert_eq!(parse_object("O:1:\"A b\":0:{}"), fail(ErrorKind::SyntaxMismatch, Rule::Object, 6));
    assert_eq!(parse_object("O:1:\"A\"0:{}"), fail(ErrorKind::SyntaxMismatch, Rule::Object, 6));
    assert_eq!(parse_object("O:1:\"A\"::{}"), fail(ErrorKind::MalformedScalar, Rule::Object, 8));
    assert_eq!(parse_object("O:1:\"A\":0{}"), fail(ErrorKind::SyntaxMismatch, Rule::Object, 9));
}

#[test]
fn object_cut_short() {
    assert_eq!(parse_object("O:1:\"A\":1:{"), fail(ErrorKind::Exhausted, Rule::Object, 11));
    assert_eq!(
        parse_object("O:1:\"A\":1:{s:1:\"k\";"),
        fail(ErrorKind::Exhausted, Rule::Any, 19)
    );
    assert_eq!(
        parse_object("O:1:\"A\":1:{s:1:\"k\";N;"),
        fail(ErrorKind::Exhausted, Rule::Object, 21)
    );
}

#[test]
fn sample_record() {
    let input = r#"a:22:{s:13:"iscsiChapUser";s:0:"";s:10:"apiVersion";s:0:"";s:19:"iscsiMutualChapUser";s:0:"";s:8:"hostname";s:11:"MyTestShare";s:10:"nfsEnabled";b:0;s:11:"sftpEnabled";b:0;s:7:"Volumes";a:0:{}s:7:"os_name";s:0:"";s:7:"version";s:0:"";s:14:"iscsiBlockSize";s:0:"";s:4:"name";s:11:"MyTestShare";s:11:"iscsiTarget";s:0:"";s:8:"hostName";s:11:"MyTestShare";s:10:"afpEnabled";b:0;s:11:"apfsEnabled";b:0;s:6:"format";s:4:"ext4";s:4:"type";s:7:"snapnas";s:7:"isIscsi";i:0;s:9:"shareType";s:3:"nas";s:9:"localUsed";d:0.17975234985351562;s:4:"uuid";s:32:"2c3dbe0e9d3c48fdadd6fa932902a74a";s:11:"usedBySnaps";d:0.014881134033203125;}"#;
    let (rest, value) = parse_any(input).unwrap();
    assert_eq!(rest, "");
    match value {
        Parsed::Array(items) => {
            assert_eq!(items.len(), 22);
            assert_eq!(
                items[17],
                key(vec!["i", "s", "I", "s", "c", "s", "i"], Parsed::Integer("0"))
            );
            assert_eq!(
                items[19],
                key(
                    vec!["l", "o", "c", "a", "l", "U", "s", "e", "d"],
                    Parsed::Double(("0", "17975234985351562"))
                )
            );
        }
        other => panic!("not an array: {:?}", other),
    }
}
