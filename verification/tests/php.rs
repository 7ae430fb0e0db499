use cereal::php::{
    parse_any, parse_array, parse_bool, parse_double, parse_int, parse_null, parse_object,
    parse_string, Parsed,
};

#[test]
fn parse_valid_string() {
    assert_eq!(
        parse_string(r#"s:5:"value";"#),
        Ok(("", Parsed::String(vec!["v", "a", "l", "u", "e"])))
    );
}

#[test]
fn parse_invalid_length_string() {
    assert!(parse_string(r#"s:2:"123";"#).is_err())
}

#[test]
fn parse_empty_string() {
    assert_eq!(parse_string(r#"s:0:"";"#), Ok(("", Parsed::String(vec![]))));
}

#[test]
fn parse_no_input() {
    assert!(parse_any("").is_ok());
    assert_eq!(parse_any("").unwrap().1, Parsed::Eof);
}

#[test]
fn parse_valid_bool() {
    assert_eq!(parse_bool(r#"b:0;"#), Ok(("", Parsed::Bool("0"))));
}

#[test]
fn parse_valid_double() {
    assert_eq!(
        parse_double(r#"d:5.5;"#),
        Ok(("", Parsed::Double(("5", "5"))))
    )
}

#[test]
fn parse_valid_int() {
    assert_eq!(parse_int(r#"i:5;"#), Ok(("", Parsed::Integer("5"))))
}

#[test]
fn parse_valid_null() {
    assert_eq!(parse_null(r#"N;"#), Ok(("", Parsed::Null("N;"))));
}

#[test]
fn parse_simple_array() {
    let t = parse_array(r#"a:1:{i:5;}"#);
    assert_eq!(t, Ok(("", Parsed::Array(vec![Parsed::Integer("5")]))));
}

#[test]
fn parse_array_with_mutliple() {
    let t = parse_array(r#"a:2:{i:5;d:5.12312341241231231234;}"#);
    assert_eq!(
        t,
        Ok((
            "",
            Parsed::Array(vec![
                Parsed::Integer("5"),
                Parsed::Double(("5", "12312341241231231234"))
            ])
        ))
    );
}

#[test]
fn parse_nested_array() {
    let t = parse_array(r#"a:1:{a:1:{i:5;}}"#);
    assert_eq!(
        t,
        Ok((
            "",
            Parsed::Array(vec![Parsed::Array(vec![Parsed::Integer("5")])])
        ))
    );
}

#[test]
fn parse_empty_array() {
    let t = parse_array(r#"a:0:{}"#);
    assert_eq!(t, Ok(("", Parsed::Array(vec![]))))
}

#[test]
fn parse_simple_object() {
    let t = parse_object(r#"O:5:"Fruit":2:{s:4:"name";N;s:5:"color";N;}"#);
    assert_eq!(
        t,
        Ok((
            "",
            Parsed::Object((
                "5",
                "Fruit",
                vec![
                    Parsed::ObjectVal(Box::new((
                        Parsed::String(vec!["n", "a", "m", "e"]),
                        Parsed::Null("N;")
                    ))),
                    Parsed::ObjectVal(Box::new((
                        Parsed::String(vec!["c", "o", "l", "o", "r"]),
                        Parsed::Null("N;")
                    ))),
                ]
            ))
        ))
    );
}

#[test]
fn set_of_lines() {
    let lines = "i:5;\nb:1;\nd:0.17975234985351562;\nN;\ns:4:\"ext4\";\na:0:{}\na:2:{s:4:\"name\";s:11:\"MyTestShare\";s:7:\"isIscsi\";i:0;}\nO:5:\"Fruit\":1:{s:4:\"name\";N;}\n";
    let mut i: usize = 0;
    for line in lines.split("\n") {
        parse_any(line).unwrap();
        i += 1;
    }
    assert_eq!(i, 9);
}
