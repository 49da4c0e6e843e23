use literal_parser::parse_boolean;
use literal_parser::parse_char;
use literal_parser::parse_double;
use literal_parser::parse_list;
use literal_parser::parse_option;
use literal_parser::parse_string;
use literal_parser::parse_value;
use literal_parser::parse_ws;
use literal_parser::ErrorKind;
use literal_parser::Value;

#[test]
fn parses_doubles() {
    assert_eq!(parse_double(" 2.2"), Ok(("", 2.2f64.to_bits())));
    assert_eq!(parse_double("5."), Ok(("", 5.0f64.to_bits())));
}

#[test]
fn parses_booleans() {
    assert_eq!(parse_boolean("true"), Ok(("", true)));
    assert_eq!(parse_boolean("false"), Ok(("", false)));
    assert_eq!(parse_boolean("false false"), Ok((" false", false)));

    assert!(parse_boolean("False").is_err());
    assert!(parse_boolean("True").is_err());
    assert!(parse_boolean("1").is_err());
}

#[test]
fn parses_chars() {
    assert_eq!(parse_char("'a'"), Ok(("", 'a')));
    assert_eq!(parse_char("'ã'"), Ok(("", 'ã')));
    assert!(parse_boolean("'aa'").is_err());
    assert!(parse_boolean("''").is_err());
}

#[test]
fn parses_option() {
    assert_eq!(
        parse_option("Some(2)"),
        Ok(("", Some(Box::new(Value::Float(2.0f64.to_bits())))))
    );

    assert_eq!(
        parse_option("Some('a')"),
        Ok(("", Some(Box::new(Value::Char('a')))))
    );

    assert_eq!(
        parse_option("Some(\"hey\")"),
        Ok(("", Some(Box::new(Value::String("hey")))))
    );

    assert_eq!(parse_option("None"), Ok(("", None)));
}

#[test]
fn parses_strings() {
    assert_eq!(parse_string("\"hey\""), Ok(("", "hey")));
    assert_eq!(parse_string("\"2 * 2\""), Ok(("", "2 * 2")));

    assert_eq!(
        parse_string("  \"ignores leading whitespace\""),
        Ok(("", "ignores leading whitespace"))
    );
}

#[test]
fn parses_values() {
    assert_eq!(parse_value("'B'"), Ok(("", Value::Char('B'))));
    assert_eq!(
        parse_value("\"this is a test\""),
        Ok(("", Value::String("this is a test")))
    );
}

#[test]
fn parses_lists() {
    assert_eq!(parse_list("[]"), Ok(("", vec![])));

    assert_eq!(parse_list("['A']"), Ok(("", vec![Value::Char('A')])));

    assert_eq!(
        parse_list("['z', 5]"),
        Ok(("", vec![Value::Char('z'), Value::Float(5.0f64.to_bits())]))
    );

    assert_eq!(
        parse_list("['f', 2.2, \"a string\"]"),
        Ok((
            "",
            vec![
                Value::Char('f'),
                Value::Float(2.2f64.to_bits()),
                Value::String("a string"),
            ]
        ))
    );

    assert_eq!(parse_list("[[]]"), Ok(("", vec![Value::List(vec![])])));
}

#[test]
fn parses_float_lexeme_forms() {
    assert_eq!(parse_double(".5"), Ok(("", 0.5f64.to_bits())));
    assert_eq!(parse_double("-3.1e10"), Ok(("", (-3.1e10f64).to_bits())));
    assert_eq!(parse_double("+4e-2"), Ok(("", 0.04f64.to_bits())));
    assert_eq!(parse_double("7"), Ok(("", 7.0f64.to_bits())));
    assert_eq!(parse_double("2.2x"), Ok(("x", 2.2f64.to_bits())));
}

#[test]
fn float_value_through_dispatcher() {
    assert_eq!(parse_value("2"), Ok(("", Value::Float(2.0f64.to_bits()))));
    assert_eq!(
        parse_value("-0.25 rest"),
        Ok((" rest", Value::Float((-0.25f64).to_bits())))
    );
}

#[test]
fn whitespace_at_grammar_points_is_ignored() {
    assert_eq!(
        parse_list("[ 1 , 2 ]"),
        Ok((
            "",
            vec![
                Value::Float(1.0f64.to_bits()),
                Value::Float(2.0f64.to_bits()),
            ]
        ))
    );
    assert_eq!(
        parse_option("Some( 2 )"),
        Ok(("", Some(Box::new(Value::Float(2.0f64.to_bits())))))
    );
    assert_eq!(parse_ws("  \t\r\n x"), Ok(("x", "  \t\r\n ")));
    assert_eq!(parse_ws("x"), Ok(("x", "")));
}

#[test]
fn render_then_parse_returns_the_tree() {
    let tree = Value::List(vec![
        Value::Boolean(true),
        Value::Char('x'),
        Value::String("a string"),
        Value::Option(None),
        Value::Option(Some(Box::new(Value::Boolean(false)))),
        Value::List(vec![]),
    ]);
    let text = "[true,'x',\"a string\",None,Some(false),[]]";
    assert_eq!(parse_value(text), Ok(("", tree)));
}

#[test]
fn nested_lists() {
    assert_eq!(
        parse_list("[[],[[]]]"),
        Ok((
            "",
            vec![
                Value::List(vec![]),
                Value::List(vec![Value::List(vec![])]),
            ]
        ))
    );
}

#[test]
fn failure_kinds_and_positions() {
    match parse_value("Some(2") {
        Err(e) => {
            assert_eq!(e.kind, ErrorKind::Malformed);
            assert_eq!(e.at, "");
        }
        Ok(_) => panic!("expected a failure"),
    }
    match parse_boolean("1") {
        Err(e) => {
            assert_eq!(e.kind, ErrorKind::NoMatch);
            assert_eq!(e.at, "1");
        }
        Ok(_) => panic!("expected a failure"),
    }
    match parse_char("''") {
        Err(e) => assert_eq!(e.kind, ErrorKind::Malformed),
        Ok(_) => panic!("expected a failure"),
    }
    match parse_char("'aa'") {
        Err(e) => assert_eq!(e.kind, ErrorKind::Malformed),
        Ok(_) => panic!("expected a failure"),
    }
    match parse_string("\"unterminated") {
        Err(e) => {
            assert_eq!(e.kind, ErrorKind::Malformed);
            assert_eq!(e.at, "");
        }
        Ok(_) => panic!("expected a failure"),
    }
    match parse_value("[1, ]") {
        Err(e) => assert_eq!(e.kind, ErrorKind::Malformed),
        Ok(_) => panic!("expected a failure"),
    }
    match parse_value("[1") {
        Err(e) => assert_eq!(e.kind, ErrorKind::Malformed),
        Ok(_) => panic!("expected a failure"),
    }
    match parse_double("2.2e") {
        Err(e) => assert_eq!(e.kind, ErrorKind::Malformed),
        Ok(_) => panic!("expected a failure"),
    }
    match parse_value("") {
        Err(e) => assert_eq!(e.kind, ErrorKind::NoMatch),
        Ok(_) => panic!("expected a failure"),
    }
}

#[test]
fn committed_list_does_not_fall_through() {
    // a leading `[` commits to the list form: an inner failure is hard
    match parse_value("[oops]") {
        Err(e) => assert_eq!(e.kind, ErrorKind::Malformed),
        Ok(_) => panic!("expected a failure"),
    }
}

#[test]
fn char_payload_is_one_scalar_value() {
    assert!(parse_char("''").is_err());
    assert!(parse_char("'aa'").is_err());
    assert!(parse_char("'''").is_err());
    assert_eq!(parse_char("'ß'x"), Ok(("x", 'ß')));
}
