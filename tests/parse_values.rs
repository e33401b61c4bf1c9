use json_parser::json_element::JsonElement;
use json_parser::parser::{ParseError, Parser};

fn number_of(r: Result<JsonElement, ParseError>) -> f64 {
    match r {
        Ok(JsonElement::Number(n)) => n.parse::<f64>().unwrap(),
        Ok(_) => panic!("not a number"),
        Err(e) => panic!("{}", e.details),
    }
}

#[test]
fn should_parse_num() {
    assert_eq!(14.5E-10, number_of(Parser::parse("14.5E-10")));
    assert_eq!(-15.0, number_of(Parser::parse("-15")));
    assert_eq!(15e7, number_of(Parser::parse("15e7")));
    assert_eq!(15.7, number_of(Parser::parse("15.7")));
    assert_eq!(0.0, number_of(Parser::parse("0")));
    assert_eq!(-0.0, number_of(Parser::parse("-0")));
    assert_eq!(-0.156, number_of(Parser::parse("-0.156")));
    match Parser::parse("04") {
        Err(_) => assert!(true),
        _ => assert!(false),
    }
}

#[test]
fn should_parse_string() {
    match Parser::parse("\"Test\\tString\\nSecond\rLine\\n\\\\\"") {
        Ok(JsonElement::Str(s)) => assert_eq!("Test\tString\nSecond\rLine\n\\", s),
        _ => assert!(false),
    }
}

#[test]
fn should_parse_boolean() {
    match Parser::parse("true") {
        Ok(JsonElement::Boolean(b)) => assert!(b),
        _ => assert!(false),
    }
    match Parser::parse("false") {
        Ok(JsonElement::Boolean(b)) => assert!(!b),
        _ => assert!(false),
    }
}

#[test]
fn should_parse_null() {
    match Parser::parse("null") {
        Ok(JsonElement::Null) => assert!(true),
        _ => assert!(false),
    }
}

#[test]
fn should_parse_array() {
    match Parser::parse("[ ]") {
        Ok(JsonElement::Array(a)) => assert_eq!(0, a.len()),
        _ => assert!(false),
    }
    match Parser::parse("[true, {\"name\":\"test\"}, 13e-17, null ]") {
        Ok(JsonElement::Array(a)) => {
            assert_eq!(4, a.len());
            match a.get(0).unwrap() {
                JsonElement::Boolean(b) => assert!(*b),
                _ => assert!(false),
            }
            let o = a.get(1).unwrap();
            match o {
                JsonElement::Object(members) => assert_eq!(1, members.len()),
                _ => assert!(false),
            }
            match o.get("name").unwrap() {
                JsonElement::Str(s) => assert_eq!("test", s),
                _ => assert!(false),
            }
            match a.get(2).unwrap() {
                JsonElement::Number(n) => assert_eq!(13e-17, n.parse::<f64>().unwrap()),
                _ => assert!(false),
            }
            match a.get(3).unwrap() {
                JsonElement::Null => assert!(true),
                _ => assert!(false),
            }
        }
        _ => assert!(false),
    }
}

#[test]
fn should_parse_obj() {
    match Parser::parse("{ }") {
        Ok(JsonElement::Object(o)) => assert_eq!(0, o.len()),
        _ => assert!(false),
    }
    let doc = Parser::parse("{ \"test\": \"string\", \"num\": 156  }");
    match &doc {
        Ok(JsonElement::Object(o)) => assert_eq!(2, o.len()),
        _ => assert!(false),
    }
    let o = match &doc {
        Ok(e) => e,
        Err(_) => panic!("object expected"),
    };
    match o.get("test").unwrap() {
        JsonElement::Str(s) => assert_eq!("string", s),
        _ => assert!(false),
    }
    match o.get("num").unwrap() {
        JsonElement::Number(n) => assert_eq!(156.0, n.parse::<f64>().unwrap()),
        _ => assert!(false),
    }
}
