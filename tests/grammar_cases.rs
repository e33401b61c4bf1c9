use json_parser::json_element::JsonElement;
use json_parser::parser::{ParseError, Parser};
use json_parser::token::{Token, Tokenizer};

fn same_tree(a: &JsonElement, b: &JsonElement) -> bool {
    match (a, b) {
        (JsonElement::Object(x), JsonElement::Object(y)) => {
            x.len() == y.len()
                && x.iter().all(|(k, v)| match b.get(k) {
                    Some(w) => same_tree(v, w),
                    None => false,
                })
        }
        (JsonElement::Array(x), JsonElement::Array(y)) => {
            x.len() == y.len() && x.iter().zip(y.iter()).all(|(v, w)| same_tree(v, w))
        }
        (JsonElement::Str(x), JsonElement::Str(y)) => x == y,
        (JsonElement::Number(x), JsonElement::Number(y)) => x == y,
        (JsonElement::Boolean(x), JsonElement::Boolean(y)) => x == y,
        (JsonElement::Null, JsonElement::Null) => true,
        _ => false,
    }
}

fn text_of(r: Result<JsonElement, ParseError>) -> String {
    match r {
        Ok(JsonElement::Str(s)) => s,
        Ok(_) => panic!("not a string"),
        Err(e) => panic!("{}", e.details),
    }
}

fn number_text(r: Result<JsonElement, ParseError>) -> String {
    match r {
        Ok(JsonElement::Number(n)) => n,
        Ok(_) => panic!("not a number"),
        Err(e) => panic!("{}", e.details),
    }
}

#[test]
fn number_round_trips_through_shortest_rendering() {
    for text in ["14.5E-10", "-15", "15e7", "15.7", "0", "-0.156", "13e-17", "156", "1e308"] {
        let first: f64 = number_text(Parser::parse(text)).parse().unwrap();
        let shortest = format!("{:?}", first);
        let again: f64 = number_text(Parser::parse(&shortest)).parse().unwrap();
        assert_eq!(first.to_bits(), again.to_bits());
    }
}

#[test]
fn empty_and_blank_inputs_fail() {
    assert!(Parser::parse("").is_err());
    assert!(Parser::parse("   ").is_err());
}

#[test]
fn leading_zero_rules() {
    assert!(Parser::parse("04").is_err());
    assert!(Parser::parse("-04").is_err());
    assert_eq!(number_text(Parser::parse("0")), "0");
    assert_eq!(number_text(Parser::parse("0.5")), "0.5");
    assert_eq!(number_text(Parser::parse("-0")), "-0");
    let z: f64 = number_text(Parser::parse("-0")).parse().unwrap();
    assert!(z == 0.0 && z.is_sign_negative());
    assert_eq!(number_text(Parser::parse("0 ")), "0");
}

#[test]
fn number_grammar_edges() {
    assert_eq!(number_text(Parser::parse("1e+5")), "1e+5");
    assert_eq!(number_text(Parser::parse("2.50E-3,")), "2.50E-3");
    assert_eq!(number_text(Parser::parse("-12")), "-12");
    assert!(Parser::parse("1.").is_err());
    assert!(Parser::parse("1.e5").is_err());
    assert!(Parser::parse("1e").is_err());
    assert!(Parser::parse("1e+").is_err());
    assert!(Parser::parse("-").is_err());
    assert!(Parser::parse("-a").is_err());
}

#[test]
fn escapes_are_decoded() {
    assert_eq!(
        text_of(Parser::parse("\"Test\\tString\\nSecond\\rLine\\n\\\\\"")),
        "Test\tString\nSecond\rLine\n\\"
    );
    assert_eq!(text_of(Parser::parse("\"\\\"\\/\\b\"")), "\"/\u{8}");
    assert_eq!(text_of(Parser::parse("\"{[:,]}\"")), "{[:,]}");
}

#[test]
fn unicode_escapes() {
    assert_eq!(text_of(Parser::parse("\"\\u0041\\u00e9\"")), "A\u{e9}");
    assert_eq!(text_of(Parser::parse("\"\\u00FF\\u20aC\"")), "\u{ff}\u{20ac}");
    assert!(Parser::parse("\"\\ud800\"").is_err());
    assert!(Parser::parse("\"\\u00g1\"").is_err());
    assert!(Parser::parse("\"\\u00").is_err());
}

#[test]
fn empty_containers() {
    match Parser::parse("{ }") {
        Ok(JsonElement::Object(o)) => assert!(o.is_empty()),
        _ => panic!("object expected"),
    }
    match Parser::parse("[ ]") {
        Ok(JsonElement::Array(a)) => assert!(a.is_empty()),
        _ => panic!("array expected"),
    }
}

#[test]
fn nested_mixed_array() {
    match Parser::parse("[true, {\"name\":\"test\"}, 13e-17, null]") {
        Ok(JsonElement::Array(a)) => {
            assert_eq!(a.len(), 4);
            assert!(matches!(a[0], JsonElement::Boolean(true)));
            assert!(matches!(a[1].get("name"), Some(JsonElement::Str(s)) if s == "test"));
            assert!(matches!(&a[2], JsonElement::Number(n) if n == "13e-17"));
            assert!(matches!(a[3], JsonElement::Null));
        }
        _ => panic!("array expected"),
    }
}

#[test]
fn object_with_two_keys() {
    let doc = Parser::parse("{ \"test\": \"string\", \"num\": 156 }").ok().unwrap();
    match &doc {
        JsonElement::Object(o) => assert_eq!(o.len(), 2),
        _ => panic!("object expected"),
    }
    assert!(matches!(doc.get("test"), Some(JsonElement::Str(s)) if s == "string"));
    assert!(matches!(doc.get("num"), Some(JsonElement::Number(n)) if n == "156"));
    assert!(doc.get("missing").is_none());
}

#[test]
fn later_key_overrides_earlier() {
    let doc = Parser::parse("{\"a\": 1, \"b\": 2, \"a\": 3}").ok().unwrap();
    match &doc {
        JsonElement::Object(o) => assert_eq!(o.len(), 2),
        _ => panic!("object expected"),
    }
    assert!(matches!(doc.get("a"), Some(JsonElement::Number(n)) if n == "3"));
}

#[test]
fn malformed_inputs_fail() {
    assert!(Parser::parse("tru").is_err());
    assert!(Parser::parse("\"abc").is_err());
    assert!(Parser::parse("[1,]").is_err());
    assert!(Parser::parse("\"\\q\"").is_err());
    assert!(Parser::parse("{\"a\":1,}").is_err());
    assert!(Parser::parse("{\"a\" 1}").is_err());
    assert!(Parser::parse("{a:1}").is_err());
    assert!(Parser::parse("{\"a\":1").is_err());
    assert!(Parser::parse("[1 2]").is_err());
    assert!(Parser::parse("[1,2").is_err());
    assert!(Parser::parse("nul").is_err());
    assert!(Parser::parse("fals").is_err());
    assert!(Parser::parse(",").is_err());
    assert!(Parser::parse("]").is_err());
    assert!(Parser::parse("x").is_err());
}

#[test]
fn trailing_content_is_ignored() {
    assert!(matches!(Parser::parse("true extra"), Ok(JsonElement::Boolean(true))));
    assert!(matches!(Parser::parse(" null ]"), Ok(JsonElement::Null)));
}

#[test]
fn parsing_twice_gives_equal_trees() {
    let text = "{\"k\": [1, -2.5e3, \"s\\u0041\", {\"x\": null, \"y\": false}], \"t\": true}";
    let a = Parser::parse(text).ok().unwrap();
    let b = Parser::parse(text).ok().unwrap();
    assert!(same_tree(&a, &b));
    assert!(same_tree(&b, &a));
}

#[test]
fn tokenizer_peeks_and_advances() {
    let mut t = Tokenizer::new("{a");
    assert_eq!(t.peek_token(), Token::OpenBracket);
    assert_eq!(t.peek_token(), Token::OpenBracket);
    assert_eq!(t.next_token(), Token::OpenBracket);
    assert_eq!(t.next_token(), Token::Character('a'));
    assert_eq!(t.next_token(), Token::End);
    assert_eq!(t.peek_token(), Token::End);
    let mut u = Tokenizer::new("}[]\":, ");
    let expected = [
        Token::CloseBracket,
        Token::OpenSquareBracket,
        Token::CloseSquareBracket,
        Token::Quotion,
        Token::Colon,
        Token::Comma,
        Token::Character(' '),
        Token::End,
    ];
    for e in expected {
        assert_eq!(u.next_token(), e);
    }
}

#[test]
fn parse_error_keeps_message() {
    assert_eq!(ParseError::new("Expected a colon").details, "Expected a colon");
}
