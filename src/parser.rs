use vstd::prelude::*;
use crate::grammar::{
    char_at, digit_at, digits_len, document, elements, exp_part_len, false_word, frac_part_len,
    hex4_at, hex_val, int_part_len, is_hex, is_scalar, members, null_word, number_len, rem, shift,
    skip_ws, string_at, string_body, true_word, value, word_at, ws_len,
};
use crate::json_element::{
    insert_member, keys_distinct, lemma_array_view, lemma_array_wf, lemma_object_view,
    lemma_object_wf, members_map, pair_views, views, JsonElement, JsonValue,
};
use crate::token::{char_of_token, Token, Tokenizer};

verus! {

/// Why a text is no JSON document.
pub struct ParseError {
    pub details: String,
}

impl ParseError {
    pub fn new(msg: &str) -> (e: ParseError)
        ensures
            e.details@ == msg@,
    {
        ParseError { details: msg.to_owned() }
    }
}

/// Relies on `String::push`: appends one character.
#[verifier::external_body]
fn push_char(s: &mut String, c: char)
    ensures
        final(s)@ == old(s)@.push(c),
{
    s.push(c)
}

/// Relies on `char::from_u32`: the character with that code point, or
/// `None` where the value is no Unicode scalar value.
#[verifier::external_body]
fn char_from_u32(v: u32) -> (r: Option<char>)
    ensures
        r is Some <==> is_scalar(v as nat),
        r matches Some(c) ==> c as u32 == v,
{
    char::from_u32(v)
}

fn is_hex_digit(c: char) -> (b: bool)
    ensures
        b == is_hex(c),
{
    (c >= '0' && c <= '9') || (c >= 'a' && c <= 'f') || (c >= 'A' && c <= 'F')
}

fn hex_char_to_u32(c: char) -> (v: u32)
    requires
        is_hex(c),
    ensures
        v as nat == hex_val(c),
        v < 16,
{
    if c >= '0' && c <= '9' {
        (c as u32) - ('0' as u32)
    } else if c >= 'a' && c <= 'f' {
        (c as u32) - ('a' as u32) + 10
    } else {
        (c as u32) - ('A' as u32) + 10
    }
}

pub struct Parser {
    tokenizer: Tokenizer,
}

impl Parser {
    pub closed spec fn text(&self) -> Seq<char> {
        self.tokenizer.text()
    }

    pub closed spec fn pos(&self) -> int {
        self.tokenizer.pos()
    }

    pub closed spec fn wf(&self) -> bool {
        self.tokenizer.wf()
    }

    proof fn lemma_pos_bound(&self)
        requires
            self.wf(),
        ensures
            0 <= self.pos() <= self.text().len(),
    {
        assert(self.tokenizer.wf());
    }

    fn consume_whitespace(&mut self)
        requires
            old(self).wf(),
        ensures
            final(self).wf(),
            final(self).text() == old(self).text(),
            final(self).pos() == skip_ws(old(self).text(), old(self).pos()),
    {
        proof { self.lemma_pos_bound(); }
        loop
            invariant
                self.wf(),
                self.text() == old(self).text(),
                0 <= self.pos() <= self.text().len(),
                skip_ws(self.text(), self.pos()) == skip_ws(old(self).text(), old(self).pos()),
            ensures
                ws_len(self.text(), self.pos()) == 0,
            decreases self.text().len() - self.pos(),
        {
            let token = self.tokenizer.peek_token();
            match token {
                Token::Character(c) => {
                    if c == ' ' || c == '\n' || c == '\r' || c == '\t' {
                        self.tokenizer.next_token();
                    } else {
                        assert(self.text()[self.pos()] == c);
                        break;
                    }
                },
                _ => break,
            }
        }
    }

    fn token_to_char(token: Token) -> (r: Result<char, ParseError>)
        ensures
            r matches Ok(c) ==> char_of_token(token) == Some(c),
            r is Err ==> char_of_token(token) is None,
    {
        match token {
            Token::Character(c) => Ok(c),
            Token::CloseBracket => Ok('}'),
            Token::OpenBracket => Ok('{'),
            Token::CloseSquareBracket => Ok(']'),
            Token::OpenSquareBracket => Ok('['),
            Token::Colon => Ok(':'),
            Token::Comma => Ok(','),
            Token::Quotion => Ok('"'),
            Token::End => Err(ParseError::new("Json ended without closing string")),
        }
    }

    /// Reads the next character; fails at the end of the input.
    fn next_char(&mut self) -> (r: Result<char, ParseError>)
        requires
            old(self).wf(),
        ensures
            final(self).wf(),
            final(self).text() == old(self).text(),
            match char_at(old(self).text(), old(self).pos()) {
                Some(c) => r == Ok::<char, ParseError>(c) && final(self).pos() == old(self).pos() + 1,
                None => r is Err,
            },
    {
        proof { self.lemma_pos_bound(); }
        let token = self.tokenizer.next_token();
        proof {
            if 0 <= old(self).pos() < old(self).text().len() {
                crate::token::lemma_token_char(old(self).text()[old(self).pos()]);
            }
        }
        Parser::token_to_char(token)
    }

    fn parse_hex_digit(&mut self) -> (r: Result<u32, ParseError>)
        requires
            old(self).wf(),
        ensures
            final(self).wf(),
            final(self).text() == old(self).text(),
            match char_at(old(self).text(), old(self).pos()) {
                Some(c) => if is_hex(c) {
                    r matches Ok(v) && v as nat == hex_val(c) && v < 16 && final(self).pos()
                        == old(self).pos() + 1
                } else {
                    r is Err
                },
                None => r is Err,
            },
    {
        let c = self.next_char()?;
        if !is_hex_digit(c) {
            return Err(ParseError::new("Expected a hex digit after a \\u"));
        }
        Ok(hex_char_to_u32(c))
    }

    fn parse_string(&mut self) -> (r: Result<String, ParseError>)
        requires
            old(self).wf(),
        ensures
            final(self).wf(),
            final(self).text() == old(self).text(),
            match string_at(old(self).text(), old(self).pos()) {
                Some((t, n)) => r matches Ok(v) && v@ == t && final(self).pos() == old(self).pos() + n,
                None => r is Err,
            },
    {
        let ghost s = self.text();
        let ghost start = self.pos();
        proof { self.lemma_pos_bound(); }
        let first = self.tokenizer.next_token();
        if first != Token::Quotion {
            return Err(ParseError::new("Expected a '\"'"));
        }
        let mut string = String::new();
        loop
            invariant
                self.wf(),
                self.text() == s,
                s == old(self).text(),
                start == old(self).pos(),
                start < self.pos() <= s.len(),
                string_at(s, start) == shift(string_body(s, self.pos(), string@), (self.pos() - start) as nat),
            decreases s.len() - self.pos(),
        {
            let ghost i = self.pos();
            let c = self.next_char()?;
            if c == '"' {
                return Ok(string);
            } else if c == '\\' {
                let e = self.next_char()?;
                if e == 'u' {
                    let d0 = self.parse_hex_digit()?;
                    let d1 = self.parse_hex_digit()?;
                    let d2 = self.parse_hex_digit()?;
                    let d3 = self.parse_hex_digit()?;
                    let hex: u32 = d0 * 4096 + d1 * 256 + d2 * 16 + d3;
                    assert(hex4_at(s, i + 2) == Some(hex as nat));
                    match char_from_u32(hex) {
                        Some(uc) => {
                            proof {
                                vstd::utf8::char_u32_cast(uc, hex);
                            }
                            push_char(&mut string, uc);
                        },
                        None => {
                            return Err(ParseError::new("Invalid unicode character"));
                        },
                    }
                } else {
                    let d: char = if e == '"' {
                        '"'
                    } else if e == '\\' {
                        '\\'
                    } else if e == '/' {
                        '/'
                    } else if e == 'b' {
                        '\x08'
                    } else if e == 'n' {
                        '\n'
                    } else if e == 'r' {
                        '\r'
                    } else if e == 't' {
                        '\t'
                    } else {
                        return Err(ParseError::new("Unknown escaped character"));
                    };
                    push_char(&mut string, d);
                }
            } else {
                push_char(&mut string, c);
            }
        }
    }

    /// The character at the cursor, without moving.
    fn peek_char(&mut self) -> (r: Option<char>)
        requires
            old(self).wf(),
        ensures
            *final(self) == *old(self),
            r == char_at(old(self).text(), old(self).pos()),
    {
        proof { self.lemma_pos_bound(); }
        let token = self.tokenizer.peek_token();
        proof {
            if 0 <= old(self).pos() < old(self).text().len() {
                crate::token::lemma_token_char(old(self).text()[old(self).pos()]);
            }
        }
        match Parser::token_to_char(token) {
            Ok(c) => Some(c),
            Err(_) => None,
        }
    }

    fn peek_digit(&mut self) -> (b: bool)
        requires
            old(self).wf(),
        ensures
            *final(self) == *old(self),
            b == digit_at(old(self).text(), old(self).pos()),
    {
        match self.peek_char() {
            Some(c) => c >= '0' && c <= '9',
            None => false,
        }
    }

    /// Moves the character at the cursor to the end of `out`.
    fn take_char(&mut self, out: &mut String, Ghost(start): Ghost<int>)
        requires
            old(self).wf(),
            0 <= start <= old(self).pos() < old(self).text().len(),
            old(out)@ == old(self).text().subrange(start, old(self).pos()),
        ensures
            final(self).wf(),
            final(self).text() == old(self).text(),
            final(self).pos() == old(self).pos() + 1,
            final(out)@ == final(self).text().subrange(start, final(self).pos()),
    {
        let c = self.next_char();
        match c {
            Ok(c) => push_char(out, c),
            Err(_) => {},
        }
        assert(out@ =~= self.text().subrange(start, self.pos()));
    }

    /// Moves the run of digits at the cursor to the end of `out`.
    fn take_digits(&mut self, out: &mut String, Ghost(start): Ghost<int>)
        requires
            old(self).wf(),
            0 <= start <= old(self).pos(),
            old(out)@ == old(self).text().subrange(start, old(self).pos()),
        ensures
            final(self).wf(),
            final(self).text() == old(self).text(),
            final(self).pos() == old(self).pos() + digits_len(old(self).text(), old(self).pos()),
            final(out)@ == final(self).text().subrange(start, final(self).pos()),
    {
        proof { self.lemma_pos_bound(); }
        loop
            invariant
                self.wf(),
                self.text() == old(self).text(),
                old(self).pos() <= self.pos() <= self.text().len(),
                0 <= start <= old(self).pos(),
                out@ == self.text().subrange(start, self.pos()),
                self.pos() + digits_len(self.text(), self.pos()) == old(self).pos() + digits_len(
                    old(self).text(),
                    old(self).pos(),
                ),
            ensures
                digits_len(self.text(), self.pos()) == 0,
            decreases self.text().len() - self.pos(),
        {
            if !self.peek_digit() {
                break;
            }
            self.take_char(out, Ghost(start));
        }
    }

    fn parse_number(&mut self) -> (r: Result<String, ParseError>)
        requires
            old(self).wf(),
        ensures
            final(self).wf(),
            final(self).text() == old(self).text(),
            match number_len(old(self).text(), old(self).pos()) {
                Some(n) => r matches Ok(t) && t@ == old(self).text().subrange(
                    old(self).pos(),
                    old(self).pos() + n,
                ) && final(self).pos() == old(self).pos() + n,
                None => r is Err,
            },
    {
        let ghost s = self.text();
        let ghost i = self.pos();
        proof { self.lemma_pos_bound(); }
        let mut out = String::new();
        assert(out@ =~= s.subrange(i, i));
        if self.peek_char() == Some('-') {
            self.take_char(&mut out, Ghost(i));
        }
        let ghost p = self.pos();
        // integer part
        if self.peek_char() == Some('0') {
            self.take_char(&mut out, Ghost(i));
            if self.peek_digit() {
                return Err(ParseError::new("Expected a '.' or 'e' or 'E'"));
            }
        } else if self.peek_digit() {
            self.take_digits(&mut out, Ghost(i));
        } else {
            return Err(ParseError::new("Expected a digit"));
        }
        assert(int_part_len(s, p) == Some((self.pos() - p) as nat));
        let ghost f = self.pos();
        // fraction
        if self.peek_char() == Some('.') {
            self.take_char(&mut out, Ghost(i));
            if !self.peek_digit() {
                return Err(ParseError::new("Expected a digit"));
            }
            self.take_digits(&mut out, Ghost(i));
        }
        assert(frac_part_len(s, f) == Some((self.pos() - f) as nat));
        let ghost e = self.pos();
        // exponent
        let c = self.peek_char();
        if c == Some('e') || c == Some('E') {
            self.take_char(&mut out, Ghost(i));
            let sg = self.peek_char();
            if sg == Some('+') || sg == Some('-') {
                self.take_char(&mut out, Ghost(i));
            }
            if !self.peek_digit() {
                return Err(ParseError::new("Expected a digit"));
            }
            self.take_digits(&mut out, Ghost(i));
        }
        assert(exp_part_len(s, e) == Some((self.pos() - e) as nat));
        Ok(out)
    }

    /// Reads the next character and requires it to be `c`.
    fn expect_char(&mut self, c: char) -> (r: Result<(), ParseError>)
        requires
            old(self).wf(),
        ensures
            final(self).wf(),
            final(self).text() == old(self).text(),
            if char_at(old(self).text(), old(self).pos()) == Some(c) {
                r is Ok && final(self).pos() == old(self).pos() + 1
            } else {
                r is Err
            },
    {
        let d = self.next_char()?;
        if d != c {
            return Err(ParseError::new("Expected another character"));
        }
        Ok(())
    }

    fn parse_boolean(&mut self) -> (r: Result<bool, ParseError>)
        requires
            old(self).wf(),
        ensures
            final(self).wf(),
            final(self).text() == old(self).text(),
            ({
                let (s, i) = (old(self).text(), old(self).pos());
                if word_at(s, i, true_word()) {
                    r == Ok::<bool, ParseError>(true) && final(self).pos() == i + 4
                } else if word_at(s, i, false_word()) {
                    r == Ok::<bool, ParseError>(false) && final(self).pos() == i + 5
                } else {
                    r is Err
                }
            }),
    {
        let ghost s = self.text();
        let ghost i = self.pos();
        proof { self.lemma_pos_bound(); }
        let c = self.next_char()?;
        if c == 't' {
            self.expect_char('r')?;
            self.expect_char('u')?;
            self.expect_char('e')?;
            assert(word_at(s, i, true_word()));
            return Ok(true);
        }
        if c == 'f' {
            self.expect_char('a')?;
            self.expect_char('l')?;
            self.expect_char('s')?;
            self.expect_char('e')?;
            assert(word_at(s, i, false_word()));
            return Ok(false);
        }
        Err(ParseError::new("Expected a 'f' or 't'"))
    }

    fn parse_null(&mut self) -> (r: Result<(), ParseError>)
        requires
            old(self).wf(),
        ensures
            final(self).wf(),
            final(self).text() == old(self).text(),
            if word_at(old(self).text(), old(self).pos(), null_word()) {
                r is Ok && final(self).pos() == old(self).pos() + 4
            } else {
                r is Err
            },
    {
        let ghost s = self.text();
        let ghost i = self.pos();
        proof { self.lemma_pos_bound(); }
        self.expect_char('n')?;
        self.expect_char('u')?;
        self.expect_char('l')?;
        self.expect_char('l')?;
        assert(word_at(s, i, null_word()));
        Ok(())
    }

    fn parse_object(&mut self) -> (r: Result<Vec<(String, JsonElement)>, ParseError>)
        requires
            old(self).wf(),
            char_at(old(self).text(), old(self).pos()) == Some('{'),
        ensures
            final(self).wf(),
            final(self).text() == old(self).text(),
            match value(old(self).text(), old(self).pos()) {
                Some((v, n)) => r matches Ok(m) && v == JsonValue::Object(members_map(m@))
                    && keys_distinct(pair_views(m@)) && (forall|j: int|
                    0 <= j < m.len() ==> #[trigger] m[j].1.wf()) && final(self).pos() == old(self).pos() + n,
                None => r is Err,
            },
        decreases rem(old(self).text(), old(self).pos()), 0nat,
    {
        let ghost s = self.text();
        let ghost i = self.pos();
        self.tokenizer.next_token();
        self.consume_whitespace();
        let ghost k = self.pos();
        let mut map: Vec<(String, JsonElement)> = Vec::new();
        if self.tokenizer.peek_token() == Token::CloseBracket {
            self.tokenizer.next_token();
            assert(members_map(map@) =~= Map::empty());
            return Ok(map);
        }
        assert(members_map(map@) =~= Map::empty());
        loop
            invariant
                self.wf(),
                self.text() == s,
                s == old(self).text(),
                i == old(self).pos(),
                0 <= i < k <= self.pos() <= s.len(),
                k == skip_ws(s, i + 1),
                char_at(s, i) == Some('{'),
                char_at(s, k) != Some('}'),
                keys_distinct(pair_views(map@)),
                forall|j: int| 0 <= j < map.len() ==> #[trigger] map[j].1.wf(),
                members(s, k, Map::empty()) == shift(
                    members(s, self.pos(), members_map(map@)),
                    (self.pos() - k) as nat,
                ),
            decreases s.len() - self.pos(),
        {
            self.consume_whitespace();
            let name = self.parse_string()?;
            self.consume_whitespace();
            if self.tokenizer.next_token() != Token::Colon {
                return Err(ParseError::new("Expected a colon"));
            }
            self.consume_whitespace();
            let element = self.parse_value()?;
            insert_member(&mut map, name, element);
            self.consume_whitespace();
            let c = self.tokenizer.peek_token();
            if c == Token::Comma {
                self.tokenizer.next_token();
            } else if c == Token::CloseBracket {
                self.tokenizer.next_token();
                return Ok(map);
            } else {
                return Err(ParseError::new("Expecting a '}'"));
            }
        }
    }

    fn parse_array(&mut self) -> (r: Result<Vec<JsonElement>, ParseError>)
        requires
            old(self).wf(),
            char_at(old(self).text(), old(self).pos()) == Some('['),
        ensures
            final(self).wf(),
            final(self).text() == old(self).text(),
            match value(old(self).text(), old(self).pos()) {
                Some((v, n)) => r matches Ok(a) && v == JsonValue::Array(views(a@)) && (forall|j: int|
                    0 <= j < a.len() ==> #[trigger] a[j].wf()) && final(self).pos() == old(self).pos() + n,
                None => r is Err,
            },
        decreases rem(old(self).text(), old(self).pos()), 0nat,
    {
        let ghost s = self.text();
        let ghost i = self.pos();
        self.tokenizer.next_token();
        self.consume_whitespace();
        let ghost k = self.pos();
        let mut array: Vec<JsonElement> = Vec::new();
        if self.tokenizer.peek_token() == Token::CloseSquareBracket {
            self.tokenizer.next_token();
            assert(views(array@) =~= seq![]);
            return Ok(array);
        }
        assert(views(array@) =~= seq![]);
        loop
            invariant
                self.wf(),
                self.text() == s,
                s == old(self).text(),
                i == old(self).pos(),
                0 <= i < k <= self.pos() <= s.len(),
                k == skip_ws(s, i + 1),
                char_at(s, i) == Some('['),
                char_at(s, k) != Some(']'),
                forall|j: int| 0 <= j < array.len() ==> #[trigger] array[j].wf(),
                elements(s, k, seq![]) == shift(
                    elements(s, self.pos(), views(array@)),
                    (self.pos() - k) as nat,
                ),
            decreases s.len() - self.pos(),
        {
            self.consume_whitespace();
            let element = self.parse_value()?;
            let ghost av = views(array@);
            let ghost ev = element.view();
            array.push(element);
            assert(views(array@) =~= av.push(ev));
            self.consume_whitespace();
            let c = self.tokenizer.peek_token();
            if c == Token::Comma {
                self.tokenizer.next_token();
            } else if c == Token::CloseSquareBracket {
                self.tokenizer.next_token();
                return Ok(array);
            } else {
                return Err(ParseError::new("Expecting a ']'"));
            }
        }
    }

    fn parse_value(&mut self) -> (r: Result<JsonElement, ParseError>)
        requires
            old(self).wf(),
        ensures
            final(self).wf(),
            final(self).text() == old(self).text(),
            match value(old(self).text(), old(self).pos()) {
                Some((v, n)) => r matches Ok(e) && e.view() == v && e.wf() && final(self).pos()
                    == old(self).pos() + n,
                None => r is Err,
            },
        decreases rem(old(self).text(), old(self).pos()), 1nat,
    {
        proof { self.lemma_pos_bound(); }
        let token = self.tokenizer.peek_token();
        match token {
            Token::OpenBracket => {
                let obj = self.parse_object()?;
                proof {
                    lemma_object_view(obj);
                    lemma_object_wf(obj);
                }
                Ok(JsonElement::Object(obj))
            },
            Token::OpenSquareBracket => {
                let array = self.parse_array()?;
                proof {
                    lemma_array_view(array);
                    lemma_array_wf(array);
                }
                Ok(JsonElement::Array(array))
            },
            Token::Quotion => {
                let string = self.parse_string()?;
                Ok(JsonElement::Str(string))
            },
            Token::Character(c) => {
                if (c >= '0' && c <= '9') || c == '-' {
                    let num = self.parse_number()?;
                    Ok(JsonElement::Number(num))
                } else if c == 't' || c == 'f' {
                    let boolean = self.parse_boolean()?;
                    Ok(JsonElement::Boolean(boolean))
                } else if c == 'n' {
                    self.parse_null()?;
                    Ok(JsonElement::Null)
                } else {
                    Err(ParseError::new("Expected true, false or null"))
                }
            },
            _ => Err(ParseError::new("Invalid json value")),
        }
    }

    /// Parses the JSON document that `json` holds: one value, with optional
    /// whitespace around it. Whatever follows the value and its trailing
    /// whitespace is not read, so `true extra` parses as `true`.
    pub fn parse(json: &str) -> (r: Result<JsonElement, ParseError>)
        ensures
            match document(json@) {
                Some(v) => r matches Ok(e) && e.view() == v && e.wf(),
                None => r is Err,
            },
    {
        let mut parser = Parser { tokenizer: Tokenizer::new(json) };
        parser.consume_whitespace();
        let element = parser.parse_value();
        parser.consume_whitespace();
        element
    }
}

/// Parsing is a function of the text alone: two trees that parsing one text
/// may return are structurally equal.
pub proof fn lemma_parse_idempotent(json: Seq<char>, a: JsonElement, b: JsonElement)
    requires
        document(json) == Some(a.view()),
        document(json) == Some(b.view()),
    ensures
        a.view() == b.view(),
{
}

} // verus!
