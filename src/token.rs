use vstd::prelude::*;

verus! {

/// The classification of one input position.
///
/// The seven structural characters of the JSON grammar each get their own
/// tag; every other character is carried unchanged by `Character`, and an
/// exhausted input reads as `End`.
#[derive(Clone, Copy, Debug, PartialEq, Eq, Structural)]
pub enum Token {
    OpenBracket,
    CloseBracket,
    OpenSquareBracket,
    CloseSquareBracket,
    Quotion,
    Character(char),
    End,
    Colon,
    Comma,
}

/// The tag of a single character.
pub open spec fn token_of(c: char) -> Token {
    if c == '{' {
        Token::OpenBracket
    } else if c == '}' {
        Token::CloseBracket
    } else if c == '[' {
        Token::OpenSquareBracket
    } else if c == ']' {
        Token::CloseSquareBracket
    } else if c == '"' {
        Token::Quotion
    } else if c == ':' {
        Token::Colon
    } else if c == ',' {
        Token::Comma
    } else {
        Token::Character(c)
    }
}

/// The token found at position `i` of `s`; `End` past the last character.
pub open spec fn token_at(s: Seq<char>, i: int) -> Token {
    if 0 <= i < s.len() {
        token_of(s[i])
    } else {
        Token::End
    }
}

/// The character that a non-`End` token stands for.
pub open spec fn char_of_token(t: Token) -> Option<char> {
    match t {
        Token::OpenBracket => Some('{'),
        Token::CloseBracket => Some('}'),
        Token::OpenSquareBracket => Some('['),
        Token::CloseSquareBracket => Some(']'),
        Token::Quotion => Some('"'),
        Token::Character(c) => Some(c),
        Token::End => None,
        Token::Colon => Some(':'),
        Token::Comma => Some(','),
    }
}

/// A tag maps back to the character it was made from.
pub proof fn lemma_token_char(c: char)
    ensures
        char_of_token(token_of(c)) == Some(c),
{
}

fn match_token(c: char) -> (t: Token)
    ensures
        t == token_of(c),
{
    match c {
        '{' => Token::OpenBracket,
        '}' => Token::CloseBracket,
        '[' => Token::OpenSquareBracket,
        ']' => Token::CloseSquareBracket,
        '"' => Token::Quotion,
        ':' => Token::Colon,
        ',' => Token::Comma,
        _ => Token::Character(c),
    }
}

/// A cursor over the characters of an input text.
pub struct Tokenizer {
    chars: Vec<char>,
    cursor: usize,
}

impl Tokenizer {
    /// The characters being scanned.
    pub closed spec fn text(&self) -> Seq<char> {
        self.chars@
    }

    /// The index of the next character to be read.
    pub closed spec fn pos(&self) -> int {
        self.cursor as int
    }

    pub open spec fn wf(&self) -> bool {
        0 <= self.pos() <= self.text().len()
    }

    pub fn new(json: &str) -> (t: Tokenizer)
        ensures
            t.wf(),
            t.text() == json@,
            t.pos() == 0,
    {
        let mut chars: Vec<char> = Vec::new();
        for c in it: json.chars()
            invariant
                chars@ == it.seq().take(it.index() as int),
        {
            chars.push(c);
        }
        Tokenizer { chars, cursor: 0 }
    }

    /// Reads the token at the cursor and moves past it; at the end of the
    /// input it returns `End` and stays.
    pub fn next_token(&mut self) -> (t: Token)
        requires
            old(self).wf(),
        ensures
            final(self).wf(),
            final(self).text() == old(self).text(),
            t == token_at(old(self).text(), old(self).pos()),
            final(self).pos() == if old(self).pos() < old(self).text().len() {
                old(self).pos() + 1
            } else {
                old(self).pos()
            },
    {
        if self.cursor < self.chars.len() {
            let t = match_token(self.chars[self.cursor]);
            self.cursor = self.cursor + 1;
            t
        } else {
            Token::End
        }
    }

    /// Reads the token at the cursor without moving.
    pub fn peek_token(&mut self) -> (t: Token)
        requires
            old(self).wf(),
        ensures
            *final(self) == *old(self),
            t == token_at(old(self).text(), old(self).pos()),
    {
        if self.cursor < self.chars.len() {
            match_token(self.chars[self.cursor])
        } else {
            Token::End
        }
    }
}

} // verus!
