use vstd::prelude::*;

use crate::text::{char_from_u32, chars_of, string_of};
use crate::value::{is_digit, is_number_literal, is_number_text, Number};

verus! {

/// The model of a token.
pub enum SpecToken {
    Str(Seq<char>),
    Num(Seq<char>),
    Bool(bool),
    Null,
    Space,
    LBrace,
    RBrace,
    LBracket,
    RBracket,
    Comma,
    Colon,
}

/// A lexical unit of JSON text.
#[derive(Debug, PartialEq)]
pub enum Token {
    String(String),
    Number(Number),
    Bool(bool),
    Null,
    WhiteSpace,
    LeftBrace,
    RightBrace,
    LeftBracket,
    RightBracket,
    Comma,
    Colon,
}

impl View for Token {
    type V = SpecToken;

    open spec fn view(&self) -> SpecToken {
        match self {
            Token::String(s) => SpecToken::Str(s@),
            Token::Number(n) => SpecToken::Num(n@),
            Token::Bool(b) => SpecToken::Bool(*b),
            Token::Null => SpecToken::Null,
            Token::WhiteSpace => SpecToken::Space,
            Token::LeftBrace => SpecToken::LBrace,
            Token::RightBrace => SpecToken::RBrace,
            Token::LeftBracket => SpecToken::LBracket,
            Token::RightBracket => SpecToken::RBracket,
            Token::Comma => SpecToken::Comma,
            Token::Colon => SpecToken::Colon,
        }
    }
}

pub open spec fn tokens_view(ts: Seq<Token>) -> Seq<SpecToken> {
    ts.map_values(|t: Token| t@)
}

pub open spec fn is_space(c: char) -> bool {
    c == ' ' || c == '\t' || c == '\n' || c == '\r'
}

pub open spec fn starts_number(c: char) -> bool {
    is_digit(c) || c == '+' || c == '-' || c == '.'
}

pub open spec fn is_number_char(c: char) -> bool {
    starts_number(c) || c == 'e' || c == 'E'
}

/// The escapes kept as written: a backslash and the character after it.
pub open spec fn is_plain_escape(c: char) -> bool {
    c == '"' || c == '\\' || c == '/' || c == 'b' || c == 'f' || c == 'n' || c == 'r' || c == 't'
}

pub open spec fn is_hex(c: char) -> bool {
    ('0' <= c && c <= '9') || ('a' <= c && c <= 'f') || ('A' <= c && c <= 'F')
}

pub open spec fn hex_val(c: char) -> int {
    if '0' <= c && c <= '9' {
        c as u32 - '0' as u32
    } else if 'a' <= c && c <= 'f' {
        c as u32 - 'a' as u32 + 10
    } else {
        c as u32 - 'A' as u32 + 10
    }
}

/// The code unit written by the four hexadecimal digits at `i`.
pub open spec fn hex4(cs: Seq<char>, i: int) -> u16 {
    (hex_val(cs[i]) * 4096 + hex_val(cs[i + 1]) * 256 + hex_val(cs[i + 2]) * 16 + hex_val(
        cs[i + 3],
    )) as u16
}

pub open spec fn is_high_surrogate(u: u16) -> bool {
    0xD800 <= u <= 0xDBFF
}

pub open spec fn is_low_surrogate(u: u16) -> bool {
    0xDC00 <= u <= 0xDFFF
}

/// The code point of a surrogate pair.
pub open spec fn pair_code(h: u16, l: u16) -> u32 {
    (0x10000 + (h - 0xD800) * 0x400 + (l - 0xDC00)) as u32
}

/// UTF-16 decoding; `None` where a surrogate is unpaired.
pub open spec fn decode_utf16(us: Seq<u16>) -> Option<Seq<char>>
    decreases us.len(),
{
    if us.len() == 0 {
        Some(Seq::empty())
    } else if is_high_surrogate(us[0]) {
        if us.len() >= 2 && is_low_surrogate(us[1]) {
            match decode_utf16(us.skip(2)) {
                Some(rest) => Some(seq![pair_code(us[0], us[1]) as char] + rest),
                None => None,
            }
        } else {
            None
        }
    } else if is_low_surrogate(us[0]) {
        None
    } else {
        match decode_utf16(us.skip(1)) {
            Some(rest) => Some(seq![(us[0] as u32) as char] + rest),
            None => None,
        }
    }
}

/// The body of a string from position `i`, with the code units `buf` not
/// yet decoded and the text `acc` so far: the whole text and the position
/// after the closing quote.
pub open spec fn lex_string(cs: Seq<char>, i: int, buf: Seq<u16>, acc: Seq<char>) -> Option<
    (Seq<char>, int),
>
    decreases cs.len() - i,
{
    if i < 0 || i >= cs.len() {
        None
    } else if cs[i] == '\\' {
        if i + 1 >= cs.len() {
            None
        } else if is_plain_escape(cs[i + 1]) {
            match decode_utf16(buf) {
                Some(d) => lex_string(cs, i + 2, Seq::empty(), acc + d + seq!['\\', cs[i + 1]]),
                None => None,
            }
        } else if cs[i + 1] == 'u' && i + 6 <= cs.len() && is_hex(cs[i + 2]) && is_hex(cs[i + 3])
            && is_hex(cs[i + 4]) && is_hex(cs[i + 5]) {
            lex_string(cs, i + 6, buf.push(hex4(cs, i + 2)), acc)
        } else {
            None
        }
    } else {
        match decode_utf16(buf) {
            Some(d) => if cs[i] == '"' {
                Some((acc + d, i + 1))
            } else {
                lex_string(cs, i + 1, Seq::empty(), acc + d + seq![cs[i]])
            },
            None => None,
        }
    }
}

/// The end of the run of number characters that starts at `i`.
pub open spec fn number_end(cs: Seq<char>, i: int) -> int
    decreases cs.len() - i,
{
    if 0 <= i < cs.len() && is_number_char(cs[i]) {
        number_end(cs, i + 1)
    } else {
        i
    }
}

/// What one step of the lexer does at position `i`.
pub enum Step {
    End,
    Fail,
    Emit(SpecToken, int),
}

pub open spec fn lex_word(cs: Seq<char>, i: int, w: Seq<char>, t: SpecToken) -> Step {
    if i + w.len() <= cs.len() && cs.subrange(i, i + w.len()) == w {
        Step::Emit(t, i + w.len())
    } else {
        Step::Fail
    }
}

pub open spec fn lex_step(cs: Seq<char>, i: int) -> Step {
    if i < 0 || i >= cs.len() {
        Step::End
    } else {
        let c = cs[i];
        if is_space(c) {
            Step::Emit(SpecToken::Space, i + 1)
        } else if c == '{' {
            Step::Emit(SpecToken::LBrace, i + 1)
        } else if c == '}' {
            Step::Emit(SpecToken::RBrace, i + 1)
        } else if c == '[' {
            Step::Emit(SpecToken::LBracket, i + 1)
        } else if c == ']' {
            Step::Emit(SpecToken::RBracket, i + 1)
        } else if c == ',' {
            Step::Emit(SpecToken::Comma, i + 1)
        } else if c == ':' {
            Step::Emit(SpecToken::Colon, i + 1)
        } else if c == '"' {
            match lex_string(cs, i + 1, Seq::empty(), Seq::empty()) {
                Some((s, j)) => Step::Emit(SpecToken::Str(s), j),
                None => Step::Fail,
            }
        } else if starts_number(c) {
            let j = number_end(cs, i);
            if is_number_text(cs.subrange(i, j)) {
                Step::Emit(SpecToken::Num(cs.subrange(i, j)), j)
            } else {
                Step::Fail
            }
        } else if c == 't' {
            lex_word(cs, i, seq!['t', 'r', 'u', 'e'], SpecToken::Bool(true))
        } else if c == 'f' {
            lex_word(cs, i, seq!['f', 'a', 'l', 's', 'e'], SpecToken::Bool(false))
        } else if c == 'n' {
            lex_word(cs, i, seq!['n', 'u', 'l', 'l'], SpecToken::Null)
        } else {
            Step::Fail
        }
    }
}

/// The tokens of `cs` from position `i`, white space left out; `None` where
/// the text is not made of tokens.
pub open spec fn lex_from(cs: Seq<char>, i: int) -> Option<Seq<SpecToken>>
    decreases cs.len() - i,
{
    match lex_step(cs, i) {
        Step::End => Some(Seq::empty()),
        Step::Fail => None,
        Step::Emit(t, j) => if i < j <= cs.len() {
            match lex_from(cs, j) {
                Some(rest) => Some(
                    if t is Space {
                        rest
                    } else {
                        seq![t] + rest
                    },
                ),
                None => None,
            }
        } else {
            None
        },
    }
}

/// The tokens of a whole text.
pub open spec fn lex(cs: Seq<char>) -> Option<Seq<SpecToken>> {
    lex_from(cs, 0)
}

/// Reads JSON text into tokens.
pub struct Lexer {
    chars: Vec<char>,
    pos: usize,
}

/// A failure to read the text into tokens.
#[derive(Debug)]
pub struct LexerError {
    pub msg: String,
}

impl LexerError {
    pub fn new(msg: &str) -> (r: LexerError)
        ensures
            r.msg@ == msg@,
    {
        LexerError { msg: msg.to_owned() }
    }

    /// An error whose message ends with the offending character.
    fn with_char(msg: &str, c: char) -> LexerError {
        let mut cs = chars_of(msg);
        cs.push(c);
        LexerError { msg: string_of(cs.as_slice()) }
    }
}

fn hex_digit(c: char) -> (r: u16)
    requires
        is_hex(c),
    ensures
        r == hex_val(c),
{
    if '0' <= c && c <= '9' {
        (c as u32 - '0' as u32) as u16
    } else if 'a' <= c && c <= 'f' {
        (c as u32 - 'a' as u32 + 10) as u16
    } else {
        (c as u32 - 'A' as u32 + 10) as u16
    }
}

fn is_hex_char(c: char) -> (r: bool)
    ensures
        r == is_hex(c),
{
    ('0' <= c && c <= '9') || ('a' <= c && c <= 'f') || ('A' <= c && c <= 'F')
}

impl Lexer {
    /// The text being read.
    pub closed spec fn input(&self) -> Seq<char> {
        self.chars@
    }

    /// The position of the next character to read.
    pub closed spec fn position(&self) -> int {
        self.pos as int
    }

    pub closed spec fn wf(&self) -> bool {
        self.pos <= self.chars@.len()
    }

    pub fn new(input: &str) -> (r: Lexer)
        ensures
            r.input() == input@,
            r.position() == 0,
            r.wf(),
    {
        Lexer { chars: chars_of(input), pos: 0 }
    }

    /// Reads the rest of the text into tokens, white space left out.
    pub fn tokenize(&mut self) -> (r: Result<Vec<Token>, LexerError>)
        requires
            old(self).wf(),
        ensures
            final(self).input() == old(self).input(),
            final(self).wf(),
            match lex_from(old(self).input(), old(self).position()) {
                Some(ts) => r matches Ok(v) && tokens_view(v@) == ts,
                None => r is Err,
            },
    {
        let mut tokens: Vec<Token> = Vec::new();
        let ghost start = self.pos as int;
        loop
            invariant
                self.wf(),
                self.chars@ == old(self).chars@,
                start == old(self).pos as int,
                lex_from(self.chars@, start) == match lex_from(self.chars@, self.pos as int) {
                    Some(rest) => Some(tokens_view(tokens@) + rest),
                    None => None,
                },
            decreases self.chars@.len() - self.pos,
        {
            let ghost i = self.pos as int;
            let next = self.next_token();
            match next {
                Err(e) => {
                    return Err(e);
                },
                Ok(None) => {
                    assert(tokens_view(tokens@) + Seq::<SpecToken>::empty() =~= tokens_view(
                        tokens@,
                    ));
                    return Ok(tokens);
                },
                Ok(Some(token)) => {
                    assert(lex_from(self.chars@, i) == match lex_from(self.chars@, self.pos as int) {
                        Some(rest) => Some(
                            if token@ is Space {
                                rest
                            } else {
                                seq![token@] + rest
                            },
                        ),
                        None => None,
                    });
                    match token {
                        Token::WhiteSpace => {},
                        _ => {
                            let ghost before = tokens@;
                            tokens.push(token);
                            proof {
                                assert(tokens_view(tokens@) =~= tokens_view(before).push(
                                    tokens@.last()@,
                                ));
                                assert forall|rest: Seq<SpecToken>|
                                    tokens_view(before) + (seq![tokens@.last()@] + rest)
                                        =~= #[trigger] (tokens_view(tokens@) + rest) by {}
                            }
                        },
                    }
                },
            }
        }
    }

    fn next_return_token(&mut self, token: Token) -> (r: Option<Token>)
        requires
            old(self).pos < old(self).chars@.len(),
        ensures
            final(self).chars == old(self).chars,
            final(self).pos == old(self).pos + 1,
            r == Some(token),
    {
        let n = self.chars.len();
        assert(self.pos < n);
        self.pos = self.pos + 1;
        Some(token)
    }

    /// Reads one token, or white space, at the position.
    fn next_token(&mut self) -> (r: Result<Option<Token>, LexerError>)
        requires
            old(self).wf(),
        ensures
            final(self).chars == old(self).chars,
            final(self).wf(),
            match lex_step(old(self).chars@, old(self).pos as int) {
                Step::End => r matches Ok(None),
                Step::Fail => r is Err,
                Step::Emit(t, j) => r matches Ok(Some(tok)) && tok@ == t && final(self).pos == j,
            },
            r matches Ok(Some(_)) ==> final(self).pos > old(self).pos,
    {
        if self.pos >= self.chars.len() {
            return Ok(None);
        }
        let c = self.chars[self.pos];
        if c == ' ' || c == '\t' || c == '\n' || c == '\r' {
            Ok(self.next_return_token(Token::WhiteSpace))
        } else if c == '{' {
            Ok(self.next_return_token(Token::LeftBrace))
        } else if c == '}' {
            Ok(self.next_return_token(Token::RightBrace))
        } else if c == '[' {
            Ok(self.next_return_token(Token::LeftBracket))
        } else if c == ']' {
            Ok(self.next_return_token(Token::RightBracket))
        } else if c == ',' {
            Ok(self.next_return_token(Token::Comma))
        } else if c == ':' {
            Ok(self.next_return_token(Token::Colon))
        } else if c == '"' {
            self.pos = self.pos + 1;
            self.parse_string_token()
        } else if ('0' <= c && c <= '9') || c == '+' || c == '-' || c == '.' {
            self.parse_number_token()
        } else if c == 't' {
            self.parse_bool_token(true)
        } else if c == 'f' {
            self.parse_bool_token(false)
        } else if c == 'n' {
            self.parse_null_token()
        } else {
            Err(LexerError::with_char("error: an unexpected char ", c))
        }
    }

    /// Whether the word `w` stands at the position; moves past it if so.
    fn take_word(&mut self, w: &str) -> (r: bool)
        requires
            old(self).wf(),
        ensures
            final(self).chars == old(self).chars,
            final(self).wf(),
            r == (old(self).pos + w@.len() <= old(self).chars@.len() && old(self).chars@.subrange(
                old(self).pos as int,
                old(self).pos + w@.len(),
            ) == w@),
            r ==> final(self).pos == old(self).pos + w@.len(),
    {
        let wc = chars_of(w);
        if wc.len() > self.chars.len() - self.pos {
            return false;
        }
        let mut k: usize = 0;
        while k < wc.len()
            invariant
                k <= wc.len(),
                wc@ == w@,
                self.pos + wc.len() <= self.chars.len(),
                forall|m: int| 0 <= m < k ==> self.chars@[self.pos + m] == wc@[m],
            decreases wc.len() - k,
        {
            if self.chars[self.pos + k] != wc[k] {
                assert(self.chars@.subrange(self.pos as int, self.pos + w@.len())[k as int]
                    == self.chars@[self.pos + k]);
                return false;
            }
            k += 1;
        }
        assert(self.chars@.subrange(self.pos as int, self.pos + w@.len()) =~= w@);
        self.pos = self.pos + wc.len();
        true
    }

    fn parse_null_token(&mut self) -> (r: Result<Option<Token>, LexerError>)
        requires
            old(self).wf(),
        ensures
            final(self).chars == old(self).chars,
            final(self).wf(),
            match lex_word(old(self).chars@, old(self).pos as int, seq!['n', 'u', 'l', 'l'], SpecToken::Null) {
                Step::Emit(t, j) => r matches Ok(Some(tok)) && tok@ == t && final(self).pos == j,
                _ => r is Err,
            },
    {
        proof {
            reveal_strlit("null");
            assert("null"@ =~= seq!['n', 'u', 'l', 'l']);
        }
        if self.take_word("null") {
            Ok(Some(Token::Null))
        } else {
            Err(LexerError::new("error: a null value is expected"))
        }
    }

    fn parse_bool_token(&mut self, b: bool) -> (r: Result<Option<Token>, LexerError>)
        requires
            old(self).wf(),
        ensures
            final(self).chars == old(self).chars,
            final(self).wf(),
            match (if b {
                lex_word(old(self).chars@, old(self).pos as int, seq!['t', 'r', 'u', 'e'], SpecToken::Bool(true))
            } else {
                lex_word(old(self).chars@, old(self).pos as int, seq!['f', 'a', 'l', 's', 'e'], SpecToken::Bool(false))
            }) {
                Step::Emit(t, j) => r matches Ok(Some(tok)) && tok@ == t && final(self).pos == j,
                _ => r is Err,
            },
    {
        proof {
            reveal_strlit("true");
            assert("true"@ =~= seq!['t', 'r', 'u', 'e']);
            reveal_strlit("false");
            assert("false"@ =~= seq!['f', 'a', 'l', 's', 'e']);
        }
        if b {
            if self.take_word("true") {
                Ok(Some(Token::Bool(true)))
            } else {
                Err(LexerError::new("error: a boolean true is expected"))
            }
        } else {
            if self.take_word("false") {
                Ok(Some(Token::Bool(false)))
            } else {
                Err(LexerError::new("error: a boolean false is expected"))
            }
        }
    }

    fn parse_number_token(&mut self) -> (r: Result<Option<Token>, LexerError>)
        requires
            old(self).wf(),
        ensures
            final(self).chars == old(self).chars,
            final(self).wf(),
            ({
                let cs = old(self).chars@;
                let i = old(self).pos as int;
                let j = number_end(cs, i);
                if is_number_text(cs.subrange(i, j)) {
                    r matches Ok(Some(tok)) && tok@ == SpecToken::Num(cs.subrange(i, j))
                        && final(self).pos == j
                } else {
                    r is Err
                }
            }),
            r is Ok ==> final(self).pos > old(self).pos,
    {
        let ghost i = self.pos as int;
        let mut number: Vec<char> = Vec::new();
        while self.pos < self.chars.len() && (('0' <= self.chars[self.pos] && self.chars[self.pos]
            <= '9') || self.chars[self.pos] == '+' || self.chars[self.pos] == '-'
            || self.chars[self.pos] == '.' || self.chars[self.pos] == 'e' || self.chars[self.pos]
            == 'E')
            invariant
                self.wf(),
                self.chars == old(self).chars,
                i == old(self).pos as int,
                i <= self.pos,
                number_end(self.chars@, i) == number_end(self.chars@, self.pos as int),
                number@ == self.chars@.subrange(i, self.pos as int),
            decreases self.chars@.len() - self.pos,
        {
            number.push(self.chars[self.pos]);
            self.pos = self.pos + 1;
            assert(number@ =~= self.chars@.subrange(i, self.pos as int));
        }
        assert(!is_number_text(Seq::<char>::empty()));
        if is_number_literal(&number) {
            proof {
                if number@.len() == 0 {
                    assert(number@ =~= Seq::<char>::empty());
                }
            }
            Ok(Some(Token::Number(Number { text: string_of(number.as_slice()) })))
        } else {
            Err(LexerError::new("error: a number is expected"))
        }
    }

    /// Reads the body of a string, after its opening quote.
    fn parse_string_token(&mut self) -> (r: Result<Option<Token>, LexerError>)
        requires
            old(self).wf(),
        ensures
            final(self).chars == old(self).chars,
            final(self).wf(),
            match lex_string(old(self).chars@, old(self).pos as int, Seq::empty(), Seq::empty()) {
                Some((s, j)) => r matches Ok(Some(tok)) && tok@ == SpecToken::Str(s)
                    && final(self).pos == j,
                None => r is Err,
            },
            final(self).pos >= old(self).pos,
    {
        let ghost cs = self.chars@;
        let ghost start = self.pos as int;
        let mut utf16: Vec<u16> = Vec::new();
        let mut result: Vec<char> = Vec::new();
        loop
            invariant
                self.wf(),
                self.chars == old(self).chars,
                cs == self.chars@,
                start == old(self).pos as int,
                self.pos >= start,
                lex_string(cs, start, Seq::empty(), Seq::empty()) == lex_string(
                    cs,
                    self.pos as int,
                    utf16@,
                    result@,
                ),
            decreases self.chars@.len() - self.pos,
        {
            if self.pos >= self.chars.len() {
                return Err(LexerError::new("error: a string is not closed"));
            }
            let c1 = self.chars[self.pos];
            if c1 == '\\' {
                if self.pos + 1 >= self.chars.len() {
                    return Err(LexerError::new("error: a next char is expected"));
                }
                let c2 = self.chars[self.pos + 1];
                if c2 == '"' || c2 == '\\' || c2 == '/' || c2 == 'b' || c2 == 'f' || c2 == 'n' || c2
                    == 'r' || c2 == 't' {
                    let ghost acc = result@;
                    let ghost ub = utf16@;
                    Self::push_utf16(&mut result, &mut utf16)?;
                    result.push('\\');
                    result.push(c2);
                    self.pos = self.pos + 2;
                    assert(result@ =~= acc + decode_utf16(ub)->Some_0 + seq!['\\', c2]);
                    assert(utf16@ =~= Seq::<u16>::empty());
                } else if c2 == 'u' {
                    if self.chars.len() - self.pos < 6 || !is_hex_char(self.chars[self.pos + 2])
                        || !is_hex_char(self.chars[self.pos + 3]) || !is_hex_char(
                        self.chars[self.pos + 4],
                    ) || !is_hex_char(self.chars[self.pos + 5]) {
                        return Err(LexerError::new("error: a unicode character is expected"));
                    }
                    let code: u16 = hex_digit(self.chars[self.pos + 2]) * 4096 + hex_digit(
                        self.chars[self.pos + 3],
                    ) * 256 + hex_digit(self.chars[self.pos + 4]) * 16 + hex_digit(
                        self.chars[self.pos + 5],
                    );
                    utf16.push(code);
                    self.pos = self.pos + 6;
                } else {
                    return Err(LexerError::with_char("error: an unexpected escaped char ", c2));
                }
            } else if c1 == '"' {
                Self::push_utf16(&mut result, &mut utf16)?;
                self.pos = self.pos + 1;
                return Ok(Some(Token::String(string_of(result.as_slice()))));
            } else {
                let ghost acc = result@;
                let ghost ub = utf16@;
                Self::push_utf16(&mut result, &mut utf16)?;
                result.push(c1);
                self.pos = self.pos + 1;
                assert(result@ =~= acc + decode_utf16(ub)->Some_0 + seq![c1]);
                assert(utf16@ =~= Seq::<u16>::empty());
            }
        }
    }

    /// Decodes the buffered UTF-16 code units onto the end of `result`.
    pub fn push_utf16(result: &mut Vec<char>, utf16: &mut Vec<u16>) -> (r: Result<(), LexerError>)
        ensures
            match decode_utf16(old(utf16)@) {
                Some(d) => r is Ok && final(result)@ == old(result)@ + d && final(utf16)@.len()
                    == 0,
                None => r is Err,
            },
    {
        let ghost us = utf16@;
        let ghost base = result@;
        let n = utf16.len();
        let mut i: usize = 0;
        assert(us.skip(0) =~= us);
        assert(result@.skip(base.len() as int) =~= Seq::<char>::empty());
        while i < n
            invariant
                i <= n,
                n == utf16@.len(),
                utf16@ == us,
                decode_utf16(us) == match decode_utf16(us.skip(i as int)) {
                    Some(rest) => Some(result@.skip(base.len() as int) + rest),
                    None => None,
                },
                result@.len() >= base.len(),
                result@.take(base.len() as int) == base,
            decreases n - i,
        {
            let u = utf16[i];
            let ghost tail = us.skip(i as int);
            assert(tail[0] == u);
            if 0xD800 <= u && u <= 0xDBFF {
                if i + 1 >= n || !(0xDC00 <= utf16[i + 1] && utf16[i + 1] <= 0xDFFF) {
                    return Err(LexerError::new("error: an unpaired surrogate"));
                }
                let l = utf16[i + 1];
                assert(tail[1] == l);
                let code: u32 = 0x10000 + ((u - 0xD800) as u32) * 0x400 + ((l - 0xDC00) as u32);
                match char_from_u32(code) {
                    Some(c) => {
                        let ghost before = result@;
                        result.push(c);
                        assert(tail.skip(2) =~= us.skip(i + 2));
                        assert(result@.skip(base.len() as int) =~= before.skip(base.len() as int)
                            + seq![c]);
                        assert(result@.take(base.len() as int) =~= before.take(base.len() as int));
                    },
                    None => {
                        return Err(LexerError::new("error: an invalid code point"));
                    },
                }
                i = i + 2;
            } else if 0xDC00 <= u && u <= 0xDFFF {
                return Err(LexerError::new("error: an unpaired surrogate"));
            } else {
                match char_from_u32(u as u32) {
                    Some(c) => {
                        let ghost before = result@;
                        result.push(c);
                        assert(tail.skip(1) =~= us.skip(i + 1));
                        assert(result@.skip(base.len() as int) =~= before.skip(base.len() as int)
                            + seq![c]);
                        assert(result@.take(base.len() as int) =~= before.take(base.len() as int));
                    },
                    None => {
                        return Err(LexerError::new("error: an invalid code point"));
                    },
                }
                i = i + 1;
            }
        }
        assert(us.skip(n as int) =~= Seq::<u16>::empty());
        assert(result@ =~= base + result@.skip(base.len() as int));
        utf16.clear();
        Ok(())
    }
}

} // verus!
