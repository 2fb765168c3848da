use vstd::prelude::*;

use crate::lexer::{tokens_view, LexerError, SpecToken, Token};
use crate::value::{
    entries_insert, lemma_values_view, values_view, Json, Object, Value,
};

verus! {

/// A value at position `i`: the value and the position after it.
pub open spec fn parse_value(ts: Seq<SpecToken>, i: int) -> Option<(Json, int)>
    decreases ts.len() - i, 1int,
{
    if i < 0 || i >= ts.len() {
        None
    } else {
        match ts[i] {
            SpecToken::LBrace => parse_object(ts, i),
            SpecToken::LBracket => parse_array(ts, i),
            SpecToken::Str(s) => Some((Json::Str(s), i + 1)),
            SpecToken::Num(n) => Some((Json::Num(n), i + 1)),
            SpecToken::Bool(b) => Some((Json::Bool(b), i + 1)),
            SpecToken::Null => Some((Json::Null, i + 1)),
            _ => None,
        }
    }
}

/// An array whose `[` stands at `i`.
pub open spec fn parse_array(ts: Seq<SpecToken>, i: int) -> Option<(Json, int)>
    decreases ts.len() - i, 0int,
{
    if i < 0 || i + 1 >= ts.len() {
        None
    } else if ts[i + 1] is RBracket {
        Some((Json::Array(Seq::empty()), i + 2))
    } else {
        parse_elements(ts, i + 1, Seq::empty())
    }
}

/// The elements of an array from position `i`, after the elements `acc`.
pub open spec fn parse_elements(ts: Seq<SpecToken>, i: int, acc: Seq<Json>) -> Option<(Json, int)>
    decreases ts.len() - i, 2int,
{
    if i < 0 || i >= ts.len() {
        None
    } else {
        match parse_value(ts, i) {
            Some((v, k)) => if i < k < ts.len() {
                if ts[k] is Comma {
                    parse_elements(ts, k + 1, acc.push(v))
                } else if ts[k] is RBracket {
                    Some((Json::Array(acc.push(v)), k + 1))
                } else {
                    None
                }
            } else {
                None
            },
            None => None,
        }
    }
}

/// An object whose `{` stands at `i`.
pub open spec fn parse_object(ts: Seq<SpecToken>, i: int) -> Option<(Json, int)>
    decreases ts.len() - i, 0int,
{
    if i < 0 || i + 1 >= ts.len() {
        None
    } else if ts[i + 1] is RBrace {
        Some((Json::Object(Seq::empty()), i + 2))
    } else {
        parse_members(ts, i + 1, Seq::empty())
    }
}

/// The members of an object from position `i`, after the entries `acc`; a
/// later member replaces an earlier one with the same key.
pub open spec fn parse_members(ts: Seq<SpecToken>, i: int, acc: Seq<(Seq<char>, Json)>) -> Option<
    (Json, int),
>
    decreases ts.len() - i, 2int,
{
    if i < 0 || i + 1 >= ts.len() {
        None
    } else {
        match (ts[i], ts[i + 1]) {
            (SpecToken::Str(key), SpecToken::Colon) => match parse_value(ts, i + 2) {
                Some((v, k)) => if i + 2 < k < ts.len() {
                    let next = entries_insert(acc, key, v);
                    if ts[k] is Comma {
                        parse_members(ts, k + 1, next)
                    } else if ts[k] is RBrace {
                        Some((Json::Object(next), k + 1))
                    } else {
                        None
                    }
                } else {
                    None
                },
                None => None,
            },
            _ => None,
        }
    }
}

/// The value that a token sequence starts with.
pub open spec fn parse_tokens(ts: Seq<SpecToken>) -> Option<Json> {
    match parse_value(ts, 0) {
        Some((v, _)) => Some(v),
        None => None,
    }
}

/// Which stage of reading refused the text.
#[derive(Debug, Clone, Copy, PartialEq, Eq, Structural)]
pub enum ErrorKind {
    Lex,
    Parse,
}

/// A failure to read JSON text.
#[derive(Debug, Clone)]
pub struct ParserError {
    pub msg: String,
    pub kind: ErrorKind,
}

impl ParserError {
    pub fn new(msg: &str) -> (r: ParserError)
        ensures
            r.msg@ == msg@,
            r.kind == ErrorKind::Parse,
    {
        ParserError { msg: msg.to_owned(), kind: ErrorKind::Parse }
    }

    /// The same failure, from the lexer.
    pub fn from_lexer(e: LexerError) -> (r: ParserError)
        ensures
            r.msg@ == e.msg@,
            r.kind == ErrorKind::Lex,
    {
        ParserError { msg: e.msg, kind: ErrorKind::Lex }
    }
}

/// Builds a value tree from tokens.
pub struct Parser {
    tokens: Vec<Token>,
    index: usize,
}

impl Parser {
    /// The tokens being read.
    pub closed spec fn tokens(&self) -> Seq<SpecToken> {
        tokens_view(self.tokens@)
    }

    /// The position of the next token to read.
    pub closed spec fn index(&self) -> int {
        self.index as int
    }

    pub closed spec fn wf(&self) -> bool {
        self.index <= self.tokens@.len()
    }

    /// How many tokens are left to read.
    pub closed spec fn remaining(&self) -> int {
        self.tokens@.len() - self.index
    }

    pub fn new(tokens: Vec<Token>) -> (r: Parser)
        ensures
            r.tokens() == tokens_view(tokens@),
            r.index() == 0,
            r.wf(),
    {
        Parser { tokens, index: 0 }
    }

    fn peek(&self) -> (r: Option<&Token>)
        ensures
            self.index < self.tokens@.len() ==> r == Some(&self.tokens@[self.index as int]),
            self.index >= self.tokens@.len() ==> r is None,
    {
        if self.index < self.tokens.len() {
            Some(&self.tokens[self.index])
        } else {
            None
        }
    }

    fn peek_expect(&self) -> (r: Result<&Token, ParserError>)
        ensures
            self.index < self.tokens@.len() ==> r == Ok::<&Token, ParserError>(
                &self.tokens@[self.index as int],
            ),
            self.index >= self.tokens@.len() ==> r is Err,
            r matches Err(e) ==> e.kind == ErrorKind::Parse,
    {
        match self.peek() {
            Some(t) => Ok(t),
            None => Err(ParserError::new("error: a token isn't peekable")),
        }
    }

    fn next(&mut self) -> (r: Option<&Token>)
        requires
            old(self).wf(),
        ensures
            final(self).tokens == old(self).tokens,
            final(self).wf(),
            old(self).index < old(self).tokens@.len() ==> r == Some(
                &old(self).tokens@[old(self).index as int],
            ) && final(self).index == old(self).index + 1,
            old(self).index >= old(self).tokens@.len() ==> r is None,
    {
        if self.index < self.tokens.len() {
            self.index = self.index + 1;
            Some(&self.tokens[self.index - 1])
        } else {
            None
        }
    }

    fn next_expect(&mut self) -> (r: Result<&Token, ParserError>)
        requires
            old(self).wf(),
        ensures
            final(self).tokens == old(self).tokens,
            final(self).wf(),
            old(self).index < old(self).tokens@.len() ==> r == Ok::<&Token, ParserError>(
                &old(self).tokens@[old(self).index as int],
            ) && final(self).index == old(self).index + 1,
            old(self).index >= old(self).tokens@.len() ==> r is Err,
            r matches Err(e) ==> e.kind == ErrorKind::Parse,
    {
        match self.next() {
            Some(t) => Ok(t),
            None => Err(ParserError::new("error: a token isn't peekable")),
        }
    }

    /// Reads an array whose `[` is the next token.
    fn parse_array(&mut self) -> (r: Result<Value, ParserError>)
        requires
            old(self).wf(),
            old(self).index < old(self).tokens@.len(),
            old(self).tokens()[old(self).index()] is LBracket,
        ensures
            final(self).tokens() == old(self).tokens(),
            final(self).wf(),
            match parse_array(old(self).tokens(), old(self).index()) {
                Some((v, k)) => r matches Ok(x) && x@ == v && final(self).index() == k,
                None => r is Err,
            },
            r is Ok ==> final(self).index > old(self).index,
            r matches Err(e) ==> e.kind == ErrorKind::Parse,
        decreases old(self).remaining(), 0int,
    {
        let ghost ts = self.tokens();
        let ghost start = self.index as int;
        self.next_expect()?;
        let mut array: Vec<Value> = Vec::new();
        let first = self.peek_expect()?;
        if let Token::RightBracket = first {
            self.next();
            proof {
                lemma_values_view(array@, 0);
            }
            assert(values_view(array@, 0) =~= Seq::<Json>::empty());
            return Ok(Value::Array(array));
        }
        assert(ts[start + 1] == self.tokens@[start + 1]@);
        proof {
            lemma_values_view(array@, 0);
        }
        loop
            invariant
                self.wf(),
                ts == self.tokens(),
                ts == old(self).tokens(),
                start == old(self).index,
                self.index > start,
                parse_array(ts, start) == parse_elements(
                    ts,
                    self.index as int,
                    values_view(array@, array@.len()),
                ),
            decreases self.tokens@.len() - self.index,
        {
            let ghost i = self.index as int;
            let ghost acc = values_view(array@, array@.len());
            if self.index >= self.tokens.len() {
                return Err(ParserError::new("error: a token isn't peekable"));
            }
            let value = self.parse()?;
            let ghost v = value@;
            let ghost k = self.index as int;
            let ghost before = array@;
            array.push(value);
            proof {
                lemma_values_view(before, before.len());
                lemma_values_view(array@, array@.len());
                assert(values_view(array@, array@.len()) =~= acc.push(v));
            }
            let token = self.next_expect()?;
            assert(ts[k] == token@);
            match token {
                Token::RightBracket => {
                    return Ok(Value::Array(array));
                },
                Token::Comma => {},
                _ => {
                    return Err(ParserError::new("error: a ] or , token is expected"));
                },
            }
        }
    }

    /// Reads an object whose `{` is the next token.
    fn parse_object(&mut self) -> (r: Result<Value, ParserError>)
        requires
            old(self).wf(),
            old(self).index < old(self).tokens@.len(),
            old(self).tokens()[old(self).index()] is LBrace,
        ensures
            final(self).tokens() == old(self).tokens(),
            final(self).wf(),
            match parse_object(old(self).tokens(), old(self).index()) {
                Some((v, k)) => r matches Ok(x) && x@ == v && final(self).index() == k,
                None => r is Err,
            },
            r is Ok ==> final(self).index > old(self).index,
            r matches Err(e) ==> e.kind == ErrorKind::Parse,
        decreases old(self).remaining(), 0int,
    {
        let ghost ts = self.tokens();
        let ghost start = self.index as int;
        self.next_expect()?;
        let mut object = Object::new();
        let first = self.peek_expect()?;
        if let Token::RightBrace = first {
            self.next();
            return Ok(Value::Object(object));
        }
        assert(ts[start + 1] == self.tokens@[start + 1]@);
        loop
            invariant
                self.wf(),
                ts == self.tokens(),
                ts == old(self).tokens(),
                start == old(self).index,
                self.index > start,
                object.wf(),
                parse_object(ts, start) == parse_members(ts, self.index as int, object@),
            decreases self.tokens@.len() - self.index,
        {
            let ghost i = self.index as int;
            if self.tokens.len() - self.index < 2 {
                return Err(ParserError::new("error: a pair (key(string) and : token) token is expected"));
            }
            assert(ts[i] == self.tokens@[i]@);
            assert(ts[i + 1] == self.tokens@[i + 1]@);
            let key = match (&self.tokens[self.index], &self.tokens[self.index + 1]) {
                (Token::String(key), Token::Colon) => key.clone(),
                _ => {
                    return Err(ParserError::new("error: a pair (key(string) and : token) token is expected"));
                },
            };
            self.index = self.index + 2;
            let value = self.parse()?;
            object.insert(key, value);
            let ghost k = self.index as int;
            let token = self.next_expect()?;
            assert(ts[k] == token@);
            match token {
                Token::RightBrace => {
                    return Ok(Value::Object(object));
                },
                Token::Comma => {},
                _ => {
                    return Err(ParserError::new("error: a } or , token is expected"));
                },
            }
        }
    }

    /// Reads one value from the next tokens.
    pub fn parse(&mut self) -> (r: Result<Value, ParserError>)
        requires
            old(self).wf(),
        ensures
            final(self).tokens() == old(self).tokens(),
            final(self).wf(),
            match parse_value(old(self).tokens(), old(self).index()) {
                Some((v, k)) => r matches Ok(x) && x@ == v && final(self).index() == k,
                None => r is Err,
            },
            r is Ok ==> final(self).index() > old(self).index(),
            r matches Err(e) ==> e.kind == ErrorKind::Parse,
        decreases old(self).remaining(), 1int,
    {
        let ghost ts = self.tokens();
        let token = self.peek_expect()?;
        assert(ts[self.index as int] == token@);
        match token {
            Token::LeftBrace => self.parse_object(),
            Token::LeftBracket => self.parse_array(),
            Token::String(s) => {
                let s = s.clone();
                self.next();
                Ok(Value::String(s))
            },
            Token::Number(n) => {
                let n = n.duplicate();
                self.next();
                Ok(Value::Number(n))
            },
            Token::Bool(b) => {
                let b = *b;
                self.next();
                Ok(Value::Bool(b))
            },
            Token::Null => {
                self.next();
                Ok(Value::Null)
            },
            _ => Err(
                ParserError::new(
                    "error: a token must start { or [ or string or number or bool or null",
                ),
            ),
        }
    }
}

} // verus!
