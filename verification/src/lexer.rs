//! The lexer: from query text to tokens, one at a time.

use vstd::prelude::*;
use crate::decimal::{
    digit_chars, digit_values, digits_between, is_digit_char, normalize, scan_digits, Decimal,
    DecimalView,
};
use crate::text::{
    chars_of, lemma_scan_while, scan_while, string_of, unicode_alphanumeric, unicode_whitespace,
    uppercase_of,
};

verus! {

/// A lexical unit of the query language.
#[derive(Debug, PartialEq)]
pub enum Token {
    Select,
    Insert,
    Delete,
    Update,
    Into,
    SetKeyword,
    Values,
    From,
    Where,
    Order,
    By,
    Identifier(String),
    Number(Decimal),
    String(String),
    Operator(String),
    Comma,
    Asterisk,
    LeftParen,
    RightParen,
    Asc,
    Desc,
    EOF,
}

/// The mathematical content of a [`Token`].
pub enum TokenView {
    Select,
    Insert,
    Delete,
    Update,
    Into,
    SetKeyword,
    Values,
    From,
    Where,
    Order,
    By,
    Identifier(Seq<char>),
    Number(DecimalView),
    String(Seq<char>),
    Operator(Seq<char>),
    Comma,
    Asterisk,
    LeftParen,
    RightParen,
    Asc,
    Desc,
    EOF,
}

impl View for Token {
    type V = TokenView;

    open spec fn view(&self) -> TokenView {
        match self {
            Token::Select => TokenView::Select,
            Token::Insert => TokenView::Insert,
            Token::Delete => TokenView::Delete,
            Token::Update => TokenView::Update,
            Token::Into => TokenView::Into,
            Token::SetKeyword => TokenView::SetKeyword,
            Token::Values => TokenView::Values,
            Token::From => TokenView::From,
            Token::Where => TokenView::Where,
            Token::Order => TokenView::Order,
            Token::By => TokenView::By,
            Token::Identifier(s) => TokenView::Identifier(s@),
            Token::Number(n) => TokenView::Number(n@),
            Token::String(s) => TokenView::String(s@),
            Token::Operator(s) => TokenView::Operator(s@),
            Token::Comma => TokenView::Comma,
            Token::Asterisk => TokenView::Asterisk,
            Token::LeftParen => TokenView::LeftParen,
            Token::RightParen => TokenView::RightParen,
            Token::Asc => TokenView::Asc,
            Token::Desc => TokenView::Desc,
            Token::EOF => TokenView::EOF,
        }
    }
}

impl Clone for Token {
    fn clone(&self) -> (r: Self)
        ensures
            r@ == self@,
    {
        match self {
            Token::Select => Token::Select,
            Token::Insert => Token::Insert,
            Token::Delete => Token::Delete,
            Token::Update => Token::Update,
            Token::Into => Token::Into,
            Token::SetKeyword => Token::SetKeyword,
            Token::Values => Token::Values,
            Token::From => Token::From,
            Token::Where => Token::Where,
            Token::Order => Token::Order,
            Token::By => Token::By,
            Token::Identifier(s) => Token::Identifier(s.clone()),
            Token::Number(n) => Token::Number(n.clone()),
            Token::String(s) => Token::String(s.clone()),
            Token::Operator(s) => Token::Operator(s.clone()),
            Token::Comma => Token::Comma,
            Token::Asterisk => Token::Asterisk,
            Token::LeftParen => Token::LeftParen,
            Token::RightParen => Token::RightParen,
            Token::Asc => Token::Asc,
            Token::Desc => Token::Desc,
            Token::EOF => Token::EOF,
        }
    }
}

/// Why the lexer gave up.
#[derive(Debug, PartialEq, Eq, Clone, Copy, Structural)]
pub enum LexError {
    /// A character that starts no token.
    UnexpectedCharacter(char),
}

/// The predicate "is whitespace" as a value.
pub open spec fn whitespace() -> spec_fn(char) -> bool {
    |c: char| unicode_whitespace(c)
}

/// The predicate "may continue an identifier" as a value: a letter, a number
/// or an underscore.
pub open spec fn word_chars() -> spec_fn(char) -> bool {
    |c: char| unicode_alphanumeric(c) || c == '_'
}

/// The predicate "differs from `q`" as a value.
pub open spec fn other_than(q: char) -> spec_fn(char) -> bool {
    |c: char| c != q
}

/// `c` may start an identifier: an ASCII letter or an underscore.
pub open spec fn is_word_start(c: char) -> bool {
    ('a' <= c && c <= 'z') || ('A' <= c && c <= 'Z') || c == '_'
}

/// The token that a word stands for, given the word in upper case: a keyword
/// if the upper-case form is one, else an identifier that keeps the spelling.
pub open spec fn classify_word(word: Seq<char>, upper: Seq<char>) -> TokenView {
    if upper == "SELECT"@ {
        TokenView::Select
    } else if upper == "INSERT"@ {
        TokenView::Insert
    } else if upper == "UPDATE"@ {
        TokenView::Update
    } else if upper == "DELETE"@ {
        TokenView::Delete
    } else if upper == "ORDER"@ {
        TokenView::Order
    } else if upper == "BY"@ {
        TokenView::By
    } else if upper == "ASC"@ {
        TokenView::Asc
    } else if upper == "DESC"@ {
        TokenView::Desc
    } else if upper == "SET"@ {
        TokenView::SetKeyword
    } else if upper == "FROM"@ {
        TokenView::From
    } else if upper == "WHERE"@ {
        TokenView::Where
    } else if upper == "INTO"@ {
        TokenView::Into
    } else if upper == "VALUES"@ {
        TokenView::Values
    } else {
        TokenView::Identifier(word)
    }
}

/// One step of the lexer: the token found, or the error, and the input left.
pub struct Lexed {
    pub token: Result<TokenView, LexError>,
    pub rest: Seq<char>,
}

/// A string literal whose opening quote `quote` has just been read: the
/// characters up to the next `quote`, which is consumed; the literal runs to
/// the end of the input if there is none.
pub open spec fn lex_string(after_quote: Seq<char>, quote: char) -> Lexed {
    let close = scan_while(after_quote, 0, other_than(quote));
    Lexed {
        token: Ok(TokenView::String(after_quote.take(close))),
        rest: after_quote.skip(
            if close < after_quote.len() {
                close + 1
            } else {
                close
            },
        ),
    }
}

/// A number literal: digits, then at most one point with the digits after it.
pub open spec fn lex_number(t: Seq<char>) -> Lexed {
    let point = scan_while(t, 0, digit_chars());
    if point < t.len() && t[point] == '.' {
        let end = scan_while(t, point + 1, digit_chars());
        Lexed {
            token: Ok(
                TokenView::Number(
                    normalize(
                        false,
                        digit_values(t.subrange(0, point)),
                        digit_values(t.subrange(point + 1, end)),
                    ),
                ),
            ),
            rest: t.skip(end),
        }
    } else {
        Lexed {
            token: Ok(
                TokenView::Number(
                    normalize(false, digit_values(t.subrange(0, point)), Seq::empty()),
                ),
            ),
            rest: t.skip(point),
        }
    }
}

/// An operator: `=`, `<` or `>`, taking along a following `=` after `<` or
/// `>`, or a following `>` after `<`.
pub open spec fn lex_operator(t: Seq<char>) -> Lexed {
    let c = t[0];
    let double = t.len() > 1 && ((c == '<' && (t[1] == '=' || t[1] == '>')) || (c == '>' && t[1]
        == '='));
    let n: int = if double {
        2
    } else {
        1
    };
    Lexed { token: Ok(TokenView::Operator(t.take(n))), rest: t.skip(n) }
}

/// A keyword or an identifier: the first character and every following
/// letter, number or underscore.
pub open spec fn lex_word(t: Seq<char>) -> Lexed {
    let end = scan_while(t, 1, word_chars());
    let word = t.take(end);
    Lexed { token: Ok(classify_word(word, uppercase_of(word))), rest: t.skip(end) }
}

/// The token at the start of `t`, which is not empty and does not start with
/// whitespace.
pub open spec fn lex_token(t: Seq<char>) -> Lexed {
    let c = t[0];
    if c == ',' {
        Lexed { token: Ok(TokenView::Comma), rest: t.skip(1) }
    } else if c == '*' {
        Lexed { token: Ok(TokenView::Asterisk), rest: t.skip(1) }
    } else if c == '(' {
        Lexed { token: Ok(TokenView::LeftParen), rest: t.skip(1) }
    } else if c == ')' {
        Lexed { token: Ok(TokenView::RightParen), rest: t.skip(1) }
    } else if c == '=' || c == '>' || c == '<' {
        lex_operator(t)
    } else if c == '\'' || c == '"' {
        lex_string(t.skip(1), c)
    } else if is_digit_char(c) {
        lex_number(t)
    } else if is_word_start(c) {
        lex_word(t)
    } else {
        Lexed { token: Err(LexError::UnexpectedCharacter(c)), rest: t.skip(1) }
    }
}

/// The input without its leading whitespace.
pub open spec fn trim_start(input: Seq<char>) -> Seq<char> {
    input.skip(scan_while(input, 0, whitespace()))
}

/// One step of the lexer on `input`: leading whitespace is skipped; at the
/// end of the input the token is `EOF`.
pub open spec fn lex(input: Seq<char>) -> Lexed {
    let t = trim_start(input);
    if t.len() == 0 {
        Lexed { token: Ok(TokenView::EOF), rest: t }
    } else {
        lex_token(t)
    }
}

/// All tokens of an input up to its end or to the first lexical error.
pub struct TokenStream {
    pub tokens: Seq<TokenView>,
    pub failure: Option<LexError>,
}

/// The tokens that repeated lexing of `input` yields, `EOF` not included, and
/// the error that ended it, if one did.
pub open spec fn tokens_of(input: Seq<char>) -> TokenStream
    decreases input.len(),
{
    let step = lex(input);
    match step.token {
        Err(e) => TokenStream { tokens: Seq::empty(), failure: Some(e) },
        Ok(TokenView::EOF) => TokenStream { tokens: Seq::empty(), failure: None },
        Ok(t) => {
            proof {
                lemma_lex_progress(input);
            }
            let later = tokens_of(step.rest);
            TokenStream { tokens: seq![t] + later.tokens, failure: later.failure }
        },
    }
}

/// Scanning a suffix is scanning the whole text from further on.
pub proof fn lemma_scan_while_skip(s: Seq<char>, base: int, i: int, p: spec_fn(char) -> bool)
    requires
        0 <= base,
        0 <= i,
        base + i <= s.len(),
    ensures
        scan_while(s.skip(base), i, p) + base == scan_while(s, base + i, p),
    decreases s.len() - base - i,
{
    let t = s.skip(base);
    if i < t.len() && p(t[i]) {
        lemma_scan_while_skip(s, base, i + 1, p);
    }
}

/// A word never classifies as `EOF`.
pub proof fn lemma_classify_word_not_eof(word: Seq<char>, upper: Seq<char>)
    ensures
        classify_word(word, upper) != TokenView::EOF,
{
}

/// Every step of the lexer leaves a suffix of its input, and a step that finds
/// a token other than `EOF`, or fails, consumes at least one character.
pub proof fn lemma_lex_progress(input: Seq<char>)
    ensures
        lex(input).rest.len() <= input.len(),
        lex(input).rest == input.skip(input.len() - lex(input).rest.len()),
        lex(input).token != Ok::<TokenView, LexError>(TokenView::EOF) ==> lex(input).rest.len()
            < input.len(),
        lex(input).token == Ok::<TokenView, LexError>(TokenView::EOF) ==> lex(input).rest.len()
            == 0,
{
    let w = scan_while(input, 0, whitespace());
    lemma_scan_while(input, 0, whitespace());
    let t = trim_start(input);
    if t.len() > 0 {
        let c = t[0];
        let out = lex_token(t);
        assert(out.rest.len() < t.len() && out.rest == t.skip(t.len() - out.rest.len())
            && out.token != Ok::<TokenView, LexError>(TokenView::EOF)) by {
            if c == ',' || c == '*' || c == '(' || c == ')' {
            } else if c == '=' || c == '>' || c == '<' {
            } else if c == '\'' || c == '"' {
                let u = t.skip(1);
                lemma_scan_while(u, 0, other_than(c));
                let close = scan_while(u, 0, other_than(c));
                let n = if close < u.len() {
                    close + 1
                } else {
                    close
                };
                assert(u.skip(n) == t.skip(1 + n));
            } else if is_digit_char(c) {
                lemma_scan_while(t, 0, digit_chars());
                let point = scan_while(t, 0, digit_chars());
                assert(point >= 1);
                if point < t.len() && t[point] == '.' {
                    lemma_scan_while(t, point + 1, digit_chars());
                }
            } else if is_word_start(c) {
                lemma_scan_while(t, 1, word_chars());
                let end = scan_while(t, 1, word_chars());
                lemma_classify_word_not_eof(t.take(end), uppercase_of(t.take(end)));
            } else {
            }
        }
        let k = t.len() - out.rest.len();
        assert(t.skip(k) == input.skip(w + k));
    }
}

/// The end of the run of whitespace that starts at `from`.
fn scan_whitespace(chars: &Vec<char>, from: usize) -> (end: usize)
    requires
        from <= chars.len(),
    ensures
        end == scan_while(chars@, from as int, whitespace()),
        from <= end <= chars.len(),
{
    let mut i: usize = from;
    while i < chars.len() && chars[i].is_whitespace()
        invariant
            from <= i <= chars.len(),
            scan_while(chars@, from as int, whitespace()) == scan_while(
                chars@,
                i as int,
                whitespace(),
            ),
        decreases chars.len() - i,
    {
        i += 1;
    }
    i
}

/// The end of the run of identifier characters that starts at `from`.
fn scan_word(chars: &Vec<char>, from: usize) -> (end: usize)
    requires
        from <= chars.len(),
    ensures
        end == scan_while(chars@, from as int, word_chars()),
        from <= end <= chars.len(),
{
    let mut i: usize = from;
    while i < chars.len() && (chars[i].is_alphanumeric() || chars[i] == '_')
        invariant
            from <= i <= chars.len(),
            scan_while(chars@, from as int, word_chars()) == scan_while(
                chars@,
                i as int,
                word_chars(),
            ),
        decreases chars.len() - i,
    {
        i += 1;
    }
    i
}

/// The first position at or after `from` that holds `quote`, or the end.
fn scan_until(chars: &Vec<char>, from: usize, quote: char) -> (end: usize)
    requires
        from <= chars.len(),
    ensures
        end == scan_while(chars@, from as int, other_than(quote)),
        from <= end <= chars.len(),
{
    let mut i: usize = from;
    while i < chars.len() && chars[i] != quote
        invariant
            from <= i <= chars.len(),
            scan_while(chars@, from as int, other_than(quote)) == scan_while(
                chars@,
                i as int,
                other_than(quote),
            ),
        decreases chars.len() - i,
    {
        i += 1;
    }
    i
}

/// The keyword that `upper` spells, or the identifier `word`.
pub fn keyword_or_identifier(word: String, upper: &str) -> (token: Token)
    ensures
        token@ == classify_word(word@, upper@),
{
    if str::eq(upper, "SELECT") {
        Token::Select
    } else if str::eq(upper, "INSERT") {
        Token::Insert
    } else if str::eq(upper, "UPDATE") {
        Token::Update
    } else if str::eq(upper, "DELETE") {
        Token::Delete
    } else if str::eq(upper, "ORDER") {
        Token::Order
    } else if str::eq(upper, "BY") {
        Token::By
    } else if str::eq(upper, "ASC") {
        Token::Asc
    } else if str::eq(upper, "DESC") {
        Token::Desc
    } else if str::eq(upper, "SET") {
        Token::SetKeyword
    } else if str::eq(upper, "FROM") {
        Token::From
    } else if str::eq(upper, "WHERE") {
        Token::Where
    } else if str::eq(upper, "INTO") {
        Token::Into
    } else if str::eq(upper, "VALUES") {
        Token::Values
    } else {
        Token::Identifier(word)
    }
}

/// What a step of the lexer returned, as mathematics.
pub open spec fn outcome_view(r: Result<Token, LexError>) -> Result<TokenView, LexError> {
    match r {
        Ok(t) => Ok(t@),
        Err(e) => Err(e),
    }
}

/// The contents of a list of tokens.
pub open spec fn token_views(tokens: Seq<Token>) -> Seq<TokenView> {
    Seq::new(tokens.len(), |i: int| tokens[i]@)
}

/// A lexer over a query text. Its view is the input not yet consumed.
pub struct Lexer {
    chars: Vec<char>,
    pos: usize,
}

impl View for Lexer {
    type V = Seq<char>;

    closed spec fn view(&self) -> Seq<char> {
        self.chars@.skip(self.pos as int)
    }
}

impl Lexer {
    #[verifier::type_invariant]
    spec fn well_formed(self) -> bool {
        self.pos <= self.chars@.len()
    }

    /// A lexer at the start of `input`.
    pub fn new(input: &str) -> (lexer: Lexer)
        ensures
            lexer@ == input@,
    {
        let chars = chars_of(input);
        assert(chars@.skip(0) == chars@);
        Lexer { chars, pos: 0 }
    }

    /// Consumes leading whitespace.
    fn skip_whitespace(&mut self)
        ensures
            final(self)@ == trim_start(old(self)@),
    {
        proof {
            use_type_invariant(&*self);
            lemma_scan_while_skip(self.chars@, self.pos as int, 0, whitespace());
        }
        let end = scan_whitespace(&self.chars, self.pos);
        assert(self.chars@.skip(self.pos as int).skip(end - self.pos) == self.chars@.skip(
            end as int,
        ));
        self.pos = end;
    }

    /// Reads a string literal whose opening quote has been consumed.
    fn read_string(&mut self, quote: char) -> (s: String)
        ensures
            Ok::<TokenView, LexError>(TokenView::String(s@)) == lex_string(old(self)@, quote).token,
            final(self)@ == lex_string(old(self)@, quote).rest,
    {
        proof {
            use_type_invariant(&*self);
            lemma_scan_while_skip(self.chars@, self.pos as int, 0, other_than(quote));
        }
        let ghost input = self@;
        let close = scan_until(&self.chars, self.pos, quote);
        let s = string_of(&self.chars, self.pos, close);
        assert(s@ == input.take(close - self.pos));
        let end = if close < self.chars.len() {
            close + 1
        } else {
            close
        };
        assert(input.skip(end - self.pos) == self.chars@.skip(end as int));
        self.pos = end;
        s
    }

    /// Reads a number literal that starts at the current position.
    fn read_number(&mut self) -> (n: Decimal)
        requires
            old(self)@.len() > 0,
            is_digit_char(old(self)@[0]),
        ensures
            Ok::<TokenView, LexError>(TokenView::Number(n@)) == lex_number(old(self)@).token,
            final(self)@ == lex_number(old(self)@).rest,
    {
        proof {
            use_type_invariant(&*self);
            lemma_scan_while_skip(self.chars@, self.pos as int, 0, digit_chars());
            lemma_scan_while(self.chars@, self.pos as int, digit_chars());
        }
        let ghost input = self@;
        let start = self.pos;
        let point = scan_digits(&self.chars, start);
        let whole = digits_between(&self.chars, start, point);
        assert(self.chars@.subrange(start as int, point as int) == input.subrange(
            0,
            point - start,
        ));
        if point < self.chars.len() && self.chars[point] == '.' {
            proof {
                lemma_scan_while_skip(
                    self.chars@,
                    self.pos as int,
                    point - start + 1,
                    digit_chars(),
                );
                lemma_scan_while(self.chars@, point + 1, digit_chars());
            }
            let end = scan_digits(&self.chars, point + 1);
            let fraction = digits_between(&self.chars, point + 1, end);
            assert(self.chars@.subrange(point + 1, end as int) == input.subrange(
                point - start + 1,
                end - start,
            ));
            assert(input.skip(end - start) == self.chars@.skip(end as int));
            self.pos = end;
            Decimal::of_digits(false, whole, fraction)
        } else {
            assert(input.skip(point - start) == self.chars@.skip(point as int));
            self.pos = point;
            Decimal::of_digits(false, whole, Vec::new())
        }
    }

    /// Reads the word that starts at the current position.
    fn read_identifier(&mut self) -> (word: String)
        requires
            old(self)@.len() > 0,
        ensures
            word@ == old(self)@.take(scan_while(old(self)@, 1, word_chars())),
            final(self)@ == old(self)@.skip(scan_while(old(self)@, 1, word_chars())),
    {
        proof {
            use_type_invariant(&*self);
            lemma_scan_while_skip(self.chars@, self.pos as int, 1, word_chars());
        }
        let ghost input = self@;
        let start = self.pos;
        let n = self.chars.len();
        assert(input.len() == n - start);
        let end = scan_word(&self.chars, start + 1);
        let word = string_of(&self.chars, start, end);
        assert(word@ == input.take(end - start));
        assert(input.skip(end - start) == self.chars@.skip(end as int));
        self.pos = end;
        word
    }

    /// Reads the operator that starts at the current position.
    fn read_operator(&mut self) -> (op: String)
        requires
            old(self)@.len() > 0,
        ensures
            Ok::<TokenView, LexError>(TokenView::Operator(op@)) == lex_operator(old(self)@).token,
            final(self)@ == lex_operator(old(self)@).rest,
    {
        proof {
            use_type_invariant(&*self);
        }
        let ghost input = self@;
        let start = self.pos;
        let n = self.chars.len();
        assert(input.len() == n - start);
        let c = self.chars[start];
        let mut op = String::new();
        op.push(c);
        let mut end = start + 1;
        if end < self.chars.len() {
            let next = self.chars[end];
            assert(next == input[1]);
            if (c == '<' && next == '=') || (c == '>' && next == '=') || (c == '<' && next
                == '>') {
                op.push(next);
                end = end + 1;
            }
        }
        assert(op@ == input.take(end - start));
        assert(input.skip(end - start) == self.chars@.skip(end as int));
        self.pos = end;
        op
    }

    /// Consumes one character.
    fn bump(&mut self)
        requires
            old(self)@.len() > 0,
        ensures
            final(self)@ == old(self)@.skip(1),
    {
        proof {
            use_type_invariant(&*self);
        }
        let n = self.chars.len();
        assert(self@.len() == n - self.pos);
        assert(self@.skip(1) == self.chars@.skip(self.pos + 1));
        self.pos = self.pos + 1;
    }

    /// The first character of the remaining input, if any.
    fn peek(&self) -> (c: Option<char>)
        ensures
            self@.len() == 0 ==> c is None,
            self@.len() > 0 ==> c == Some(self@[0]),
    {
        proof {
            use_type_invariant(self);
        }
        if self.pos < self.chars.len() {
            Some(self.chars[self.pos])
        } else {
            None
        }
    }

    /// Reads the next token; at the end of the input, `Token::EOF`. An
    /// unrecognized character is consumed and reported.
    pub fn next_token(&mut self) -> (r: Result<Token, LexError>)
        ensures
            outcome_view(r) == lex(old(self)@).token,
            final(self)@ == lex(old(self)@).rest,
    {
        self.skip_whitespace();
        match self.peek() {
            None => Ok(Token::EOF),
            Some(ch) => {
                if ch == ',' {
                    self.bump();
                    Ok(Token::Comma)
                } else if ch == '*' {
                    self.bump();
                    Ok(Token::Asterisk)
                } else if ch == '(' {
                    self.bump();
                    Ok(Token::LeftParen)
                } else if ch == ')' {
                    self.bump();
                    Ok(Token::RightParen)
                } else if ch == '=' || ch == '>' || ch == '<' {
                    let op = self.read_operator();
                    Ok(Token::Operator(op))
                } else if ch == '\'' || ch == '"' {
                    self.bump();
                    let s = self.read_string(ch);
                    Ok(Token::String(s))
                } else if ch >= '0' && ch <= '9' {
                    let num = self.read_number();
                    Ok(Token::Number(num))
                } else if (ch >= 'a' && ch <= 'z') || (ch >= 'A' && ch <= 'Z') || ch == '_' {
                    let ident = self.read_identifier();
                    let upper = ident.as_str().to_uppercase();
                    Ok(keyword_or_identifier(ident, upper.as_str()))
                } else {
                    self.bump();
                    Err(LexError::UnexpectedCharacter(ch))
                }
            },
        }
    }

    /// The next token, or `None` once the input is exhausted.
    pub fn next(&mut self) -> (r: Result<Option<Token>, LexError>)
        ensures
            final(self)@ == lex(old(self)@).rest,
            match lex(old(self)@).token {
                Ok(TokenView::EOF) => r == Ok::<Option<Token>, LexError>(None),
                Ok(t) => r matches Ok(Some(token)) && token@ == t,
                Err(e) => r == Err::<Option<Token>, LexError>(e),
            },
    {
        match self.next_token() {
            Ok(Token::EOF) => Ok(None),
            Ok(token) => Ok(Some(token)),
            Err(e) => Err(e),
        }
    }

    /// All remaining tokens, or the first lexical error.
    #[verifier::loop_isolation(false)]
    pub fn tokenize(self) -> (r: Result<Vec<Token>, LexError>)
        ensures
            match tokens_of(self@).failure {
                None => r matches Ok(tokens) && token_views(tokens@) == tokens_of(self@).tokens,
                Some(e) => r == Err::<Vec<Token>, LexError>(e),
            },
    {
        let mut lexer = self;
        let ghost all = lexer@;
        let mut tokens: Vec<Token> = Vec::new();
        assert(token_views(tokens@) + tokens_of(lexer@).tokens == tokens_of(all).tokens);
        loop
            invariant
                tokens_of(all).failure == tokens_of(lexer@).failure,
                tokens_of(all).tokens == token_views(tokens@) + tokens_of(lexer@).tokens,
            decreases lexer@.len(),
        {
            let ghost before = lexer@;
            let ghost seen = tokens@;
            proof {
                lemma_lex_progress(before);
            }
            match lexer.next_token() {
                Err(e) => {
                    return Err(e);
                },
                Ok(Token::EOF) => {
                    assert(token_views(tokens@) + Seq::<TokenView>::empty() == token_views(
                        tokens@,
                    ));
                    return Ok(tokens);
                },
                Ok(token) => {
                    tokens.push(token);
                    assert(token_views(tokens@) == token_views(seen).push(token@));
                    assert(token_views(seen) + (seq![token@] + tokens_of(lexer@).tokens)
                        == token_views(tokens@) + tokens_of(lexer@).tokens);
                },
            }
        }
    }
}

} // verus!
