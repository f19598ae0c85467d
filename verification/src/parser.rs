//! The parser: recursive descent over the lexer's tokens, one token of
//! lookahead.
//!
//! The grammar is stated as functions on [`ParserView`], the parser's state as
//! mathematics: the current token and the input that the lexer has not read.
//! Each executable rule is proved to compute its function.

use vstd::prelude::*;
use crate::ast::{
    order_by_view, updates_view, values_view, ASTNode, AstView, ComparisonOperator, Condition,
    ConditionView, DeleteStatement, DeleteView, InsertStatement, InsertView, OrderByClause,
    OrderByView, OrderDirection, SelectStatement, SelectView, UpdateStatement, UpdateView, Value,
    ValueView,
};
use crate::lexer::{lemma_lex_progress, lex, LexError, Lexer, Token, TokenView};
use crate::text::names_view;

verus! {

/// Why a statement could not be parsed.
#[derive(Debug, PartialEq, Eq, Clone, Copy, Structural)]
pub enum ParseError {
    /// The lexer met a character that starts no token.
    Lexical(LexError),
    /// The statement starts with none of SELECT, INSERT, UPDATE, DELETE.
    UnexpectedToken,
    ExpectedFrom,
    ExpectedInto,
    ExpectedValues,
    ExpectedSet,
    ExpectedBy,
    ExpectedTableName,
    ExpectedColumnName,
    ExpectedColumnNameOrStar,
    /// No `=` after the column of an assignment.
    ExpectedAssignment,
    ExpectedValue,
    ExpectedOperator,
    /// An operator lexeme that is none of `=`, `<>`, `>`, `<`, `>=`, `<=`.
    UnsupportedOperator,
    ExpectedLeftParen,
    ExpectedCommaOrRightParen,
    /// INSERT names columns, and not as many as it gives values.
    ColumnValueCountMismatch,
}

impl ParseError {
    /// The text of `message`.
    pub open spec fn description(self) -> Seq<char> {
        match self {
            ParseError::Lexical(LexError::UnexpectedCharacter(c)) => "Unexpected character: "@.push(
                c,
            ),
            ParseError::UnexpectedToken => "Unexpected token"@,
            ParseError::ExpectedFrom => "Expected FROM"@,
            ParseError::ExpectedInto => "Expected INTO after INSERT"@,
            ParseError::ExpectedValues => "Expected VALUES"@,
            ParseError::ExpectedSet => "Expected SET after the table name"@,
            ParseError::ExpectedBy => "Expected BY after ORDER"@,
            ParseError::ExpectedTableName => "Expected a table name"@,
            ParseError::ExpectedColumnName => "Expected a column name"@,
            ParseError::ExpectedColumnNameOrStar => "Expected a column name or *"@,
            ParseError::ExpectedAssignment => "Expected '=' after the column name"@,
            ParseError::ExpectedValue => "Expected a value"@,
            ParseError::ExpectedOperator => "Expected an operator"@,
            ParseError::UnsupportedOperator => "Unsupported operator"@,
            ParseError::ExpectedLeftParen => "Expected '(' before the values"@,
            ParseError::ExpectedCommaOrRightParen => "Expected ',' or ')'"@,
            ParseError::ColumnValueCountMismatch =>
                "Number of columns doesn't match number of values"@,
        }
    }

    /// A description of the error for people.
    pub fn message(&self) -> (text: String)
        ensures
            text@ == self.description(),
    {
        match self {
            ParseError::Lexical(LexError::UnexpectedCharacter(c)) => {
                let mut text = "Unexpected character: ".to_owned();
                text.push(*c);
                text
            },
            ParseError::UnexpectedToken => "Unexpected token".to_owned(),
            ParseError::ExpectedFrom => "Expected FROM".to_owned(),
            ParseError::ExpectedInto => "Expected INTO after INSERT".to_owned(),
            ParseError::ExpectedValues => "Expected VALUES".to_owned(),
            ParseError::ExpectedSet => "Expected SET after the table name".to_owned(),
            ParseError::ExpectedBy => "Expected BY after ORDER".to_owned(),
            ParseError::ExpectedTableName => "Expected a table name".to_owned(),
            ParseError::ExpectedColumnName => "Expected a column name".to_owned(),
            ParseError::ExpectedColumnNameOrStar => "Expected a column name or *".to_owned(),
            ParseError::ExpectedAssignment => "Expected '=' after the column name".to_owned(),
            ParseError::ExpectedValue => "Expected a value".to_owned(),
            ParseError::ExpectedOperator => "Expected an operator".to_owned(),
            ParseError::UnsupportedOperator => "Unsupported operator".to_owned(),
            ParseError::ExpectedLeftParen => "Expected '(' before the values".to_owned(),
            ParseError::ExpectedCommaOrRightParen => "Expected ',' or ')'".to_owned(),
            ParseError::ColumnValueCountMismatch =>
                "Number of columns doesn't match number of values".to_owned(),
        }
    }
}

/// The parser's state: the current token and the input not yet read.
pub struct ParserView {
    pub current: TokenView,
    pub input: Seq<char>,
}

/// What a grammar rule yields: the state it leaves, and its value or error.
pub struct Parsed<T> {
    pub state: ParserView,
    pub result: Result<T, ParseError>,
}

pub open spec fn done<T>(state: ParserView, value: T) -> Parsed<T> {
    Parsed { state, result: Ok(value) }
}

pub open spec fn fail<T>(state: ParserView, error: ParseError) -> Parsed<T> {
    Parsed { state, result: Err(error) }
}

impl<T> Parsed<T> {
    /// The value of a rule that succeeded.
    pub open spec fn value(self) -> T {
        match self.result {
            Ok(v) => v,
            Err(_) => arbitrary(),
        }
    }

    /// The error of a rule that failed.
    pub open spec fn error(self) -> ParseError {
        match self.result {
            Err(e) => e,
            Ok(_) => arbitrary(),
        }
    }

    /// The failure of this rule as the failure of another.
    pub open spec fn cast<U>(self) -> Parsed<U> {
        fail(self.state, self.error())
    }
}

/// The comparison that an operator lexeme denotes.
pub open spec fn operator_of(op: Seq<char>) -> Option<ComparisonOperator> {
    if op == "="@ {
        Some(ComparisonOperator::Equals)
    } else if op == "<>"@ {
        Some(ComparisonOperator::NotEquals)
    } else if op == ">"@ {
        Some(ComparisonOperator::GreaterThan)
    } else if op == "<"@ {
        Some(ComparisonOperator::LessThan)
    } else if op == ">="@ {
        Some(ComparisonOperator::GreaterEqualThan)
    } else if op == "<="@ {
        Some(ComparisonOperator::LessEqualThan)
    } else {
        None
    }
}

/// A token that is its own whole content: a keyword, a punctuation mark or
/// the end marker.
pub open spec fn is_symbol(token: TokenView) -> bool {
    !(token is Identifier || token is Number || token is String || token is Operator)
}

impl ParserView {
    /// Reads the next token into the lookahead. At the end of the input the
    /// lookahead becomes `EOF`; on a lexical error it stays as it is.
    pub open spec fn advance(self) -> Parsed<()> {
        let step = lex(self.input);
        match step.token {
            Ok(t) => done(ParserView { current: t, input: step.rest }, ()),
            Err(e) => fail(
                ParserView { current: self.current, input: step.rest },
                ParseError::Lexical(e),
            ),
        }
    }

    /// Advances and yields `value`.
    pub open spec fn advance_with<T>(self, value: T) -> Parsed<T> {
        let a = self.advance();
        if a.result is Err {
            a.cast()
        } else {
            done(a.state, value)
        }
    }

    /// The symbol `token`, or else `error`.
    pub open spec fn expect(self, token: TokenView, error: ParseError) -> Parsed<()> {
        if self.current == token {
            self.advance()
        } else {
            fail(self, error)
        }
    }

    /// An identifier, or else `error`.
    pub open spec fn identifier(self, error: ParseError) -> Parsed<Seq<char>> {
        match self.current {
            TokenView::Identifier(name) => self.advance_with(name),
            _ => fail(self, error),
        }
    }

    /// A number or string literal, or else `error`.
    pub open spec fn literal(self, error: ParseError) -> Parsed<ValueView> {
        match self.current {
            TokenView::Number(n) => self.advance_with(ValueView::Number(n)),
            TokenView::String(s) => self.advance_with(ValueView::String(s)),
            _ => fail(self, error),
        }
    }

    /// A comparison operator.
    pub open spec fn operator(self) -> Parsed<ComparisonOperator> {
        match self.current {
            TokenView::Operator(op) => match operator_of(op) {
                Some(o) => self.advance_with(o),
                None => fail(self, ParseError::UnsupportedOperator),
            },
            _ => fail(self, ParseError::ExpectedOperator),
        }
    }

    /// `<column> <operator> <literal>`
    pub open spec fn condition(self) -> Parsed<ConditionView> {
        let column = self.identifier(ParseError::ExpectedColumnName);
        let op = column.state.operator();
        let value = op.state.literal(ParseError::ExpectedValue);
        if column.result is Err {
            column.cast()
        } else if op.result is Err {
            op.cast()
        } else if value.result is Err {
            value.cast()
        } else {
            done(value.state, ConditionView::Comparison(column.value(), op.value(), value.value()))
        }
    }

    /// `[WHERE <condition>]`
    pub open spec fn where_clause(self) -> Parsed<Option<ConditionView>> {
        if self.current == TokenView::Where {
            let a = self.advance();
            let c = a.state.condition();
            if a.result is Err {
                a.cast()
            } else if c.result is Err {
                c.cast()
            } else {
                done(c.state, Some(c.value()))
            }
        } else {
            done(self, None)
        }
    }

    /// The rest of a list of column names, `acc` having been read: an
    /// identifier and, after a comma, more of the same.
    pub open spec fn names_from(self, acc: Seq<Seq<char>>) -> Parsed<Seq<Seq<char>>>
        decreases self.input.len(),
    {
        let name = self.identifier(ParseError::ExpectedColumnName);
        if name.result is Err {
            name.cast()
        } else if name.state.current == TokenView::Comma {
            let b = name.state.advance();
            if b.result is Err {
                b.cast()
            } else {
                proof {
                    lemma_lex_progress(self.input);
                    lemma_lex_progress(name.state.input);
                }
                b.state.names_from(acc.push(name.value()))
            }
        } else {
            done(name.state, acc.push(name.value()))
        }
    }

    /// `* | <ident> {, <ident>}`
    pub open spec fn columns(self) -> Parsed<Seq<Seq<char>>> {
        match self.current {
            TokenView::Asterisk => self.advance_with(seq!["*"@]),
            TokenView::Identifier(_) => self.names_from(Seq::empty()),
            _ => fail(self, ParseError::ExpectedColumnNameOrStar),
        }
    }

    /// The rest of a parenthesized column list, `acc` having been read.
    pub open spec fn column_list_from(self, acc: Seq<Seq<char>>) -> Parsed<Seq<Seq<char>>>
        decreases self.input.len(),
    {
        let name = self.identifier(ParseError::ExpectedColumnName);
        if name.result is Err {
            name.cast()
        } else if name.state.current == TokenView::Comma {
            let b = name.state.advance();
            if b.result is Err {
                b.cast()
            } else {
                proof {
                    lemma_lex_progress(self.input);
                    lemma_lex_progress(name.state.input);
                }
                b.state.column_list_from(acc.push(name.value()))
            }
        } else if name.state.current == TokenView::RightParen {
            name.state.advance_with(acc.push(name.value()))
        } else {
            fail(name.state, ParseError::ExpectedCommaOrRightParen)
        }
    }

    /// `( <ident> {, <ident>} )`, the lookahead being the opening parenthesis.
    pub open spec fn column_list(self) -> Parsed<Seq<Seq<char>>> {
        let a = self.advance();
        if a.result is Err {
            a.cast()
        } else {
            a.state.column_list_from(Seq::empty())
        }
    }

    /// The rest of a value list, `acc` having been read.
    pub open spec fn values_from(self, acc: Seq<ValueView>) -> Parsed<Seq<ValueView>>
        decreases self.input.len(),
    {
        let value = self.literal(ParseError::ExpectedValue);
        if value.result is Err {
            value.cast()
        } else if value.state.current == TokenView::Comma {
            let b = value.state.advance();
            if b.result is Err {
                b.cast()
            } else {
                proof {
                    lemma_lex_progress(self.input);
                    lemma_lex_progress(value.state.input);
                }
                b.state.values_from(acc.push(value.value()))
            }
        } else if value.state.current == TokenView::RightParen {
            value.state.advance_with(acc.push(value.value()))
        } else {
            fail(value.state, ParseError::ExpectedCommaOrRightParen)
        }
    }

    /// `( <literal> {, <literal>} )`
    pub open spec fn value_list(self) -> Parsed<Seq<ValueView>> {
        let open = self.expect(TokenView::LeftParen, ParseError::ExpectedLeftParen);
        if open.result is Err {
            open.cast()
        } else {
            open.state.values_from(Seq::empty())
        }
    }

    /// `<ident> = <literal>`
    pub open spec fn assignment(self) -> Parsed<(Seq<char>, ValueView)> {
        let column = self.identifier(ParseError::ExpectedColumnName);
        let is_equals = column.state.current == TokenView::Operator("="@);
        let eq = column.state.advance();
        let value = eq.state.literal(ParseError::ExpectedValue);
        if column.result is Err {
            column.cast()
        } else if !is_equals {
            fail(column.state, ParseError::ExpectedAssignment)
        } else if eq.result is Err {
            eq.cast()
        } else if value.result is Err {
            value.cast()
        } else {
            done(value.state, (column.value(), value.value()))
        }
    }

    /// The rest of an assignment list, `acc` having been read.
    pub open spec fn update_list_from(self, acc: Seq<(Seq<char>, ValueView)>) -> Parsed<
        Seq<(Seq<char>, ValueView)>,
    >
        decreases self.input.len(),
    {
        let item = self.assignment();
        if item.result is Err {
            item.cast()
        } else if item.state.current == TokenView::Comma {
            let b = item.state.advance();
            if b.result is Err {
                b.cast()
            } else {
                proof {
                    lemma_assignment_progress(self);
                    lemma_lex_progress(item.state.input);
                }
                b.state.update_list_from(acc.push(item.value()))
            }
        } else {
            done(item.state, acc.push(item.value()))
        }
    }

    /// `<ident> = <literal> {, <ident> = <literal>}`
    pub open spec fn update_list(self) -> Parsed<Seq<(Seq<char>, ValueView)>> {
        self.update_list_from(Seq::empty())
    }

    /// `[ASC | DESC]`, ascending where neither stands.
    pub open spec fn direction(self) -> Parsed<OrderDirection> {
        if self.current == TokenView::Asc {
            self.advance_with(OrderDirection::Asc)
        } else if self.current == TokenView::Desc {
            self.advance_with(OrderDirection::Desc)
        } else {
            done(self, OrderDirection::Asc)
        }
    }

    /// `<ident> [ASC | DESC]`
    pub open spec fn order_key(self) -> Parsed<OrderByView> {
        let column = self.identifier(ParseError::ExpectedColumnName);
        let order = column.state.direction();
        if column.result is Err {
            column.cast()
        } else if order.result is Err {
            order.cast()
        } else {
            done(order.state, OrderByView { column: column.value(), order: order.value() })
        }
    }

    /// The rest of an ORDER BY list, `acc` having been read.
    pub open spec fn order_by_from(self, acc: Seq<OrderByView>) -> Parsed<Seq<OrderByView>>
        decreases self.input.len(),
    {
        let key = self.order_key();
        if key.result is Err {
            key.cast()
        } else if key.state.current == TokenView::Comma {
            let b = key.state.advance();
            if b.result is Err {
                b.cast()
            } else {
                proof {
                    lemma_order_key_progress(self);
                    lemma_lex_progress(key.state.input);
                }
                b.state.order_by_from(acc.push(key.value()))
            }
        } else {
            done(key.state, acc.push(key.value()))
        }
    }

    /// `ORDER BY <ident> [ASC | DESC] {, ...}`, the lookahead being `ORDER`.
    pub open spec fn order_by(self) -> Parsed<Seq<OrderByView>> {
        let a = self.advance();
        let by = a.state.expect(TokenView::By, ParseError::ExpectedBy);
        if a.result is Err {
            a.cast()
        } else if by.result is Err {
            by.cast()
        } else {
            by.state.order_by_from(Seq::empty())
        }
    }

    /// `[ORDER BY ...]`, the empty list where it is absent.
    pub open spec fn order_clause(self) -> Parsed<Seq<OrderByView>> {
        if self.current == TokenView::Order {
            self.order_by()
        } else {
            done(self, Seq::empty())
        }
    }

    /// `SELECT <columns> FROM <ident> [WHERE <condition>] [ORDER BY ...]`
    pub open spec fn select(self) -> Parsed<AstView> {
        let a = self.advance();
        let columns = a.state.columns();
        let from = columns.state.expect(TokenView::From, ParseError::ExpectedFrom);
        let table = from.state.identifier(ParseError::ExpectedTableName);
        let condition = table.state.where_clause();
        let order = condition.state.order_clause();
        if a.result is Err {
            a.cast()
        } else if columns.result is Err {
            columns.cast()
        } else if from.result is Err {
            from.cast()
        } else if table.result is Err {
            table.cast()
        } else if condition.result is Err {
            condition.cast()
        } else if order.result is Err {
            order.cast()
        } else {
            done(
                order.state,
                AstView::Select(
                    SelectView {
                        columns: columns.value(),
                        table: table.value(),
                        condition: condition.value(),
                        order_by: order.value(),
                    },
                ),
            )
        }
    }

    /// `[( <column list> )]`, the empty list where it is absent.
    pub open spec fn optional_column_list(self) -> Parsed<Seq<Seq<char>>> {
        if self.current == TokenView::LeftParen {
            self.column_list()
        } else {
            done(self, Seq::empty())
        }
    }

    /// `INSERT INTO <ident> [( <column list> )] VALUES ( <value list> )`;
    /// columns, where named, must be as many as the values.
    pub open spec fn insert(self) -> Parsed<AstView> {
        let a = self.advance();
        let into = a.state.expect(TokenView::Into, ParseError::ExpectedInto);
        let table = into.state.identifier(ParseError::ExpectedTableName);
        let columns = table.state.optional_column_list();
        let keyword = columns.state.expect(TokenView::Values, ParseError::ExpectedValues);
        let values = keyword.state.value_list();
        if a.result is Err {
            a.cast()
        } else if into.result is Err {
            into.cast()
        } else if table.result is Err {
            table.cast()
        } else if columns.result is Err {
            columns.cast()
        } else if keyword.result is Err {
            keyword.cast()
        } else if values.result is Err {
            values.cast()
        } else if columns.value().len() > 0 && columns.value().len() != values.value().len() {
            fail(values.state, ParseError::ColumnValueCountMismatch)
        } else {
            done(
                values.state,
                AstView::Insert(
                    InsertView {
                        table: table.value(),
                        columns: columns.value(),
                        values: values.value(),
                    },
                ),
            )
        }
    }

    /// `UPDATE <ident> SET <assignments> [WHERE <condition>]`
    pub open spec fn update(self) -> Parsed<AstView> {
        let a = self.advance();
        let table = a.state.identifier(ParseError::ExpectedTableName);
        let keyword = table.state.expect(TokenView::SetKeyword, ParseError::ExpectedSet);
        let updates = keyword.state.update_list();
        let condition = updates.state.where_clause();
        if a.result is Err {
            a.cast()
        } else if table.result is Err {
            table.cast()
        } else if keyword.result is Err {
            keyword.cast()
        } else if updates.result is Err {
            updates.cast()
        } else if condition.result is Err {
            condition.cast()
        } else {
            done(
                condition.state,
                AstView::Update(
                    UpdateView {
                        table: table.value(),
                        updates: updates.value(),
                        condition: condition.value(),
                    },
                ),
            )
        }
    }

    /// `DELETE FROM <ident> [WHERE <condition>]`
    pub open spec fn delete(self) -> Parsed<AstView> {
        let a = self.advance();
        let from = a.state.expect(TokenView::From, ParseError::ExpectedFrom);
        let table = from.state.identifier(ParseError::ExpectedTableName);
        let condition = table.state.where_clause();
        if a.result is Err {
            a.cast()
        } else if from.result is Err {
            from.cast()
        } else if table.result is Err {
            table.cast()
        } else if condition.result is Err {
            condition.cast()
        } else {
            done(
                condition.state,
                AstView::Delete(DeleteView { table: table.value(), condition: condition.value() }),
            )
        }
    }

    /// One statement, chosen by its first token.
    pub open spec fn statement(self) -> Parsed<AstView> {
        match self.current {
            TokenView::Select => self.select(),
            TokenView::Insert => self.insert(),
            TokenView::Delete => self.delete(),
            TokenView::Update => self.update(),
            _ => fail(self, ParseError::UnexpectedToken),
        }
    }
}

/// An assignment that is followed by a comma has consumed input.
pub proof fn lemma_assignment_progress(st: ParserView)
    ensures
        st.assignment().result is Ok && st.assignment().state.current == TokenView::Comma
            ==> st.assignment().state.input.len() < st.input.len(),
{
    let column = st.identifier(ParseError::ExpectedColumnName);
    let eq = column.state.advance();
    lemma_lex_progress(st.input);
    lemma_lex_progress(column.state.input);
    lemma_lex_progress(eq.state.input);
}

/// An ordering key that is followed by a comma has consumed input.
pub proof fn lemma_order_key_progress(st: ParserView)
    ensures
        st.order_key().result is Ok && st.order_key().state.current == TokenView::Comma
            ==> st.order_key().state.input.len() < st.input.len(),
{
    let column = st.identifier(ParseError::ExpectedColumnName);
    lemma_lex_progress(st.input);
    lemma_lex_progress(column.state.input);
}

/// What a rule returned, as mathematics.
pub open spec fn ast_outcome(r: Result<ASTNode, ParseError>) -> Result<AstView, ParseError> {
    match r {
        Ok(node) => Ok(node@),
        Err(e) => Err(e),
    }
}

pub open spec fn names_outcome(r: Result<Vec<String>, ParseError>) -> Result<
    Seq<Seq<char>>,
    ParseError,
> {
    match r {
        Ok(names) => Ok(names_view(names@)),
        Err(e) => Err(e),
    }
}

pub open spec fn values_outcome(r: Result<Vec<Value>, ParseError>) -> Result<
    Seq<ValueView>,
    ParseError,
> {
    match r {
        Ok(values) => Ok(values_view(values@)),
        Err(e) => Err(e),
    }
}

pub open spec fn updates_outcome(r: Result<Vec<(String, Value)>, ParseError>) -> Result<
    Seq<(Seq<char>, ValueView)>,
    ParseError,
> {
    match r {
        Ok(updates) => Ok(updates_view(updates@)),
        Err(e) => Err(e),
    }
}

pub open spec fn order_outcome(r: Result<Vec<OrderByClause>, ParseError>) -> Result<
    Seq<OrderByView>,
    ParseError,
> {
    match r {
        Ok(clauses) => Ok(order_by_view(clauses@)),
        Err(e) => Err(e),
    }
}

pub open spec fn condition_outcome(r: Result<Condition, ParseError>) -> Result<
    ConditionView,
    ParseError,
> {
    match r {
        Ok(c) => Ok(c@),
        Err(e) => Err(e),
    }
}

/// Whether `token` is the symbol `symbol`.
fn is_symbol_token(token: &Token, symbol: &Token) -> (same: bool)
    requires
        is_symbol(symbol@),
    ensures
        same == (token@ == symbol@),
{
    match symbol {
        Token::Select => matches!(token, Token::Select),
        Token::Insert => matches!(token, Token::Insert),
        Token::Delete => matches!(token, Token::Delete),
        Token::Update => matches!(token, Token::Update),
        Token::Into => matches!(token, Token::Into),
        Token::SetKeyword => matches!(token, Token::SetKeyword),
        Token::Values => matches!(token, Token::Values),
        Token::From => matches!(token, Token::From),
        Token::Where => matches!(token, Token::Where),
        Token::Order => matches!(token, Token::Order),
        Token::By => matches!(token, Token::By),
        Token::Comma => matches!(token, Token::Comma),
        Token::Asterisk => matches!(token, Token::Asterisk),
        Token::LeftParen => matches!(token, Token::LeftParen),
        Token::RightParen => matches!(token, Token::RightParen),
        Token::Asc => matches!(token, Token::Asc),
        Token::Desc => matches!(token, Token::Desc),
        Token::EOF => matches!(token, Token::EOF),
        _ => false,
    }
}

/// A parser over the tokens of a lexer.
pub struct Parser {
    lexer: Lexer,
    current_token: Token,
}

impl View for Parser {
    type V = ParserView;

    closed spec fn view(&self) -> ParserView {
        ParserView { current: self.current_token@, input: self.lexer@ }
    }
}

impl Parser {
    /// A parser whose lookahead is the first token of `lexer`.
    pub fn new(lexer: Lexer) -> (r: Result<Parser, ParseError>)
        ensures
            match lex(lexer@).token {
                Ok(t) => r matches Ok(p) && p@ == (ParserView {
                    current: t,
                    input: lex(lexer@).rest,
                }),
                Err(e) => r matches Err(error) && error == ParseError::Lexical(e),
            },
    {
        let mut parser = Parser { lexer, current_token: Token::EOF };
        match parser.advance() {
            Ok(()) => Ok(parser),
            Err(e) => Err(e),
        }
    }

    fn advance(&mut self) -> (r: Result<(), ParseError>)
        ensures
            final(self)@ == old(self)@.advance().state,
            r == old(self)@.advance().result,
    {
        match self.lexer.next_token() {
            Ok(token) => {
                self.current_token = token;
                Ok(())
            },
            Err(e) => Err(ParseError::Lexical(e)),
        }
    }

    fn at(&self, symbol: &Token) -> (same: bool)
        requires
            is_symbol(symbol@),
        ensures
            same == (self@.current == symbol@),
    {
        is_symbol_token(&self.current_token, symbol)
    }

    fn expect(&mut self, symbol: &Token, error: ParseError) -> (r: Result<(), ParseError>)
        requires
            is_symbol(symbol@),
        ensures
            final(self)@ == old(self)@.expect(symbol@, error).state,
            r == old(self)@.expect(symbol@, error).result,
    {
        if self.at(symbol) {
            self.advance()
        } else {
            Err(error)
        }
    }

    fn identifier(&mut self, error: ParseError) -> (r: Result<String, ParseError>)
        ensures
            final(self)@ == old(self)@.identifier(error).state,
            match r {
                Ok(name) => old(self)@.identifier(error).result == Ok::<Seq<char>, ParseError>(
                    name@,
                ),
                Err(e) => old(self)@.identifier(error).result == Err::<Seq<char>, ParseError>(e),
            },
    {
        let name = match &self.current_token {
            Token::Identifier(name) => name.clone(),
            _ => {
                return Err(error);
            },
        };
        self.advance()?;
        Ok(name)
    }

    fn literal(&mut self, error: ParseError) -> (r: Result<Value, ParseError>)
        ensures
            final(self)@ == old(self)@.literal(error).state,
            match r {
                Ok(value) => old(self)@.literal(error).result == Ok::<ValueView, ParseError>(
                    value@,
                ),
                Err(e) => old(self)@.literal(error).result == Err::<ValueView, ParseError>(e),
            },
    {
        let value = match &self.current_token {
            Token::Number(n) => Value::Number(n.clone()),
            Token::String(s) => Value::String(s.clone()),
            _ => {
                return Err(error);
            },
        };
        self.advance()?;
        Ok(value)
    }

    fn operator(&mut self) -> (r: Result<ComparisonOperator, ParseError>)
        ensures
            final(self)@ == old(self)@.operator().state,
            r == old(self)@.operator().result,
    {
        let operator = match &self.current_token {
            Token::Operator(op) => {
                let lexeme = op.as_str();
                if str::eq(lexeme, "=") {
                    ComparisonOperator::Equals
                } else if str::eq(lexeme, "<>") {
                    ComparisonOperator::NotEquals
                } else if str::eq(lexeme, ">") {
                    ComparisonOperator::GreaterThan
                } else if str::eq(lexeme, "<") {
                    ComparisonOperator::LessThan
                } else if str::eq(lexeme, ">=") {
                    ComparisonOperator::GreaterEqualThan
                } else if str::eq(lexeme, "<=") {
                    ComparisonOperator::LessEqualThan
                } else {
                    return Err(ParseError::UnsupportedOperator);
                }
            },
            _ => {
                return Err(ParseError::ExpectedOperator);
            },
        };
        self.advance()?;
        Ok(operator)
    }

    /// Parses one statement, chosen by the lookahead.
    pub fn parse(&mut self) -> (r: Result<ASTNode, ParseError>)
        ensures
            final(self)@ == old(self)@.statement().state,
            ast_outcome(r) == old(self)@.statement().result,
    {
        match self.current_token {
            Token::Select => self.parse_select(),
            Token::Insert => self.parse_insert(),
            Token::Delete => self.parse_delete(),
            Token::Update => self.parse_update(),
            _ => Err(ParseError::UnexpectedToken),
        }
    }

    /// Parses a SELECT statement, the lookahead being `SELECT`.
    pub fn parse_select(&mut self) -> (r: Result<ASTNode, ParseError>)
        ensures
            final(self)@ == old(self)@.select().state,
            ast_outcome(r) == old(self)@.select().result,
    {
        self.advance()?;
        let columns = self.parse_columns()?;
        self.expect(&Token::From, ParseError::ExpectedFrom)?;
        let table = self.identifier(ParseError::ExpectedTableName)?;
        let condition = self.parse_where()?;
        let ghost before = self@;
        let order_by = if self.at(&Token::Order) {
            self.parse_order_by()?
        } else {
            Vec::new()
        };
        assert(order_by_view(order_by@) == before.order_clause().value());
        Ok(ASTNode::Select(SelectStatement { columns, table, condition, order_by }))
    }

    /// Parses an INSERT statement, the lookahead being `INSERT`.
    pub fn parse_insert(&mut self) -> (r: Result<ASTNode, ParseError>)
        ensures
            final(self)@ == old(self)@.insert().state,
            ast_outcome(r) == old(self)@.insert().result,
    {
        self.advance()?;
        self.expect(&Token::Into, ParseError::ExpectedInto)?;
        let table = self.identifier(ParseError::ExpectedTableName)?;
        let ghost before = self@;
        let columns = if self.at(&Token::LeftParen) {
            self.parse_column_list()?
        } else {
            Vec::new()
        };
        assert(names_view(columns@) == before.optional_column_list().value());
        self.expect(&Token::Values, ParseError::ExpectedValues)?;
        let values = self.parse_value_list()?;
        if columns.len() > 0 && columns.len() != values.len() {
            return Err(ParseError::ColumnValueCountMismatch);
        }
        Ok(ASTNode::Insert(InsertStatement { table, columns, values }))
    }

    /// Parses an UPDATE statement, the lookahead being `UPDATE`.
    pub fn parse_update(&mut self) -> (r: Result<ASTNode, ParseError>)
        ensures
            final(self)@ == old(self)@.update().state,
            ast_outcome(r) == old(self)@.update().result,
    {
        self.advance()?;
        let table = self.identifier(ParseError::ExpectedTableName)?;
        self.expect(&Token::SetKeyword, ParseError::ExpectedSet)?;
        let updates = self.parse_update_list()?;
        let condition = self.parse_where()?;
        Ok(ASTNode::Update(UpdateStatement { table, updates, condition }))
    }

    fn parse_assignment(&mut self) -> (r: Result<(String, Value), ParseError>)
        ensures
            final(self)@ == old(self)@.assignment().state,
            match r {
                Ok(pair) => old(self)@.assignment().result == Ok::<
                    (Seq<char>, ValueView),
                    ParseError,
                >((pair.0@, pair.1@)),
                Err(e) => old(self)@.assignment().result == Err::<
                    (Seq<char>, ValueView),
                    ParseError,
                >(e),
            },
    {
        let column = self.identifier(ParseError::ExpectedColumnName)?;
        let is_equals = match &self.current_token {
            Token::Operator(op) => str::eq(op.as_str(), "="),
            _ => false,
        };
        if !is_equals {
            return Err(ParseError::ExpectedAssignment);
        }
        self.advance()?;
        let value = self.literal(ParseError::ExpectedValue)?;
        Ok((column, value))
    }

    /// Parses the assignments of an UPDATE statement.
    #[verifier::loop_isolation(false)]
    pub fn parse_update_list(&mut self) -> (r: Result<Vec<(String, Value)>, ParseError>)
        ensures
            final(self)@ == old(self)@.update_list().state,
            updates_outcome(r) == old(self)@.update_list().result,
    {
        let ghost start = self@;
        let mut updates: Vec<(String, Value)> = Vec::new();
        assert(updates_view(updates@) == Seq::<(Seq<char>, ValueView)>::empty());
        loop
            invariant
                start == old(self)@,
                start.update_list() == self@.update_list_from(updates_view(updates@)),
            decreases self@.input.len(),
        {
            let ghost acc = updates_view(updates@);
            let ghost here = self@;
            proof {
                lemma_assignment_progress(here);
            }
            let pair = self.parse_assignment()?;
            let ghost item = (pair.0@, pair.1@);
            updates.push(pair);
            assert(updates_view(updates@) == acc.push(item));
            if !self.at(&Token::Comma) {
                return Ok(updates);
            }
            proof {
                lemma_lex_progress(self@.input);
            }
            self.advance()?;
        }
    }

    /// Parses a DELETE statement, the lookahead being `DELETE`.
    pub fn parse_delete(&mut self) -> (r: Result<ASTNode, ParseError>)
        ensures
            final(self)@ == old(self)@.delete().state,
            ast_outcome(r) == old(self)@.delete().result,
    {
        self.advance()?;
        self.expect(&Token::From, ParseError::ExpectedFrom)?;
        let table = self.identifier(ParseError::ExpectedTableName)?;
        let condition = self.parse_where()?;
        Ok(ASTNode::Delete(DeleteStatement { table, condition }))
    }

    /// Parses a select list: `*`, or column names separated by commas.
    #[verifier::loop_isolation(false)]
    pub fn parse_columns(&mut self) -> (r: Result<Vec<String>, ParseError>)
        ensures
            final(self)@ == old(self)@.columns().state,
            names_outcome(r) == old(self)@.columns().result,
    {
        let mut columns: Vec<String> = Vec::new();
        match self.current_token {
            Token::Asterisk => {
                columns.push("*".to_owned());
                assert(names_view(columns@) == seq!["*"@]);
                self.advance()?;
                return Ok(columns);
            },
            Token::Identifier(_) => {},
            _ => {
                return Err(ParseError::ExpectedColumnNameOrStar);
            },
        }
        assert(names_view(columns@) == Seq::<Seq<char>>::empty());
        loop
            invariant
                old(self)@.columns() == self@.names_from(names_view(columns@)),
            decreases self@.input.len(),
        {
            let ghost acc = names_view(columns@);
            proof {
                lemma_lex_progress(self@.input);
            }
            let name = self.identifier(ParseError::ExpectedColumnName)?;
            let ghost name_view = name@;
            columns.push(name);
            assert(names_view(columns@) == acc.push(name_view));
            if !self.at(&Token::Comma) {
                return Ok(columns);
            }
            proof {
                lemma_lex_progress(self@.input);
            }
            self.advance()?;
        }
    }

    /// Parses a parenthesized column list, the lookahead being the opening
    /// parenthesis.
    #[verifier::loop_isolation(false)]
    pub fn parse_column_list(&mut self) -> (r: Result<Vec<String>, ParseError>)
        ensures
            final(self)@ == old(self)@.column_list().state,
            names_outcome(r) == old(self)@.column_list().result,
    {
        self.advance()?;
        let mut columns: Vec<String> = Vec::new();
        assert(names_view(columns@) == Seq::<Seq<char>>::empty());
        loop
            invariant
                old(self)@.column_list() == self@.column_list_from(names_view(columns@)),
            decreases self@.input.len(),
        {
            let ghost acc = names_view(columns@);
            proof {
                lemma_lex_progress(self@.input);
            }
            let name = self.identifier(ParseError::ExpectedColumnName)?;
            let ghost name_view = name@;
            columns.push(name);
            assert(names_view(columns@) == acc.push(name_view));
            if self.at(&Token::Comma) {
                proof {
                    lemma_lex_progress(self@.input);
                }
                self.advance()?;
            } else if self.at(&Token::RightParen) {
                self.advance()?;
                return Ok(columns);
            } else {
                return Err(ParseError::ExpectedCommaOrRightParen);
            }
        }
    }

    /// Parses a parenthesized list of literals.
    #[verifier::loop_isolation(false)]
    pub fn parse_value_list(&mut self) -> (r: Result<Vec<Value>, ParseError>)
        ensures
            final(self)@ == old(self)@.value_list().state,
            values_outcome(r) == old(self)@.value_list().result,
    {
        self.expect(&Token::LeftParen, ParseError::ExpectedLeftParen)?;
        let mut values: Vec<Value> = Vec::new();
        assert(values_view(values@) == Seq::<ValueView>::empty());
        loop
            invariant
                old(self)@.value_list() == self@.values_from(values_view(values@)),
            decreases self@.input.len(),
        {
            let ghost acc = values_view(values@);
            proof {
                lemma_lex_progress(self@.input);
            }
            let value = self.literal(ParseError::ExpectedValue)?;
            let ghost value_view = value@;
            values.push(value);
            assert(values_view(values@) == acc.push(value_view));
            if self.at(&Token::Comma) {
                proof {
                    lemma_lex_progress(self@.input);
                }
                self.advance()?;
            } else if self.at(&Token::RightParen) {
                self.advance()?;
                return Ok(values);
            } else {
                return Err(ParseError::ExpectedCommaOrRightParen);
            }
        }
    }

    /// Parses `<column> <operator> <literal>`.
    pub fn parse_condition(&mut self) -> (r: Result<Condition, ParseError>)
        ensures
            final(self)@ == old(self)@.condition().state,
            condition_outcome(r) == old(self)@.condition().result,
    {
        let column = self.identifier(ParseError::ExpectedColumnName)?;
        let operator = self.operator()?;
        let value = self.literal(ParseError::ExpectedValue)?;
        Ok(Condition::Comparison(column, operator, value))
    }

    fn parse_where(&mut self) -> (r: Result<Option<Condition>, ParseError>)
        ensures
            final(self)@ == old(self)@.where_clause().state,
            match r {
                Ok(c) => old(self)@.where_clause().result == Ok::<
                    Option<ConditionView>,
                    ParseError,
                >(crate::ast::condition_view(c)),
                Err(e) => old(self)@.where_clause().result == Err::<
                    Option<ConditionView>,
                    ParseError,
                >(e),
            },
    {
        if self.at(&Token::Where) {
            self.advance()?;
            let condition = self.parse_condition()?;
            Ok(Some(condition))
        } else {
            Ok(None)
        }
    }

    fn parse_order_key(&mut self) -> (r: Result<OrderByClause, ParseError>)
        ensures
            final(self)@ == old(self)@.order_key().state,
            match r {
                Ok(clause) => old(self)@.order_key().result == Ok::<OrderByView, ParseError>(
                    clause@,
                ),
                Err(e) => old(self)@.order_key().result == Err::<OrderByView, ParseError>(e),
            },
    {
        let column = self.identifier(ParseError::ExpectedColumnName)?;
        let order = if self.at(&Token::Asc) {
            self.advance()?;
            OrderDirection::Asc
        } else if self.at(&Token::Desc) {
            self.advance()?;
            OrderDirection::Desc
        } else {
            OrderDirection::Asc
        };
        Ok(OrderByClause { column, order })
    }

    #[verifier::loop_isolation(false)]
    fn parse_order_by(&mut self) -> (r: Result<Vec<OrderByClause>, ParseError>)
        ensures
            final(self)@ == old(self)@.order_by().state,
            order_outcome(r) == old(self)@.order_by().result,
    {
        self.advance()?;
        self.expect(&Token::By, ParseError::ExpectedBy)?;
        let mut clauses: Vec<OrderByClause> = Vec::new();
        assert(order_by_view(clauses@) == Seq::<OrderByView>::empty());
        loop
            invariant
                old(self)@.order_by() == self@.order_by_from(order_by_view(clauses@)),
            decreases self@.input.len(),
        {
            let ghost acc = order_by_view(clauses@);
            proof {
                lemma_order_key_progress(self@);
            }
            let clause = self.parse_order_key()?;
            let ghost clause_view = clause@;
            clauses.push(clause);
            assert(order_by_view(clauses@) == acc.push(clause_view));
            if !self.at(&Token::Comma) {
                return Ok(clauses);
            }
            proof {
                lemma_lex_progress(self@.input);
            }
            self.advance()?;
        }
    }
}

/// The statement that a text spells, or why it spells none.
pub open spec fn parse_text(text: Seq<char>) -> Result<AstView, ParseError> {
    match lex(text).token {
        Err(e) => Err(ParseError::Lexical(e)),
        Ok(t) => (ParserView { current: t, input: lex(text).rest }).statement().result,
    }
}

/// Parses one statement from its text.
pub fn parse_sql(sql: &str) -> (r: Result<ASTNode, ParseError>)
    ensures
        ast_outcome(r) == parse_text(sql@),
{
    let lexer = Lexer::new(sql);
    let mut parser = Parser::new(lexer)?;
    parser.parse()
}

} // verus!
