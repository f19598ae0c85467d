//! The syntax tree of a statement, and its mathematical content.

use vstd::prelude::*;
use crate::decimal::{Decimal, DecimalView};
use crate::text::names_view;

verus! {

/// A parsed statement.
#[derive(Debug, PartialEq)]
pub enum ASTNode {
    Select(SelectStatement),
    Insert(InsertStatement),
    Delete(DeleteStatement),
    Update(UpdateStatement),
}

#[derive(Debug, PartialEq)]
pub struct SelectStatement {
    pub columns: Vec<String>,
    pub table: String,
    pub condition: Option<Condition>,
    pub order_by: Vec<OrderByClause>,
}

#[derive(Debug, PartialEq)]
pub struct InsertStatement {
    pub table: String,
    pub columns: Vec<String>,
    pub values: Vec<Value>,
}

#[derive(Debug, PartialEq)]
pub struct UpdateStatement {
    pub table: String,
    pub updates: Vec<(String, Value)>,
    pub condition: Option<Condition>,
}

#[derive(Debug, PartialEq)]
pub struct DeleteStatement {
    pub table: String,
    pub condition: Option<Condition>,
}

/// The one shape of predicate: a column compared with a literal.
#[derive(Debug, PartialEq)]
pub enum Condition {
    Comparison(String, ComparisonOperator, Value),
}

#[derive(Debug, PartialEq, Eq, Clone, Copy, Structural)]
pub enum ComparisonOperator {
    Equals,
    NotEquals,
    GreaterThan,
    LessThan,
    GreaterEqualThan,
    LessEqualThan,
}

/// A literal of the language.
#[derive(Debug, PartialEq)]
pub enum Value {
    Number(Decimal),
    String(String),
}

#[derive(Debug, PartialEq)]
pub struct OrderByClause {
    pub column: String,
    pub order: OrderDirection,
}

#[derive(Debug, PartialEq, Eq, Clone, Copy, Structural)]
pub enum OrderDirection {
    Asc,
    Desc,
}

pub enum ValueView {
    Number(DecimalView),
    String(Seq<char>),
}

pub enum ConditionView {
    Comparison(Seq<char>, ComparisonOperator, ValueView),
}

pub struct OrderByView {
    pub column: Seq<char>,
    pub order: OrderDirection,
}

pub struct SelectView {
    pub columns: Seq<Seq<char>>,
    pub table: Seq<char>,
    pub condition: Option<ConditionView>,
    pub order_by: Seq<OrderByView>,
}

pub struct InsertView {
    pub table: Seq<char>,
    pub columns: Seq<Seq<char>>,
    pub values: Seq<ValueView>,
}

pub struct UpdateView {
    pub table: Seq<char>,
    pub updates: Seq<(Seq<char>, ValueView)>,
    pub condition: Option<ConditionView>,
}

pub struct DeleteView {
    pub table: Seq<char>,
    pub condition: Option<ConditionView>,
}

pub enum AstView {
    Select(SelectView),
    Insert(InsertView),
    Delete(DeleteView),
    Update(UpdateView),
}

impl View for Value {
    type V = ValueView;

    open spec fn view(&self) -> ValueView {
        match self {
            Value::Number(n) => ValueView::Number(n@),
            Value::String(s) => ValueView::String(s@),
        }
    }
}

impl Clone for Value {
    fn clone(&self) -> (r: Self)
        ensures
            r@ == self@,
    {
        match self {
            Value::Number(n) => Value::Number(n.clone()),
            Value::String(s) => Value::String(s.clone()),
        }
    }
}

impl View for Condition {
    type V = ConditionView;

    open spec fn view(&self) -> ConditionView {
        match self {
            Condition::Comparison(column, op, value) => ConditionView::Comparison(
                column@,
                *op,
                value@,
            ),
        }
    }
}

impl View for OrderByClause {
    type V = OrderByView;

    open spec fn view(&self) -> OrderByView {
        OrderByView { column: self.column@, order: self.order }
    }
}

/// The contents of a list of literals.
pub open spec fn values_view(values: Seq<Value>) -> Seq<ValueView> {
    Seq::new(values.len(), |i: int| values[i]@)
}

/// The contents of a list of assignments.
pub open spec fn updates_view(updates: Seq<(String, Value)>) -> Seq<(Seq<char>, ValueView)> {
    Seq::new(updates.len(), |i: int| (updates[i].0@, updates[i].1@))
}

/// The contents of a list of ordering clauses.
pub open spec fn order_by_view(clauses: Seq<OrderByClause>) -> Seq<OrderByView> {
    Seq::new(clauses.len(), |i: int| clauses[i]@)
}

/// The content of an optional condition.
pub open spec fn condition_view(condition: Option<Condition>) -> Option<ConditionView> {
    match condition {
        Some(c) => Some(c@),
        None => None,
    }
}

impl View for SelectStatement {
    type V = SelectView;

    open spec fn view(&self) -> SelectView {
        SelectView {
            columns: names_view(self.columns@),
            table: self.table@,
            condition: condition_view(self.condition),
            order_by: order_by_view(self.order_by@),
        }
    }
}

impl View for InsertStatement {
    type V = InsertView;

    open spec fn view(&self) -> InsertView {
        InsertView {
            table: self.table@,
            columns: names_view(self.columns@),
            values: values_view(self.values@),
        }
    }
}

impl View for UpdateStatement {
    type V = UpdateView;

    open spec fn view(&self) -> UpdateView {
        UpdateView {
            table: self.table@,
            updates: updates_view(self.updates@),
            condition: condition_view(self.condition),
        }
    }
}

impl View for DeleteStatement {
    type V = DeleteView;

    open spec fn view(&self) -> DeleteView {
        DeleteView { table: self.table@, condition: condition_view(self.condition) }
    }
}

impl View for ASTNode {
    type V = AstView;

    open spec fn view(&self) -> AstView {
        match self {
            ASTNode::Select(s) => AstView::Select(s@),
            ASTNode::Insert(s) => AstView::Insert(s@),
            ASTNode::Delete(s) => AstView::Delete(s@),
            ASTNode::Update(s) => AstView::Update(s@),
        }
    }
}

impl AstView {
    /// The table that the statement is about.
    pub open spec fn table(self) -> Seq<char> {
        match self {
            AstView::Select(s) => s.table,
            AstView::Insert(s) => s.table,
            AstView::Delete(s) => s.table,
            AstView::Update(s) => s.table,
        }
    }
}

impl ASTNode {
    /// The name of the table that the statement is about.
    pub fn table(&self) -> (name: &String)
        ensures
            name@ == self@.table(),
    {
        match self {
            ASTNode::Select(s) => &s.table,
            ASTNode::Insert(s) => &s.table,
            ASTNode::Delete(s) => &s.table,
            ASTNode::Update(s) => &s.table,
        }
    }
}

} // verus!
