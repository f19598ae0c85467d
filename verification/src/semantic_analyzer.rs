//! Validation of a statement against the schema, before anything is executed.

use vstd::prelude::*;
use crate::ast::{
    order_by_view, updates_view, ASTNode, AstView, Condition, ConditionView, DeleteStatement,
    DeleteView, InsertStatement, InsertView, OrderByView, SelectStatement, SelectView,
    UpdateStatement, UpdateView, ValueView,
};
use crate::ordered_map::{has_key, lookup};
use crate::schema::{ColumnType, DatabaseSchema, DatabaseView, TableSchema, TableView};
use crate::text::names_view;

verus! {

/// Why a statement does not fit the schema; each error names the offender.
#[derive(Debug, PartialEq)]
pub enum SemanticError {
    TableNotFound(String),
    ColumnNotFound(String),
    TypeMismatch(String),
}

pub enum SemanticErrorView {
    TableNotFound(Seq<char>),
    ColumnNotFound(Seq<char>),
    TypeMismatch(Seq<char>),
}

impl View for SemanticError {
    type V = SemanticErrorView;

    open spec fn view(&self) -> SemanticErrorView {
        match self {
            SemanticError::TableNotFound(name) => SemanticErrorView::TableNotFound(name@),
            SemanticError::ColumnNotFound(name) => SemanticErrorView::ColumnNotFound(name@),
            SemanticError::TypeMismatch(name) => SemanticErrorView::TypeMismatch(name@),
        }
    }
}

/// What an analysis returned, as mathematics.
pub open spec fn verdict(r: Result<(), SemanticError>) -> Result<(), SemanticErrorView> {
    match r {
        Ok(()) => Ok(()),
        Err(e) => Err(e@),
    }
}

/// Whether a literal may be compared with a column of type `ty`: numbers with
/// integer and float columns, strings with string columns, nothing else.
pub open spec fn compatible(ty: ColumnType, value: ValueView) -> bool {
    match (ty, value) {
        (ColumnType::Integer, ValueView::Number(_)) => true,
        (ColumnType::Float, ValueView::Number(_)) => true,
        (ColumnType::String, ValueView::String(_)) => true,
        _ => false,
    }
}

/// A condition fits a table if its column exists and its literal is
/// compatible with the column's type.
pub open spec fn check_condition(table: TableView, condition: ConditionView) -> Result<
    (),
    SemanticErrorView,
> {
    match condition {
        ConditionView::Comparison(column, _, value) => match lookup(table, column) {
            None => Err(SemanticErrorView::ColumnNotFound(column)),
            Some(ty) => if compatible(ty, value) {
                Ok(())
            } else {
                Err(SemanticErrorView::TypeMismatch(column))
            },
        },
    }
}

/// An absent condition fits every table.
pub open spec fn check_optional_condition(
    table: TableView,
    condition: Option<ConditionView>,
) -> Result<(), SemanticErrorView> {
    match condition {
        Some(c) => check_condition(table, c),
        None => Ok(()),
    }
}

/// The first of `names[i..]` that is no column of `table`; where `star` holds,
/// `*` passes for a column.
pub open spec fn first_unknown_from(
    table: TableView,
    names: Seq<Seq<char>>,
    star: bool,
    i: int,
) -> Option<Seq<char>>
    decreases names.len() - i,
{
    if 0 <= i < names.len() {
        if (star && names[i] == "*"@) || has_key(table, names[i]) {
            first_unknown_from(table, names, star, i + 1)
        } else {
            Some(names[i])
        }
    } else {
        None
    }
}

/// The first of `names` that is no column of `table`.
pub open spec fn first_unknown(table: TableView, names: Seq<Seq<char>>, star: bool) -> Option<
    Seq<char>,
> {
    first_unknown_from(table, names, star, 0)
}

/// The columns that an ORDER BY list names.
pub open spec fn order_columns(order_by: Seq<OrderByView>) -> Seq<Seq<char>> {
    Seq::new(order_by.len(), |i: int| order_by[i].column)
}

/// The columns that a list of assignments names.
pub open spec fn update_columns(updates: Seq<(Seq<char>, ValueView)>) -> Seq<Seq<char>> {
    Seq::new(updates.len(), |i: int| updates[i].0)
}

/// SELECT: the table exists; every selected column but `*` exists; the
/// condition fits; every ordering column exists. The first failure, in this
/// order, is reported.
pub open spec fn check_select(db: DatabaseView, stmt: SelectView) -> Result<
    (),
    SemanticErrorView,
> {
    match lookup(db, stmt.table) {
        None => Err(SemanticErrorView::TableNotFound(stmt.table)),
        Some(table) => match first_unknown(table, stmt.columns, true) {
            Some(c) => Err(SemanticErrorView::ColumnNotFound(c)),
            None => match check_optional_condition(table, stmt.condition) {
                Err(e) => Err(e),
                Ok(()) => match first_unknown(table, order_columns(stmt.order_by), false) {
                    Some(c) => Err(SemanticErrorView::ColumnNotFound(c)),
                    None => Ok(()),
                },
            },
        },
    }
}

/// UPDATE: the table exists; every assigned column exists; the condition fits.
pub open spec fn check_update(db: DatabaseView, stmt: UpdateView) -> Result<
    (),
    SemanticErrorView,
> {
    match lookup(db, stmt.table) {
        None => Err(SemanticErrorView::TableNotFound(stmt.table)),
        Some(table) => match first_unknown(table, update_columns(stmt.updates), false) {
            Some(c) => Err(SemanticErrorView::ColumnNotFound(c)),
            None => check_optional_condition(table, stmt.condition),
        },
    }
}

/// INSERT: the table exists. Shape and values are the storage engine's to
/// check.
pub open spec fn check_insert(db: DatabaseView, stmt: InsertView) -> Result<
    (),
    SemanticErrorView,
> {
    if has_key(db, stmt.table) {
        Ok(())
    } else {
        Err(SemanticErrorView::TableNotFound(stmt.table))
    }
}

/// DELETE: the table exists; the condition fits.
pub open spec fn check_delete(db: DatabaseView, stmt: DeleteView) -> Result<
    (),
    SemanticErrorView,
> {
    match lookup(db, stmt.table) {
        None => Err(SemanticErrorView::TableNotFound(stmt.table)),
        Some(table) => check_optional_condition(table, stmt.condition),
    }
}

/// Whether a statement fits a schema.
pub open spec fn check(db: DatabaseView, ast: AstView) -> Result<(), SemanticErrorView> {
    match ast {
        AstView::Select(s) => check_select(db, s),
        AstView::Update(s) => check_update(db, s),
        AstView::Insert(s) => check_insert(db, s),
        AstView::Delete(s) => check_delete(db, s),
    }
}

/// Validates a statement against a schema, which is only read.
pub fn validate(schema: &DatabaseSchema, ast: &ASTNode) -> (r: Result<(), SemanticError>)
    ensures
        verdict(r) == check(schema@, ast@),
{
    match ast {
        ASTNode::Select(stmt) => validate_select(schema, stmt),
        ASTNode::Update(stmt) => validate_update(schema, stmt),
        ASTNode::Insert(stmt) => validate_insert(schema, stmt),
        ASTNode::Delete(stmt) => validate_delete(schema, stmt),
    }
}

#[verifier::loop_isolation(false)]
pub fn validate_select(schema: &DatabaseSchema, stmt: &SelectStatement) -> (r: Result<(), SemanticError>)
    ensures
        verdict(r) == check_select(schema@, stmt@),
{
    let table_schema = match schema.table(stmt.table.as_str()) {
        Some(t) => t,
        None => {
            return Err(SemanticError::TableNotFound(stmt.table.clone()));
        },
    };
    let ghost table = table_schema@;
    let ghost names = names_view(stmt.columns@);
    let mut i: usize = 0;
    while i < stmt.columns.len()
        invariant
            i <= stmt.columns.len(),
            table == table_schema@,
            names == names_view(stmt.columns@),
            first_unknown(table, names, true) == first_unknown_from(
                table,
                names,
                true,
                i as int,
            ),
        decreases stmt.columns.len() - i,
    {
        let col = &stmt.columns[i];
        if !str::eq(col.as_str(), "*") && !table_schema.has_column(col.as_str()) {
            return Err(SemanticError::ColumnNotFound(col.clone()));
        }
        i += 1;
    }
    match &stmt.condition {
        Some(condition) => {
            match validate_condition(condition, table_schema) {
                Ok(()) => {},
                Err(e) => {
                    return Err(e);
                },
            }
        },
        None => {},
    }
    let ghost ordering = order_columns(order_by_view(stmt.order_by@));
    let mut j: usize = 0;
    while j < stmt.order_by.len()
        invariant
            j <= stmt.order_by.len(),
            table == table_schema@,
            ordering == order_columns(order_by_view(stmt.order_by@)),
            first_unknown(table, ordering, false) == first_unknown_from(
                table,
                ordering,
                false,
                j as int,
            ),
        decreases stmt.order_by.len() - j,
    {
        let col = &stmt.order_by[j].column;
        if !table_schema.has_column(col.as_str()) {
            return Err(SemanticError::ColumnNotFound(col.clone()));
        }
        j += 1;
    }
    Ok(())
}

#[verifier::loop_isolation(false)]
pub fn validate_update(schema: &DatabaseSchema, stmt: &UpdateStatement) -> (r: Result<(), SemanticError>)
    ensures
        verdict(r) == check_update(schema@, stmt@),
{
    let table_schema = match schema.table(stmt.table.as_str()) {
        Some(t) => t,
        None => {
            return Err(SemanticError::TableNotFound(stmt.table.clone()));
        },
    };
    let ghost table = table_schema@;
    let ghost names = update_columns(updates_view(stmt.updates@));
    let mut i: usize = 0;
    while i < stmt.updates.len()
        invariant
            i <= stmt.updates.len(),
            table == table_schema@,
            names == update_columns(updates_view(stmt.updates@)),
            first_unknown(table, names, false) == first_unknown_from(
                table,
                names,
                false,
                i as int,
            ),
        decreases stmt.updates.len() - i,
    {
        let col = &stmt.updates[i].0;
        if !table_schema.has_column(col.as_str()) {
            return Err(SemanticError::ColumnNotFound(col.clone()));
        }
        i += 1;
    }
    match &stmt.condition {
        Some(condition) => validate_condition(condition, table_schema),
        None => Ok(()),
    }
}

pub fn validate_insert(schema: &DatabaseSchema, stmt: &InsertStatement) -> (r: Result<(), SemanticError>)
    ensures
        verdict(r) == check_insert(schema@, stmt@),
{
    if schema.contains_table(stmt.table.as_str()) {
        Ok(())
    } else {
        Err(SemanticError::TableNotFound(stmt.table.clone()))
    }
}

pub fn validate_delete(schema: &DatabaseSchema, stmt: &DeleteStatement) -> (r: Result<(), SemanticError>)
    ensures
        verdict(r) == check_delete(schema@, stmt@),
{
    let table_schema = match schema.table(stmt.table.as_str()) {
        Some(t) => t,
        None => {
            return Err(SemanticError::TableNotFound(stmt.table.clone()));
        },
    };
    match &stmt.condition {
        Some(condition) => validate_condition(condition, table_schema),
        None => Ok(()),
    }
}

pub fn validate_condition(condition: &Condition, table_schema: &TableSchema) -> (r:
    Result<(), SemanticError>)
    ensures
        verdict(r) == check_condition(table_schema@, condition@),
{
    match condition {
        Condition::Comparison(col, _op, value) => {
            let col_type = match table_schema.column_type(col.as_str()) {
                Some(t) => t,
                None => {
                    return Err(SemanticError::ColumnNotFound(col.clone()));
                },
            };
            match (col_type, value) {
                (ColumnType::Integer, crate::ast::Value::Number(_)) => Ok(()),
                (ColumnType::Float, crate::ast::Value::Number(_)) => Ok(()),
                (ColumnType::String, crate::ast::Value::String(_)) => Ok(()),
                _ => Err(SemanticError::TypeMismatch(col.clone())),
            }
        },
    }
}

/// Validates statements against one schema. Its view is that schema.
pub struct SemanticAnalyzer {
    schema: DatabaseSchema,
}

impl View for SemanticAnalyzer {
    type V = DatabaseView;

    closed spec fn view(&self) -> DatabaseView {
        self.schema@
    }
}

impl SemanticAnalyzer {
    pub fn new(schema: DatabaseSchema) -> (analyzer: Self)
        ensures
            analyzer@ == schema@,
    {
        SemanticAnalyzer { schema }
    }

    /// The schema that statements are held against.
    pub fn schema(&self) -> (schema: &DatabaseSchema)
        ensures
            schema@ == self@,
    {
        &self.schema
    }

    /// Validates a statement; the schema is only read.
    pub fn analyze(&self, ast: &ASTNode) -> (r: Result<(), SemanticError>)
        ensures
            verdict(r) == check(self@, ast@),
    {
        validate(&self.schema, ast)
    }

    pub fn analyze_select(&self, stmt: &SelectStatement) -> (r: Result<(), SemanticError>)
        ensures
            verdict(r) == check_select(self@, stmt@),
    {
        validate_select(&self.schema, stmt)
    }

    pub fn analyze_update(&self, stmt: &UpdateStatement) -> (r: Result<(), SemanticError>)
        ensures
            verdict(r) == check_update(self@, stmt@),
    {
        validate_update(&self.schema, stmt)
    }

    pub fn analyze_insert(&self, stmt: &InsertStatement) -> (r: Result<(), SemanticError>)
        ensures
            verdict(r) == check_insert(self@, stmt@),
    {
        validate_insert(&self.schema, stmt)
    }

    pub fn analyze_delete(&self, stmt: &DeleteStatement) -> (r: Result<(), SemanticError>)
        ensures
            verdict(r) == check_delete(self@, stmt@),
    {
        validate_delete(&self.schema, stmt)
    }

    pub fn analyze_condition(&self, condition: &Condition, table_schema: &TableSchema) -> (r:
        Result<(), SemanticError>)
        ensures
            verdict(r) == check_condition(table_schema@, condition@),
    {
        validate_condition(condition, table_schema)
    }
}

} // verus!
