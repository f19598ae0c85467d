//! Execution of validated statements against the storage engine.
//!
//! The engine decides and computes; it does not touch files. A statement is
//! executed against the bytes of its table's file, and the outcome says what
//! is to be done to that file.

use vstd::prelude::*;
use crate::ast::{
    order_by_view, values_view, ASTNode, AstView, DeleteStatement, DeleteView, InsertStatement,
    InsertView, OrderByClause, OrderByView, OrderDirection, SelectStatement, SelectView,
    UpdateStatement, UpdateView, Value, ValueView,
};
use crate::codec::{csv_decoded, rows_view};
pub use crate::datastore::Row;
use crate::datastore::{
    cell, condition_ref_view, delete_spec, holds, insert_row_spec, lemma_matching, matching,
    positions, project, project_columns, row_views, truth_of, truth_value, typed_relation,
    update_spec, value_text, wanted, DataStore, Record, RowView, StoreError,
};
use crate::decimal::{
    lemma_relation_chains, lemma_text_reads_back, parse_spec, Decimal, DecimalView,
};
use crate::ordered_map::{keys_of, lookup, put};
use crate::parser::{parse_sql, parse_text, ParseError};
use crate::semantic_analyzer::{check, validate, SemanticError, SemanticErrorView};
use crate::schema::{ColumnType, DatabaseView, TableSchema, TableView};
use crate::text::{
    chars_of, compare_text, lemma_take_push, lemma_text_relation_chains, lemma_text_relation_flip,
    lemma_text_relation_same, names_view, text_relation, Relation,
};

verus! {

/// Why a statement could not be executed.
#[derive(Debug, PartialEq)]
pub enum ExecutionError {
    TableNotFound(String),
    ColumnNotFound(String),
    TypeMismatch(String),
    /// The storage engine refused; never `StoreError::NotFound`, which is
    /// reported as `TableNotFound`.
    Storage(StoreError),
}

pub enum ExecutionErrorView {
    TableNotFound(Seq<char>),
    ColumnNotFound(Seq<char>),
    TypeMismatch(Seq<char>),
    Storage(StoreError),
}

impl View for ExecutionError {
    type V = ExecutionErrorView;

    open spec fn view(&self) -> ExecutionErrorView {
        match self {
            ExecutionError::TableNotFound(name) => ExecutionErrorView::TableNotFound(name@),
            ExecutionError::ColumnNotFound(name) => ExecutionErrorView::ColumnNotFound(name@),
            ExecutionError::TypeMismatch(name) => ExecutionErrorView::TypeMismatch(name@),
            ExecutionError::Storage(e) => ExecutionErrorView::Storage(*e),
        }
    }
}

/// Why a statement text was not accepted for execution.
#[derive(Debug, PartialEq)]
pub enum CompileError {
    /// The text is no statement of the language.
    Parse(ParseError),
    /// The statement does not fit the schema.
    Semantic(SemanticError),
}

pub enum CompileErrorView {
    Parse(ParseError),
    Semantic(SemanticErrorView),
}

impl View for CompileError {
    type V = CompileErrorView;

    open spec fn view(&self) -> CompileErrorView {
        match self {
            CompileError::Parse(e) => CompileErrorView::Parse(*e),
            CompileError::Semantic(e) => CompileErrorView::Semantic(e@),
        }
    }
}

/// The validated statement that a text spells under a schema: the text is
/// parsed, and what was parsed is held against the schema.
pub open spec fn compile_spec(db: DatabaseView, text: Seq<char>) -> Result<
    AstView,
    CompileErrorView,
> {
    match parse_text(text) {
        Err(e) => Err(CompileErrorView::Parse(e)),
        Ok(ast) => match check(db, ast) {
            Err(e) => Err(CompileErrorView::Semantic(e)),
            Ok(()) => Ok(ast),
        },
    }
}

/// What a statement yields: the selected rows, or the number of records
/// inserted, updated or deleted.
#[derive(Debug, PartialEq)]
pub enum QueryResult {
    Select(Vec<Row>),
    Insert(usize),
    Update(usize),
    Delete(usize),
}

pub enum QueryResultView {
    Select(Seq<RowView>),
    Insert(nat),
    Update(nat),
    Delete(nat),
}

impl View for QueryResult {
    type V = QueryResultView;

    open spec fn view(&self) -> QueryResultView {
        match self {
            QueryResult::Select(rows) => QueryResultView::Select(row_views(rows@)),
            QueryResult::Insert(n) => QueryResultView::Insert(*n as nat),
            QueryResult::Update(n) => QueryResultView::Update(*n as nat),
            QueryResult::Delete(n) => QueryResultView::Delete(*n as nat),
        }
    }
}

/// What is to be done to the table's file.
#[derive(Debug, PartialEq)]
pub enum FileChange {
    /// Nothing.
    Unchanged,
    /// These bytes are to be appended.
    Append(Vec<u8>),
    /// The file is to be replaced, in one step, by one with these bytes.
    Replace(Vec<u8>),
}

pub enum FileChangeView {
    Unchanged,
    Append(Seq<u8>),
    Replace(Seq<u8>),
}

impl View for FileChange {
    type V = FileChangeView;

    open spec fn view(&self) -> FileChangeView {
        match self {
            FileChange::Unchanged => FileChangeView::Unchanged,
            FileChange::Append(bytes) => FileChangeView::Append(bytes@),
            FileChange::Replace(bytes) => FileChangeView::Replace(bytes@),
        }
    }
}

/// The outcome of a statement: its result and the change to the table's file.
#[derive(Debug, PartialEq)]
pub struct Execution {
    pub result: QueryResult,
    pub change: FileChange,
}

pub struct ExecutionView {
    pub result: QueryResultView,
    pub change: FileChangeView,
}

impl View for Execution {
    type V = ExecutionView;

    open spec fn view(&self) -> ExecutionView {
        ExecutionView { result: self.result@, change: self.change@ }
    }
}

/// What an execution returned, as mathematics.
pub open spec fn outcome(r: Result<Execution, ExecutionError>) -> Result<
    ExecutionView,
    ExecutionErrorView,
> {
    match r {
        Ok(e) => Ok(e@),
        Err(e) => Err(e@),
    }
}

/// A storage error as an execution error about the table `table`.
pub open spec fn storage_error(e: StoreError, table: Seq<char>) -> ExecutionErrorView {
    match e {
        StoreError::NotFound => ExecutionErrorView::TableNotFound(table),
        _ => ExecutionErrorView::Storage(e),
    }
}

/// The order of two optional keys: an absent key comes before every present
/// one, and two absent keys are equal.
pub open spec fn optional_relation(a: Option<DecimalView>, b: Option<DecimalView>) -> Relation {
    match (a, b) {
        (Some(x), Some(y)) => x.relation(y),
        (None, None) => Relation::Equal,
        (None, Some(_)) => Relation::Less,
        (Some(_), None) => Relation::Greater,
    }
}

/// The rank of a text in a boolean column: unreadable, `false`, `true`.
pub open spec fn truth_rank(text: Seq<char>) -> int {
    match truth_value(text) {
        None => 0,
        Some(false) => 1,
        Some(true) => 2,
    }
}

/// The order of two stored texts under a column type: numbers by value,
/// strings character by character, truth values `false` before `true`; a text
/// that cannot be read under the type comes before all that can.
pub open spec fn key_relation(ty: ColumnType, a: Seq<char>, b: Seq<char>) -> Relation {
    match ty {
        ColumnType::Integer => optional_relation(parse_spec(a, false), parse_spec(b, false)),
        ColumnType::Float => optional_relation(parse_spec(a, true), parse_spec(b, true)),
        ColumnType::String => text_relation(a, b),
        ColumnType::Boolean => Relation::of(truth_rank(a), truth_rank(b)),
    }
}

/// `relation` as seen in the given direction.
pub open spec fn directed(relation: Relation, order: OrderDirection) -> Relation {
    match order {
        OrderDirection::Asc => relation,
        OrderDirection::Desc => relation.flip(),
    }
}

/// The order of two records by one ordering clause. A column that the table
/// does not declare orders nothing; a record without a field in the column
/// comes before one with a field.
pub open spec fn clause_relation(
    table: TableView,
    header: Record,
    a: Record,
    b: Record,
    clause: OrderByView,
) -> Relation {
    match lookup(table, clause.column) {
        None => Relation::Equal,
        Some(ty) => directed(
            match (cell(header, a, clause.column), cell(header, b, clause.column)) {
                (Some(x), Some(y)) => key_relation(ty, x, y),
                (None, None) => Relation::Equal,
                (None, Some(_)) => Relation::Less,
                (Some(_), None) => Relation::Greater,
            },
            clause.order,
        ),
    }
}

/// The order of two records by the clauses from `i` on: that of the first
/// clause that tells them apart.
pub open spec fn records_relation_from(
    table: TableView,
    header: Record,
    a: Record,
    b: Record,
    clauses: Seq<OrderByView>,
    i: int,
) -> Relation
    decreases clauses.len() - i,
{
    if 0 <= i < clauses.len() {
        let r = clause_relation(table, header, a, b, clauses[i]);
        if r != Relation::Equal {
            r
        } else {
            records_relation_from(table, header, a, b, clauses, i + 1)
        }
    } else {
        Relation::Equal
    }
}

/// The order of two records by a list of ordering clauses, the first clause
/// counting most.
pub open spec fn records_relation(
    table: TableView,
    header: Record,
    a: Record,
    b: Record,
    clauses: Seq<OrderByView>,
) -> Relation {
    records_relation_from(table, header, a, b, clauses, 0)
}

/// The order of the records at two positions.
#[verifier::opaque]
pub open spec fn position_relation(
    table: TableView,
    header: Record,
    records: Seq<Record>,
    clauses: Seq<OrderByView>,
    i: int,
    j: int,
) -> Relation {
    records_relation(table, header, records[i], records[j], clauses)
}

/// `ordered` holds every element of `hits` once, and nothing else.
#[verifier::opaque]
pub open spec fn is_arrangement(ordered: Seq<int>, hits: Seq<int>) -> bool {
    &&& ordered.len() == hits.len()
    &&& forall|k: int| 0 <= k < ordered.len() ==> hits.contains(#[trigger] ordered[k])
    &&& forall|k: int| 0 <= k < hits.len() ==> ordered.contains(#[trigger] hits[k])
    &&& forall|a: int, b: int|
        0 <= a < b < ordered.len() ==> #[trigger] ordered[a] != #[trigger] ordered[b]
}

/// No record stands before one that the clauses put ahead of it.
#[verifier::opaque]
pub open spec fn in_order(
    ordered: Seq<int>,
    table: TableView,
    header: Record,
    records: Seq<Record>,
    clauses: Seq<OrderByView>,
) -> bool {
    forall|a: int, b: int|
        0 <= a < b < ordered.len() ==> #[trigger] position_relation(
            table,
            header,
            records,
            clauses,
            ordered[a],
            ordered[b],
        ) != Relation::Greater
}

/// Records that the clauses do not tell apart stand in file order.
#[verifier::opaque]
pub open spec fn ties_in_file_order(
    ordered: Seq<int>,
    table: TableView,
    header: Record,
    records: Seq<Record>,
    clauses: Seq<OrderByView>,
) -> bool {
    forall|a: int, b: int|
        0 <= a < b < ordered.len() && #[trigger] position_relation(
            table,
            header,
            records,
            clauses,
            ordered[a],
            ordered[b],
        ) == Relation::Equal ==> ordered[a] < ordered[b]
}

/// `ordered` lists the positions `hits` of `records` in the order that the
/// clauses ask for: every position once; no record before one that the
/// clauses put ahead of it; and records that the clauses do not tell apart
/// in file order.
pub open spec fn is_stable_order(
    ordered: Seq<int>,
    hits: Seq<int>,
    table: TableView,
    header: Record,
    records: Seq<Record>,
    clauses: Seq<OrderByView>,
) -> bool {
    &&& is_arrangement(ordered, hits)
    &&& in_order(ordered, table, header, records, clauses)
    &&& ties_in_file_order(ordered, table, header, records, clauses)
}

/// The order of records seen from the other side is the flipped order.
pub proof fn lemma_records_relation_flip(
    table: TableView,
    header: Record,
    a: Record,
    b: Record,
    clauses: Seq<OrderByView>,
    i: int,
)
    requires
        0 <= i,
    ensures
        records_relation_from(table, header, b, a, clauses, i) == records_relation_from(
            table,
            header,
            a,
            b,
            clauses,
            i,
        ).flip(),
    decreases clauses.len() - i,
{
    if i < clauses.len() {
        lemma_clause_relation_flip(table, header, a, b, clauses[i]);
        lemma_records_relation_flip(table, header, a, b, clauses, i + 1);
    }
}

/// The order of two positions seen from the other side is the flipped order.
pub proof fn lemma_position_relation_flip(
    table: TableView,
    header: Record,
    records: Seq<Record>,
    clauses: Seq<OrderByView>,
    i: int,
    j: int,
)
    ensures
        position_relation(table, header, records, clauses, j, i) == position_relation(
            table,
            header,
            records,
            clauses,
            i,
            j,
        ).flip(),
{
    reveal(position_relation);
    lemma_records_relation_flip(table, header, records[i], records[j], clauses, 0);
}

/// The order of optional keys is transitive.
pub proof fn lemma_optional_relation_chains(
    a: Option<DecimalView>,
    b: Option<DecimalView>,
    c: Option<DecimalView>,
)
    ensures
        Relation::chains(
            optional_relation(a, b),
            optional_relation(b, c),
            optional_relation(a, c),
        ),
{
    match (a, b, c) {
        (Some(x), Some(y), Some(z)) => {
            lemma_relation_chains(x, y, z);
        },
        _ => {},
    }
}

/// The order of stored texts under a column type is transitive.
pub proof fn lemma_key_relation_chains(ty: ColumnType, a: Seq<char>, b: Seq<char>, c: Seq<char>)
    ensures
        Relation::chains(key_relation(ty, a, b), key_relation(ty, b, c), key_relation(ty, a, c)),
{
    match ty {
        ColumnType::Integer => {
            lemma_optional_relation_chains(
                parse_spec(a, false),
                parse_spec(b, false),
                parse_spec(c, false),
            );
        },
        ColumnType::Float => {
            lemma_optional_relation_chains(
                parse_spec(a, true),
                parse_spec(b, true),
                parse_spec(c, true),
            );
        },
        ColumnType::String => {
            lemma_text_relation_chains(a, b, c);
        },
        ColumnType::Boolean => {},
    }
}

/// The order of stored texts seen from the other side is the flipped order.
pub proof fn lemma_key_relation_flip(ty: ColumnType, a: Seq<char>, b: Seq<char>)
    ensures
        key_relation(ty, b, a) == key_relation(ty, a, b).flip(),
{
    lemma_text_relation_flip(a, b);
}

/// The order of records by one clause is transitive.
pub proof fn lemma_clause_relation_chains(
    table: TableView,
    header: Record,
    a: Record,
    b: Record,
    c: Record,
    clause: OrderByView,
)
    ensures
        Relation::chains(
            clause_relation(table, header, a, b, clause),
            clause_relation(table, header, b, c, clause),
            clause_relation(table, header, a, c, clause),
        ),
{
    match lookup(table, clause.column) {
        None => {},
        Some(ty) => {
            match (
                cell(header, a, clause.column),
                cell(header, b, clause.column),
                cell(header, c, clause.column),
            ) {
                (Some(x), Some(y), Some(z)) => {
                    lemma_key_relation_chains(ty, x, y, z);
                    lemma_key_relation_chains(ty, z, y, x);
                    lemma_key_relation_flip(ty, x, y);
                    lemma_key_relation_flip(ty, y, z);
                    lemma_key_relation_flip(ty, x, z);
                },
                _ => {},
            }
        },
    }
}

/// The order of records by one clause seen from the other side is the
/// flipped order.
pub proof fn lemma_clause_relation_flip(
    table: TableView,
    header: Record,
    a: Record,
    b: Record,
    clause: OrderByView,
)
    ensures
        clause_relation(table, header, b, a, clause) == clause_relation(
            table,
            header,
            a,
            b,
            clause,
        ).flip(),
{
    match (lookup(table, clause.column), cell(header, a, clause.column), cell(header, b, clause.column)) {
        (Some(ty), Some(x), Some(y)) => {
            lemma_key_relation_flip(ty, x, y);
        },
        _ => {},
    }
}

/// The order of records by a list of clauses is transitive.
pub proof fn lemma_records_relation_chains(
    table: TableView,
    header: Record,
    a: Record,
    b: Record,
    c: Record,
    clauses: Seq<OrderByView>,
    i: int,
)
    requires
        0 <= i,
    ensures
        Relation::chains(
            records_relation_from(table, header, a, b, clauses, i),
            records_relation_from(table, header, b, c, clauses, i),
            records_relation_from(table, header, a, c, clauses, i),
        ),
    decreases clauses.len() - i,
{
    if i < clauses.len() {
        let clause = clauses[i];
        lemma_clause_relation_chains(table, header, a, b, c, clause);
        lemma_clause_relation_chains(table, header, c, b, a, clause);
        lemma_clause_relation_flip(table, header, a, b, clause);
        lemma_clause_relation_flip(table, header, b, c, clause);
        lemma_clause_relation_flip(table, header, a, c, clause);
        lemma_records_relation_chains(table, header, a, b, c, clauses, i + 1);
    }
}

/// The order of positions is transitive.
pub proof fn lemma_position_relation_chains(
    table: TableView,
    header: Record,
    records: Seq<Record>,
    clauses: Seq<OrderByView>,
    i: int,
    j: int,
    k: int,
)
    ensures
        Relation::chains(
            position_relation(table, header, records, clauses, i, j),
            position_relation(table, header, records, clauses, j, k),
            position_relation(table, header, records, clauses, i, k),
        ),
{
    reveal(position_relation);
    lemma_records_relation_chains(table, header, records[i], records[j], records[k], clauses, 0);
}

/// Whether the record at `i` has its place before the record at `j`: the
/// clauses put it first, or they do not tell the two apart and it comes first
/// in the file.
pub open spec fn comes_before(
    table: TableView,
    header: Record,
    records: Seq<Record>,
    clauses: Seq<OrderByView>,
    i: int,
    j: int,
) -> bool {
    let r = position_relation(table, header, records, clauses, i, j);
    r == Relation::Less || (r == Relation::Equal && i < j)
}

/// Two lists of the same positions, without repetitions, in each of which
/// every position has its place before all later ones, are the same list.
proof fn lemma_placed_lists_equal(
    first: Seq<int>,
    second: Seq<int>,
    table: TableView,
    header: Record,
    records: Seq<Record>,
    clauses: Seq<OrderByView>,
)
    requires
        first.len() == second.len(),
        forall|a: int| 0 <= a < first.len() ==> second.contains(#[trigger] first[a]),
        forall|a: int| 0 <= a < second.len() ==> first.contains(#[trigger] second[a]),
        forall|a: int, b: int|
            0 <= a < b < first.len() ==> #[trigger] first[a] != #[trigger] first[b],
        forall|a: int, b: int|
            0 <= a < b < second.len() ==> #[trigger] second[a] != #[trigger] second[b],
        forall|a: int, b: int|
            0 <= a < b < first.len() ==> comes_before(
                table,
                header,
                records,
                clauses,
                #[trigger] first[a],
                #[trigger] first[b],
            ),
        forall|a: int, b: int|
            0 <= a < b < second.len() ==> comes_before(
                table,
                header,
                records,
                clauses,
                #[trigger] second[a],
                #[trigger] second[b],
            ),
    ensures
        first == second,
    decreases first.len(),
{
    if first.len() > 0 {
        let x = first[0];
        let y = second[0];
        assert(second.contains(x));
        assert(first.contains(y));
        let j = choose|j: int| 0 <= j < second.len() && second[j] == x;
        let i = choose|i: int| 0 <= i < first.len() && first[i] == y;
        if i > 0 && j > 0 {
            assert(comes_before(table, header, records, clauses, first[0], first[i]));
            assert(comes_before(table, header, records, clauses, second[0], second[j]));
            lemma_position_relation_flip(table, header, records, clauses, x, y);
        }
        assert(x == y);
        let rest1 = first.drop_first();
        let rest2 = second.drop_first();
        assert forall|a: int| 0 <= a < rest1.len() implies rest2.contains(#[trigger] rest1[a]) by {
            assert(rest1[a] == first[a + 1]);
            assert(second.contains(first[a + 1]));
            let m = choose|m: int| 0 <= m < second.len() && second[m] == first[a + 1];
            assert(first[0] != first[a + 1]);
            assert(rest2[m - 1] == rest1[a]);
        }
        assert forall|a: int| 0 <= a < rest2.len() implies rest1.contains(#[trigger] rest2[a]) by {
            assert(rest2[a] == second[a + 1]);
            assert(first.contains(second[a + 1]));
            let m = choose|m: int| 0 <= m < first.len() && first[m] == second[a + 1];
            assert(second[0] != second[a + 1]);
            assert(rest1[m - 1] == rest2[a]);
        }
        assert forall|a: int, b: int| 0 <= a < b < rest1.len() implies #[trigger] rest1[a]
            != #[trigger] rest1[b] && comes_before(
            table,
            header,
            records,
            clauses,
            rest1[a],
            rest1[b],
        ) by {
            assert(rest1[a] == first[a + 1] && rest1[b] == first[b + 1]);
        }
        assert forall|a: int, b: int| 0 <= a < b < rest2.len() implies #[trigger] rest2[a]
            != #[trigger] rest2[b] && comes_before(
            table,
            header,
            records,
            clauses,
            rest2[a],
            rest2[b],
        ) by {
            assert(rest2[a] == second[a + 1] && rest2[b] == second[b + 1]);
        }
        lemma_placed_lists_equal(rest1, rest2, table, header, records, clauses);
        assert(first == seq![x] + rest1);
        assert(second == seq![y] + rest2);
    }
}

/// There is at most one stable order of given positions.
pub proof fn lemma_stable_order_unique(
    first: Seq<int>,
    second: Seq<int>,
    hits: Seq<int>,
    table: TableView,
    header: Record,
    records: Seq<Record>,
    clauses: Seq<OrderByView>,
)
    requires
        is_stable_order(first, hits, table, header, records, clauses),
        is_stable_order(second, hits, table, header, records, clauses),
    ensures
        first == second,
{
    reveal(is_arrangement);
    reveal(in_order);
    reveal(ties_in_file_order);
    assert forall|a: int| 0 <= a < first.len() implies second.contains(#[trigger] first[a]) by {
        assert(hits.contains(first[a]));
        let k = choose|k: int| 0 <= k < hits.len() && hits[k] == first[a];
        assert(second.contains(hits[k]));
    }
    assert forall|a: int| 0 <= a < second.len() implies first.contains(#[trigger] second[a]) by {
        assert(hits.contains(second[a]));
        let k = choose|k: int| 0 <= k < hits.len() && hits[k] == second[a];
        assert(first.contains(hits[k]));
    }
    assert forall|a: int, b: int| 0 <= a < b < first.len() implies comes_before(
        table,
        header,
        records,
        clauses,
        #[trigger] first[a],
        #[trigger] first[b],
    ) by {
        assert(position_relation(table, header, records, clauses, first[a], first[b])
            != Relation::Greater);
    }
    assert forall|a: int, b: int| 0 <= a < b < second.len() implies comes_before(
        table,
        header,
        records,
        clauses,
        #[trigger] second[a],
        #[trigger] second[b],
    ) by {
        assert(position_relation(table, header, records, clauses, second[a], second[b])
            != Relation::Greater);
    }
    lemma_placed_lists_equal(first, second, table, header, records, clauses);
}

/// The stable order of the positions `hits`: the one list that
/// `is_stable_order` describes.
pub open spec fn stable_order(
    hits: Seq<int>,
    table: TableView,
    header: Record,
    records: Seq<Record>,
    clauses: Seq<OrderByView>,
) -> Seq<int> {
    choose|ordered: Seq<int>| is_stable_order(ordered, hits, table, header, records, clauses)
}

/// Whether a literal may be stored in a column of type `ty`: whole numbers in
/// integer columns, numbers in float columns, strings in string columns, the
/// strings `true` and `false` in boolean columns.
pub open spec fn storable(ty: ColumnType, value: ValueView) -> bool {
    match (ty, value) {
        (ColumnType::Integer, ValueView::Number(n)) => n.is_integer(),
        (ColumnType::Float, ValueView::Number(_)) => true,
        (ColumnType::String, ValueView::String(_)) => true,
        (ColumnType::Boolean, ValueView::String(s)) => truth_value(s) is Some,
        _ => false,
    }
}

/// What has been stored is found again: the text written for a literal that
/// its column can store compares as equal with that literal under the
/// column's type, so that a condition `column = literal` holds of it.
pub proof fn lemma_stored_value_is_found(ty: ColumnType, value: ValueView)
    requires
        storable(ty, value),
        value matches ValueView::Number(n) ==> n.canonical(),
    ensures
        typed_relation(ty, value_text(value), value) == Some(Relation::Equal),
        holds(crate::ast::ComparisonOperator::Equals, Relation::Equal),
{
    match value {
        ValueView::Number(n) => {
            lemma_text_reads_back(n);
        },
        ValueView::String(s) => {
            lemma_text_relation_same(s);
        },
    }
}

/// The first of the fields from `i` on that the table cannot take: a column
/// that it does not declare, or a value that the column's type cannot store.
pub open spec fn first_bad_field(
    table: TableView,
    columns: Seq<Seq<char>>,
    values: Seq<ValueView>,
    i: int,
) -> Option<ExecutionErrorView>
    decreases columns.len() - i,
{
    if 0 <= i < columns.len() {
        match lookup(table, columns[i]) {
            None => Some(ExecutionErrorView::ColumnNotFound(columns[i])),
            Some(ty) => if storable(ty, values[i]) {
                first_bad_field(table, columns, values, i + 1)
            } else {
                Some(ExecutionErrorView::TypeMismatch(columns[i]))
            },
        }
    } else {
        None
    }
}

/// The row that holds, under each of the first `n` columns, the text of the
/// value given for it.
pub open spec fn row_of(columns: Seq<Seq<char>>, values: Seq<ValueView>, n: int) -> RowView
    decreases n,
{
    if n <= 0 {
        Seq::empty()
    } else {
        put(row_of(columns, values, n - 1), columns[n - 1], value_text(values[n - 1]))
    }
}

/// The columns that an INSERT assigns to: those it names, or all of the
/// table in declared order if it names none.
pub open spec fn insert_columns(table: TableView, stmt: InsertView) -> Seq<Seq<char>> {
    if stmt.columns.len() == 0 {
        keys_of(table)
    } else {
        stmt.columns
    }
}

/// What INSERT does: the table must exist, there must be as many values as
/// columns, every column must be declared and able to store its value, and
/// the row must fill the table; then one record is appended.
pub open spec fn insert_spec(db: DatabaseView, stmt: InsertView) -> Result<
    ExecutionView,
    ExecutionErrorView,
> {
    match lookup(db, stmt.table) {
        None => Err(ExecutionErrorView::TableNotFound(stmt.table)),
        Some(table) => {
            let columns = insert_columns(table, stmt);
            if columns.len() != stmt.values.len() {
                Err(ExecutionErrorView::Storage(StoreError::InvalidShape))
            } else {
                match first_bad_field(table, columns, stmt.values, 0) {
                    Some(e) => Err(e),
                    None => match insert_row_spec(
                        db,
                        stmt.table,
                        row_of(columns, stmt.values, columns.len() as int),
                    ) {
                        Ok(bytes) => Ok(
                            ExecutionView {
                                result: QueryResultView::Insert(1),
                                change: FileChangeView::Append(bytes),
                            },
                        ),
                        Err(e) => Err(storage_error(e, stmt.table)),
                    },
                }
            }
        },
    }
}

/// The change to the file that a rewrite asks for: none where no record was
/// affected.
pub open spec fn rewrite_change(content: Seq<u8>, count: nat) -> FileChangeView {
    if count == 0 {
        FileChangeView::Unchanged
    } else {
        FileChangeView::Replace(content)
    }
}

/// What UPDATE does.
pub open spec fn update_exec_spec(db: DatabaseView, stmt: UpdateView, file: Seq<u8>) -> Result<
    ExecutionView,
    ExecutionErrorView,
> {
    match update_spec(db, stmt.table, stmt.updates, stmt.condition, file) {
        Ok((content, count)) => Ok(
            ExecutionView {
                result: QueryResultView::Update(count),
                change: rewrite_change(content, count),
            },
        ),
        Err(e) => Err(storage_error(e, stmt.table)),
    }
}

/// What DELETE does.
pub open spec fn delete_exec_spec(db: DatabaseView, stmt: DeleteView, file: Seq<u8>) -> Result<
    ExecutionView,
    ExecutionErrorView,
> {
    match delete_spec(db, stmt.table, stmt.condition, file) {
        Ok((content, count)) => Ok(
            ExecutionView {
                result: QueryResultView::Delete(count),
                change: rewrite_change(content, count),
            },
        ),
        Err(e) => Err(storage_error(e, stmt.table)),
    }
}

/// The rows of the wanted columns of the records at the positions `ordered`.
pub open spec fn projected(
    header: Record,
    records: Seq<Record>,
    ordered: Seq<int>,
    columns: Seq<Seq<char>>,
) -> Seq<RowView> {
    Seq::new(ordered.len(), |k: int| project(header, records[ordered[k]], wanted(header, columns)))
}

/// What SELECT does: the file is left alone; the rows are those of the
/// records that satisfy the condition, in the stable order that the ORDER BY
/// clauses ask for, each with the wanted columns.
pub open spec fn select_exec_spec(db: DatabaseView, stmt: SelectView, file: Seq<u8>) -> Result<
    ExecutionView,
    ExecutionErrorView,
> {
    match lookup(db, stmt.table) {
        None => Err(ExecutionErrorView::TableNotFound(stmt.table)),
        Some(table) => match csv_decoded(file) {
            None => Err(ExecutionErrorView::Storage(StoreError::Malformed)),
            Some((header, records)) => Ok(
                ExecutionView {
                    result: QueryResultView::Select(
                        projected(
                            header,
                            records,
                            stable_order(
                                matching(table, header, records, stmt.condition),
                                table,
                                header,
                                records,
                                stmt.order_by,
                            ),
                            stmt.columns,
                        ),
                    ),
                    change: FileChangeView::Unchanged,
                },
            ),
        },
    }
}

/// The outcome of the statement `ast` on a store with the schema `db` whose
/// file for the statement's table holds `file`.
pub open spec fn execute_spec(db: DatabaseView, ast: AstView, file: Seq<u8>) -> Result<
    ExecutionView,
    ExecutionErrorView,
> {
    match ast {
        AstView::Select(stmt) => select_exec_spec(db, stmt, file),
        AstView::Insert(stmt) => insert_spec(db, stmt),
        AstView::Update(stmt) => update_exec_spec(db, stmt, file),
        AstView::Delete(stmt) => delete_exec_spec(db, stmt, file),
    }
}

fn compare_optional(a: &Option<Decimal>, b: &Option<Decimal>) -> (r: Relation)
    ensures
        r == optional_relation(
            match a {
                Some(x) => Some(x@),
                None => None,
            },
            match b {
                Some(y) => Some(y@),
                None => None,
            },
        ),
{
    match (a, b) {
        (Some(x), Some(y)) => x.compare(y),
        (None, None) => Relation::Equal,
        (None, Some(_)) => Relation::Less,
        (Some(_), None) => Relation::Greater,
    }
}

fn truth_rank_of(text: &str) -> (rank: u8)
    ensures
        rank == truth_rank(text@),
{
    match truth_of(text) {
        None => 0,
        Some(false) => 1,
        Some(true) => 2,
    }
}

/// The order of two stored texts under a column type.
pub fn compare_keys(ty: ColumnType, a: &str, b: &str) -> (r: Relation)
    ensures
        r == key_relation(ty, a@, b@),
{
    match ty {
        ColumnType::Integer => compare_optional(
            &Decimal::parse_integer(a),
            &Decimal::parse_integer(b),
        ),
        ColumnType::Float => compare_optional(&Decimal::parse(a), &Decimal::parse(b)),
        ColumnType::String => {
            let x = chars_of(a);
            let y = chars_of(b);
            compare_text(&x, &y)
        },
        ColumnType::Boolean => {
            let x = truth_rank_of(a);
            let y = truth_rank_of(b);
            if x < y {
                Relation::Less
            } else if x == y {
                Relation::Equal
            } else {
                Relation::Greater
            }
        },
    }
}

fn compare_by_clause(
    table: &TableSchema,
    header: &Vec<String>,
    a: &Vec<String>,
    b: &Vec<String>,
    clause: &OrderByClause,
) -> (r: Relation)
    ensures
        r == clause_relation(
            table@,
            names_view(header@),
            names_view(a@),
            names_view(b@),
            clause@,
        ),
{
    let ty = match table.column_type(clause.column.as_str()) {
        Some(ty) => ty,
        None => {
            return Relation::Equal;
        },
    };
    let column = clause.column.as_str();
    let relation = match (
        crate::datastore::cell_of(header, a, column),
        crate::datastore::cell_of(header, b, column),
    ) {
        (Some(x), Some(y)) => compare_keys(ty, x.as_str(), y.as_str()),
        (None, None) => Relation::Equal,
        (None, Some(_)) => Relation::Less,
        (Some(_), None) => Relation::Greater,
    };
    match clause.order {
        OrderDirection::Asc => relation,
        OrderDirection::Desc => relation.reversed(),
    }
}

/// The order of two records by a list of ordering clauses.
pub fn compare_records(
    table: &TableSchema,
    header: &Vec<String>,
    a: &Vec<String>,
    b: &Vec<String>,
    order_by: &Vec<OrderByClause>,
) -> (r: Relation)
    ensures
        r == records_relation(
            table@,
            names_view(header@),
            names_view(a@),
            names_view(b@),
            order_by_view(order_by@),
        ),
{
    let ghost clauses = order_by_view(order_by@);
    let mut i: usize = 0;
    while i < order_by.len()
        invariant
            i <= order_by.len(),
            clauses == order_by_view(order_by@),
            records_relation(
                table@,
                names_view(header@),
                names_view(a@),
                names_view(b@),
                clauses,
            ) == records_relation_from(
                table@,
                names_view(header@),
                names_view(a@),
                names_view(b@),
                clauses,
                i as int,
            ),
        decreases order_by.len() - i,
    {
        let r = compare_by_clause(table, header, a, b, &order_by[i]);
        if !matches!(r, Relation::Equal) {
            return r;
        }
        i += 1;
    }
    Relation::Equal
}

/// `after` is `before` with `x` put in at `p`.
pub open spec fn is_insertion(before: Seq<int>, after: Seq<int>, p: int, x: int) -> bool {
    &&& 0 <= p <= before.len()
    &&& after.len() == before.len() + 1
    &&& after[p] == x
    &&& forall|a: int| 0 <= a < p ==> #[trigger] after[a] == before[a]
    &&& forall|a: int| p < a < after.len() ==> #[trigger] after[a] == before[a - 1]
}

proof fn lemma_is_insertion(before: Seq<int>, p: int, x: int)
    requires
        0 <= p <= before.len(),
    ensures
        is_insertion(before, before.insert(p, x), p, x),
{
}

/// Every element of an arrangement of the first `k` hits is below the next.
proof fn lemma_arrangement_below(ordered: Seq<int>, hits: Seq<int>, k: int)
    requires
        0 <= k < hits.len(),
        forall|a: int, b: int| 0 <= a < b < hits.len() ==> hits[a] < hits[b],
        is_arrangement(ordered, hits.take(k)),
    ensures
        forall|a: int| 0 <= a < ordered.len() ==> #[trigger] ordered[a] < hits[k],
{
    reveal(is_arrangement);
    let seen = hits.take(k);
    assert forall|a: int| 0 <= a < ordered.len() implies #[trigger] ordered[a] < hits[k] by {
        assert(seen.contains(ordered[a]));
        let j = choose|j: int| 0 <= j < seen.len() && seen[j] == ordered[a];
        assert(hits[j] < hits[k]);
    }
}

/// Putting the next hit into an arrangement of those before it gives an
/// arrangement of all up to it.
proof fn lemma_arrangement_insert(
    ordered: Seq<int>,
    after: Seq<int>,
    hits: Seq<int>,
    k: int,
    p: int,
)
    requires
        0 <= k < hits.len(),
        is_arrangement(ordered, hits.take(k)),
        is_insertion(ordered, after, p, hits[k]),
        forall|a: int| 0 <= a < ordered.len() ==> #[trigger] ordered[a] < hits[k],
    ensures
        is_arrangement(after, hits.take(k + 1)),
{
    reveal(is_arrangement);
    let x = hits[k];
    let seen = hits.take(k);
    let now = hits.take(k + 1);
    assert forall|a: int| 0 <= a < after.len() implies now.contains(#[trigger] after[a]) by {
        if a == p {
            assert(now[k] == x);
        } else {
            let old_a = if a < p {
                a
            } else {
                a - 1
            };
            assert(after[a] == ordered[old_a]);
            assert(seen.contains(ordered[old_a]));
            let j = choose|j: int| 0 <= j < seen.len() && seen[j] == ordered[old_a];
            assert(now[j] == after[a]);
        }
    }
    assert forall|j: int| 0 <= j < now.len() implies after.contains(#[trigger] now[j]) by {
        if j == k {
            assert(after[p] == x);
        } else {
            assert(seen[j] == now[j]);
            assert(ordered.contains(seen[j]));
            let a = choose|a: int| 0 <= a < ordered.len() && ordered[a] == seen[j];
            if a < p {
                assert(after[a] == now[j]);
            } else {
                assert(after[a + 1] == now[j]);
            }
        }
    }
    assert forall|a: int, b: int| 0 <= a < b < after.len() implies #[trigger] after[a]
        != #[trigger] after[b] by {
        let old_a = if a < p {
            a
        } else {
            a - 1
        };
        let old_b = if b < p {
            b
        } else {
            b - 1
        };
        if a == p {
            assert(after[b] == ordered[old_b]);
            assert(ordered[old_b] < x);
        } else if b == p {
            assert(after[a] == ordered[old_a]);
            assert(ordered[old_a] < x);
        } else {
            assert(after[a] == ordered[old_a]);
            assert(after[b] == ordered[old_b]);
        }
    }
}

/// Putting `x` after the last record that does not come after it keeps the
/// order.
proof fn lemma_in_order_insert(
    ordered: Seq<int>,
    after: Seq<int>,
    p: int,
    x: int,
    table: TableView,
    header: Record,
    records: Seq<Record>,
    clauses: Seq<OrderByView>,
)
    requires
        in_order(ordered, table, header, records, clauses),
        is_insertion(ordered, after, p, x),
        forall|b: int|
            p <= b < ordered.len() ==> position_relation(
                table,
                header,
                records,
                clauses,
                #[trigger] ordered[b],
                x,
            ) == Relation::Greater,
        p > 0 ==> position_relation(table, header, records, clauses, ordered[p - 1], x)
            != Relation::Greater,
    ensures
        in_order(after, table, header, records, clauses),
{
    reveal(in_order);
    assert forall|a: int, b: int| 0 <= a < b < after.len() implies #[trigger] position_relation(
        table,
        header,
        records,
        clauses,
        after[a],
        after[b],
    ) != Relation::Greater by {
        let old_a = if a < p {
            a
        } else {
            a - 1
        };
        let old_b = if b < p {
            b
        } else {
            b - 1
        };
        if a == p {
            assert(after[b] == ordered[old_b]);
            lemma_position_relation_flip(table, header, records, clauses, ordered[old_b], x);
        } else if b == p {
            assert(after[a] == ordered[old_a]);
            if old_a < p - 1 {
                assert(position_relation(
                    table,
                    header,
                    records,
                    clauses,
                    ordered[old_a],
                    ordered[p - 1],
                ) != Relation::Greater);
                lemma_position_relation_chains(
                    table,
                    header,
                    records,
                    clauses,
                    ordered[old_a],
                    ordered[p - 1],
                    x,
                );
            }
        } else {
            assert(after[a] == ordered[old_a]);
            assert(after[b] == ordered[old_b]);
            assert(position_relation(
                table,
                header,
                records,
                clauses,
                ordered[old_a],
                ordered[old_b],
            ) != Relation::Greater);
        }
    }
}

/// Putting a later record before those only that come after it keeps ties in
/// file order.
proof fn lemma_ties_insert(
    ordered: Seq<int>,
    after: Seq<int>,
    p: int,
    x: int,
    table: TableView,
    header: Record,
    records: Seq<Record>,
    clauses: Seq<OrderByView>,
)
    requires
        ties_in_file_order(ordered, table, header, records, clauses),
        is_insertion(ordered, after, p, x),
        forall|a: int| 0 <= a < ordered.len() ==> #[trigger] ordered[a] < x,
        forall|b: int|
            p <= b < ordered.len() ==> position_relation(
                table,
                header,
                records,
                clauses,
                #[trigger] ordered[b],
                x,
            ) == Relation::Greater,
    ensures
        ties_in_file_order(after, table, header, records, clauses),
{
    reveal(ties_in_file_order);
    assert forall|a: int, b: int|
        0 <= a < b < after.len() && #[trigger] position_relation(
            table,
            header,
            records,
            clauses,
            after[a],
            after[b],
        ) == Relation::Equal implies after[a] < after[b] by {
        let old_a = if a < p {
            a
        } else {
            a - 1
        };
        let old_b = if b < p {
            b
        } else {
            b - 1
        };
        if a == p {
            assert(after[b] == ordered[old_b]);
            lemma_position_relation_flip(table, header, records, clauses, ordered[old_b], x);
        } else if b == p {
            assert(after[a] == ordered[old_a]);
            assert(ordered[old_a] < x);
        } else {
            assert(after[a] == ordered[old_a]);
            assert(after[b] == ordered[old_b]);
            assert(position_relation(
                table,
                header,
                records,
                clauses,
                ordered[old_a],
                ordered[old_b],
            ) == Relation::Equal);
        }
    }
}

/// The empty list is a stable order of no hits.
proof fn lemma_empty_order(
    table: TableView,
    header: Record,
    records: Seq<Record>,
    clauses: Seq<OrderByView>,
)
    ensures
        is_stable_order(
            Seq::<int>::empty(),
            Seq::<int>::empty(),
            table,
            header,
            records,
            clauses,
        ),
{
    reveal(is_arrangement);
    reveal(in_order);
    reveal(ties_in_file_order);
}

/// The positions `hits` in the order that the clauses ask for.
fn apply_order_by(
    table: &TableSchema,
    header: &Vec<String>,
    records: &Vec<Vec<String>>,
    hits: &Vec<usize>,
    order_by: &Vec<OrderByClause>,
) -> (ordered: Vec<usize>)
    requires
        forall|k: int| 0 <= k < hits@.len() ==> hits@[k] < records@.len(),
        forall|a: int, b: int| 0 <= a < b < hits@.len() ==> hits@[a] < hits@[b],
    ensures
        is_stable_order(
            positions(ordered@),
            positions(hits@),
            table@,
            names_view(header@),
            rows_view(records@),
            order_by_view(order_by@),
        ),
        positions(ordered@) == stable_order(
            positions(hits@),
            table@,
            names_view(header@),
            rows_view(records@),
            order_by_view(order_by@),
        ),
        forall|k: int| 0 <= k < ordered@.len() ==> ordered@[k] < records@.len(),
{
    let ghost h = names_view(header@);
    let ghost all = rows_view(records@);
    let ghost clauses = order_by_view(order_by@);
    let ghost targets = positions(hits@);
    let mut ordered: Vec<usize> = Vec::new();
    let mut k: usize = 0;
    proof {
        assert(positions(ordered@) == Seq::<int>::empty());
        assert(targets.take(0) == Seq::<int>::empty());
        lemma_empty_order(table@, h, all, clauses);
    }
    while k < hits.len()
        invariant
            k <= hits.len(),
            h == names_view(header@),
            all == rows_view(records@),
            clauses == order_by_view(order_by@),
            targets == positions(hits@),
            forall|j: int| 0 <= j < hits@.len() ==> hits@[j] < records@.len(),
            forall|a: int, b: int| 0 <= a < b < targets.len() ==> targets[a] < targets[b],
            forall|j: int| 0 <= j < ordered@.len() ==> ordered@[j] < records@.len(),
            is_stable_order(positions(ordered@), targets.take(k as int), table@, h, all, clauses),
        decreases hits.len() - k,
    {
        let x = hits[k];
        assert(targets[k as int] == x);
        let ghost before = positions(ordered@);
        let mut p: usize = ordered.len();
        while p > 0 && matches!(
            compare_records(table, header, &records[ordered[p - 1]], &records[x], order_by),
            Relation::Greater
        )
            invariant
                p <= ordered.len(),
                x < records.len(),
                h == names_view(header@),
                all == rows_view(records@),
                clauses == order_by_view(order_by@),
                before == positions(ordered@),
                forall|j: int| 0 <= j < ordered@.len() ==> ordered@[j] < records@.len(),
                forall|b: int|
                    p <= b < before.len() ==> position_relation(
                        table@,
                        h,
                        all,
                        clauses,
                        #[trigger] before[b],
                        x as int,
                    ) == Relation::Greater,
            decreases p,
        {
            assert(position_relation(table@, h, all, clauses, before[p - 1], x as int)
                == Relation::Greater) by {
                reveal(position_relation);
            }
            p -= 1;
        }
        ordered.insert(p, x);
        proof {
            let after = positions(ordered@);
            assert(after == before.insert(p as int, x as int));
            lemma_is_insertion(before, p as int, x as int);
            lemma_arrangement_below(before, targets, k as int);
            lemma_arrangement_insert(before, after, targets, k as int, p as int);
            if p > 0 {
                assert(position_relation(table@, h, all, clauses, before[p - 1], x as int)
                    != Relation::Greater) by {
                    reveal(position_relation);
                }
            }
            lemma_in_order_insert(before, after, p as int, x as int, table@, h, all, clauses);
            lemma_ties_insert(before, after, p as int, x as int, table@, h, all, clauses);
        }
        k += 1;
    }
    proof {
        assert(targets.take(k as int) == targets);
        lemma_stable_order_unique(
            positions(ordered@),
            stable_order(targets, table@, h, all, clauses),
            targets,
            table@,
            h,
            all,
            clauses,
        );
    }
    ordered
}

fn storable_in(ty: ColumnType, value: &Value) -> (b: bool)
    ensures
        b == storable(ty, value@),
{
    match (ty, value) {
        (ColumnType::Integer, Value::Number(n)) => n.is_integer(),
        (ColumnType::Float, Value::Number(_)) => true,
        (ColumnType::String, Value::String(_)) => true,
        (ColumnType::Boolean, Value::String(s)) => truth_of(s.as_str()).is_some(),
        _ => false,
    }
}

/// The row that stores `values` under `columns`, or the first field that the
/// table cannot take.
fn build_row(table: &TableSchema, columns: &[String], values: &Vec<Value>) -> (r: Result<
    Row,
    ExecutionError,
>)
    requires
        columns@.len() == values@.len(),
    ensures
        match first_bad_field(table@, names_view(columns@), values_view(values@), 0) {
            Some(e) => r matches Err(error) && error@ == e,
            None => r matches Ok(row) && row@ == row_of(
                names_view(columns@),
                values_view(values@),
                columns@.len() as int,
            ),
        },
{
    let ghost names = names_view(columns@);
    let ghost literals = values_view(values@);
    let mut row = Row::new();
    let mut i: usize = 0;
    while i < columns.len()
        invariant
            i <= columns.len(),
            columns@.len() == values@.len(),
            names == names_view(columns@),
            literals == values_view(values@),
            first_bad_field(table@, names, literals, 0) == first_bad_field(
                table@,
                names,
                literals,
                i as int,
            ),
            row@ == row_of(names, literals, i as int),
        decreases columns.len() - i,
    {
        let name = &columns[i];
        let value = &values[i];
        let ty = match table.column_type(name.as_str()) {
            Some(ty) => ty,
            None => {
                return Err(ExecutionError::ColumnNotFound(name.clone()));
            },
        };
        if !storable_in(ty, value) {
            return Err(ExecutionError::TypeMismatch(name.clone()));
        }
        row.insert(name.clone(), crate::datastore::literal_text(value));
        i += 1;
    }
    Ok(row)
}

fn storage_failure(e: StoreError, table: &String) -> (error: ExecutionError)
    ensures
        error@ == storage_error(e, table@),
{
    match e {
        StoreError::NotFound => ExecutionError::TableNotFound(table.clone()),
        _ => ExecutionError::Storage(e),
    }
}

/// Executes statements against a storage engine. Its view is the store's
/// schema.
pub struct ExecutionEngine {
    data_store: DataStore,
}

impl View for ExecutionEngine {
    type V = DatabaseView;

    closed spec fn view(&self) -> DatabaseView {
        self.data_store@
    }
}

impl ExecutionEngine {
    pub fn new(data_store: DataStore) -> (engine: Self)
        ensures
            engine@ == data_store@,
    {
        ExecutionEngine { data_store }
    }

    /// The storage engine.
    pub fn data_store(&self) -> (store: &DataStore)
        ensures
            store@ == self@,
    {
        &self.data_store
    }

    /// The storage engine, for mutation.
    pub fn data_store_mut(&mut self) -> (store: &mut DataStore)
        ensures
            store@ == old(self)@,
            final(self)@ == final(store)@,
    {
        &mut self.data_store
    }

    /// Parses a statement and validates it against the store's schema.
    /// Nothing is executed and nothing changes.
    pub fn compile(&self, sql: &str) -> (r: Result<ASTNode, CompileError>)
        ensures
            match r {
                Ok(ast) => compile_spec(self@, sql@) == Ok::<AstView, CompileErrorView>(ast@),
                Err(e) => compile_spec(self@, sql@) == Err::<AstView, CompileErrorView>(e@),
            },
    {
        let ast = match parse_sql(sql) {
            Ok(ast) => ast,
            Err(e) => {
                return Err(CompileError::Parse(e));
            },
        };
        match validate(self.data_store.schema(), &ast) {
            Ok(()) => Ok(ast),
            Err(e) => Err(CompileError::Semantic(e)),
        }
    }

    /// Registers a new table; see [`DataStore::create_table`].
    pub fn create_table(&mut self, name: String, schema: TableSchema) -> (r: Result<
        Vec<u8>,
        StoreError,
    >)
        ensures
            final(self)@ == crate::datastore::create_table_spec(old(self)@, name@, schema@).0,
            crate::datastore::bytes_outcome(r) == crate::datastore::create_table_spec(
                old(self)@,
                name@,
                schema@,
            ).1,
    {
        self.data_store.create_table(name, schema)
    }

    /// Executes a statement against the content `file` of the file of the
    /// statement's table. The schema does not change.
    pub fn execute(&mut self, ast: &ASTNode, file: &[u8]) -> (r: Result<Execution, ExecutionError>)
        ensures
            final(self)@ == old(self)@,
            outcome(r) == execute_spec(old(self)@, ast@, file@),
    {
        match ast {
            ASTNode::Select(stmt) => self.execute_select(stmt, file),
            ASTNode::Insert(stmt) => self.execute_insert(stmt),
            ASTNode::Update(stmt) => self.execute_update(stmt, file),
            ASTNode::Delete(stmt) => self.execute_delete(stmt, file),
        }
    }

    fn execute_select(&self, stmt: &SelectStatement, file: &[u8]) -> (r: Result<
        Execution,
        ExecutionError,
    >)
        ensures
            outcome(r) == select_exec_spec(self@, stmt@, file@),
    {
        let condition = stmt.condition.as_ref();
        let scan = match self.data_store.scan(stmt.table.as_str(), condition, file) {
            Ok(scan) => scan,
            Err(e) => {
                return Err(storage_failure(e, &stmt.table));
            },
        };
        let table = match self.data_store.get_table_schema(stmt.table.as_str()) {
            Some(table) => table,
            None => {
                return Err(ExecutionError::TableNotFound(stmt.table.clone()));
            },
        };
        let ghost h = names_view(scan.header@);
        let ghost all = rows_view(scan.records@);
        let ghost cond = stmt@.condition;
        proof {
            lemma_matching(table@, h, all, cond);
            assert forall|k: int| 0 <= k < scan.hits@.len() implies scan.hits@[k]
                < scan.records@.len() by {
                assert(positions(scan.hits@)[k] == scan.hits@[k]);
            }
            assert forall|a: int, b: int| 0 <= a < b < scan.hits@.len() implies scan.hits@[a]
                < scan.hits@[b] by {
                assert(positions(scan.hits@)[a] < positions(scan.hits@)[b]);
            }
        }
        let ordered = apply_order_by(table, &scan.header, &scan.records, &scan.hits, &stmt.order_by);
        let ghost order = positions(ordered@);
        let ghost target = projected(h, all, order, stmt@.columns);
        let mut rows: Vec<Row> = Vec::new();
        let mut k: usize = 0;
        assert(row_views(rows@) == target.take(0));
        while k < ordered.len()
            invariant
                k <= ordered.len(),
                h == names_view(scan.header@),
                all == rows_view(scan.records@),
                order == positions(ordered@),
                forall|j: int| 0 <= j < ordered@.len() ==> ordered@[j] < scan.records@.len(),
                target == projected(h, all, order, stmt@.columns),
                row_views(rows@) == target.take(k as int),
            decreases ordered.len() - k,
        {
            let i = ordered[k];
            let row = project_columns(&scan.header, &scan.records[i], stmt.columns.as_slice());
            assert(row@ == target[k as int]);
            let ghost before = row_views(rows@);
            rows.push(row);
            proof {
                lemma_take_push(target, k as int);
                assert(row_views(rows@) == before.push(target[k as int]));
            }
            k += 1;
        }
        assert(target.take(k as int) == target);
        assert(condition_ref_view(condition) == stmt@.condition);
        Ok(Execution { result: QueryResult::Select(rows), change: FileChange::Unchanged })
    }

    fn execute_insert(&mut self, stmt: &InsertStatement) -> (r: Result<Execution, ExecutionError>)
        ensures
            final(self)@ == old(self)@,
            outcome(r) == insert_spec(old(self)@, stmt@),
    {
        let table = match self.data_store.get_table_schema(stmt.table.as_str()) {
            Some(table) => table,
            None => {
                return Err(ExecutionError::TableNotFound(stmt.table.clone()));
            },
        };
        let row = if stmt.columns.len() == 0 {
            let columns = crate::datastore::header_of(table);
            if columns.len() != stmt.values.len() {
                return Err(ExecutionError::Storage(StoreError::InvalidShape));
            }
            build_row(table, columns.as_slice(), &stmt.values)?
        } else {
            if stmt.columns.len() != stmt.values.len() {
                return Err(ExecutionError::Storage(StoreError::InvalidShape));
            }
            build_row(table, stmt.columns.as_slice(), &stmt.values)?
        };
        match self.data_store.insert_row(stmt.table.as_str(), row) {
            Ok(bytes) => Ok(
                Execution { result: QueryResult::Insert(1), change: FileChange::Append(bytes) },
            ),
            Err(e) => Err(storage_failure(e, &stmt.table)),
        }
    }

    fn execute_update(&mut self, stmt: &UpdateStatement, file: &[u8]) -> (r: Result<
        Execution,
        ExecutionError,
    >)
        ensures
            final(self)@ == old(self)@,
            outcome(r) == update_exec_spec(old(self)@, stmt@, file@),
    {
        match self.data_store.update(
            stmt.table.as_str(),
            &stmt.updates,
            stmt.condition.as_ref(),
            file,
        ) {
            Ok(rewrite) => {
                let count = rewrite.count;
                let change = if count == 0 {
                    FileChange::Unchanged
                } else {
                    FileChange::Replace(rewrite.content)
                };
                Ok(Execution { result: QueryResult::Update(count), change })
            },
            Err(e) => Err(storage_failure(e, &stmt.table)),
        }
    }

    fn execute_delete(&mut self, stmt: &DeleteStatement, file: &[u8]) -> (r: Result<
        Execution,
        ExecutionError,
    >)
        ensures
            final(self)@ == old(self)@,
            outcome(r) == delete_exec_spec(old(self)@, stmt@, file@),
    {
        match self.data_store.delete(stmt.table.as_str(), stmt.condition.as_ref(), file) {
            Ok(rewrite) => {
                let count = rewrite.count;
                let change = if count == 0 {
                    FileChange::Unchanged
                } else {
                    FileChange::Replace(rewrite.content)
                };
                Ok(Execution { result: QueryResult::Delete(count), change })
            },
            Err(e) => Err(storage_failure(e, &stmt.table)),
        }
    }
}

} // verus!
