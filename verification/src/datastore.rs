//! The storage engine: tables as delimited text, typed predicates over their
//! records, and the new content of a table after a mutation.
//!
//! The engine never touches a file. Each operation takes the bytes of the
//! table's file and returns what is to be written; reading and writing the
//! file, and replacing it atomically, is the caller's part.

use vstd::prelude::*;
use crate::ast::{ComparisonOperator, Condition, ConditionView, Value, ValueView};
use crate::codec::{csv_decoded, csv_encoded, decode, encode, rows_view};
use crate::decimal::{parse_spec, Decimal};
use crate::ordered_map::{distinct_keys, has_key, keys_of, lookup, put, OrderedMap};
pub use crate::schema::ColumnType;
use crate::schema::{DatabaseSchema, DatabaseView, TableSchema, TableView};
use crate::text::{
    chars_of, compare_text, find_name, lemma_position_from, lemma_take_push, names_view, position_of,
    text_relation, Relation,
};

verus! {

/// Why a storage operation failed.
#[derive(Debug, PartialEq, Eq, Clone, Copy, Structural)]
pub enum StoreError {
    /// No table of that name.
    NotFound,
    /// A table of that name exists already.
    AlreadyExists,
    /// The row has not as many fields as the table has columns.
    InvalidShape,
    /// The bytes of the table's file are not delimited text of one width.
    Malformed,
    /// The records could not be written as delimited text.
    Unwritable,
}

/// One record of a table file: its fields, in column order.
pub type Record = Seq<Seq<char>>;

/// A row as a mapping: column names with their texts, no name twice.
pub type RowView = Seq<(Seq<char>, Seq<char>)>;

/// A row: a mapping from column name to the text stored under it, in the
/// order in which the columns were inserted.
#[derive(Debug, PartialEq)]
pub struct Row {
    fields: OrderedMap<String>,
}

/// The contents of the entries of a row.
pub open spec fn fields_view(fields: Seq<(Seq<char>, String)>) -> RowView {
    Seq::new(fields.len(), |i: int| (fields[i].0, fields[i].1@))
}

impl View for Row {
    type V = RowView;

    closed spec fn view(&self) -> RowView {
        fields_view(self.fields@)
    }
}

proof fn lemma_fields_keys(fields: Seq<(Seq<char>, String)>)
    ensures
        keys_of(fields_view(fields)) == keys_of(fields),
{
    assert(keys_of(fields_view(fields)) =~= keys_of(fields));
}

impl Row {
    /// The empty row.
    pub fn new() -> (row: Row)
        ensures
            row@ == Seq::<(Seq<char>, Seq<char>)>::empty(),
    {
        let row = Row { fields: OrderedMap::new() };
        assert(row@ =~= Seq::<(Seq<char>, Seq<char>)>::empty());
        row
    }

    /// The number of columns.
    pub fn len(&self) -> (n: usize)
        ensures
            n == self@.len(),
            distinct_keys(self@),
    {
        let n = self.fields.len();
        proof {
            lemma_fields_keys(self.fields@);
            assert forall|i: int, j: int| 0 <= i < j < self@.len() implies self@[i].0
                != self@[j].0 by {
                assert(self.fields@[i].0 != self.fields@[j].0);
            }
        }
        n
    }

    /// Puts `text` under `column`: in the place of the old text, where there
    /// was one, else at the end.
    pub fn insert(&mut self, column: String, text: String)
        ensures
            final(self)@ == put(old(self)@, column@, text@),
    {
        let ghost before = self.fields@;
        let ghost c = column@;
        let ghost stored = text;
        self.fields.insert(column, text);
        proof {
            lemma_fields_keys(before);
            lemma_position_from(keys_of(before), c, 0);
            let p = position_of(keys_of(before), c);
            if p < before.len() {
                assert(fields_view(before.update(p, (c, stored))) =~= fields_view(before).update(
                    p,
                    (c, stored@),
                ));
            } else {
                assert(fields_view(before.push((c, stored))) =~= fields_view(before).push(
                    (c, stored@),
                ));
            }
        }
    }

    /// The text under `column`, if any.
    pub fn get(&self, column: &str) -> (r: Option<&String>)
        ensures
            match lookup(self@, column@) {
                Some(text) => r matches Some(s) && s@ == text,
                None => r is None,
            },
    {
        proof {
            lemma_fields_keys(self.fields@);
            lemma_position_from(keys_of(self@), column@, 0);
        }
        self.fields.get(column)
    }

    /// Whether the row has a field `column`.
    pub fn contains_key(&self, column: &str) -> (b: bool)
        ensures
            b == has_key(self@, column@),
    {
        proof {
            lemma_fields_keys(self.fields@);
        }
        self.fields.contains_key(column)
    }

    /// The name of the column at position `i`.
    pub fn column_at(&self, i: usize) -> (name: &String)
        requires
            i < self@.len(),
        ensures
            name@ == self@[i as int].0,
    {
        self.fields.key_at(i)
    }

    /// The text at position `i`.
    pub fn text_at(&self, i: usize) -> (text: &String)
        requires
            i < self@.len(),
        ensures
            text@ == self@[i as int].1,
    {
        self.fields.value_at(i)
    }
}

/// The field of `record` in the column `column`, going by the header: the
/// field at the first position that the header gives that name.
pub open spec fn cell(header: Record, record: Record, column: Seq<char>) -> Option<Seq<char>> {
    let p = position_of(header, column);
    if p < header.len() && p < record.len() {
        Some(record[p])
    } else {
        None
    }
}

/// The truth value that a text writes: `true` or `false`, nothing else.
pub open spec fn truth_value(text: Seq<char>) -> Option<bool> {
    if text == "true"@ {
        Some(true)
    } else if text == "false"@ {
        Some(false)
    } else {
        None
    }
}

/// How a stored text stands to a literal under the column's type, if the two
/// can be compared at all: in an integer or float column the text is read as
/// a whole or decimal number and compared with a number literal by value; in
/// a string column the text is compared with a string literal character by
/// character; in a boolean column text and string literal are both read as
/// truth values, `false` before `true`. A text that cannot be read under its
/// column's type, and a literal of the wrong kind, compare with nothing.
pub open spec fn typed_relation(ty: ColumnType, text: Seq<char>, literal: ValueView) -> Option<
    Relation,
> {
    match (ty, literal) {
        (ColumnType::Integer, ValueView::Number(n)) => match parse_spec(text, false) {
            Some(d) => Some(d.relation(n)),
            None => None,
        },
        (ColumnType::Float, ValueView::Number(n)) => match parse_spec(text, true) {
            Some(d) => Some(d.relation(n)),
            None => None,
        },
        (ColumnType::String, ValueView::String(s)) => Some(text_relation(text, s)),
        (ColumnType::Boolean, ValueView::String(s)) => match (truth_value(text), truth_value(s)) {
            (Some(a), Some(b)) => Some(
                if a == b {
                    Relation::Equal
                } else if b {
                    Relation::Less
                } else {
                    Relation::Greater
                },
            ),
            _ => None,
        },
        _ => None,
    }
}

/// Whether a comparison holds of two values that stand in `relation`.
pub open spec fn holds(op: ComparisonOperator, relation: Relation) -> bool {
    match op {
        ComparisonOperator::Equals => relation == Relation::Equal,
        ComparisonOperator::NotEquals => relation != Relation::Equal,
        ComparisonOperator::GreaterThan => relation == Relation::Greater,
        ComparisonOperator::LessThan => relation == Relation::Less,
        ComparisonOperator::GreaterEqualThan => relation != Relation::Less,
        ComparisonOperator::LessEqualThan => relation != Relation::Greater,
    }
}

/// Whether a record satisfies a condition. No condition is satisfied by every
/// record. A comparison is satisfied if the table declares the column, the
/// record has a field in it, the field compares with the literal under the
/// column's type, and the comparison holds; in every other case the record
/// fails the condition.
pub open spec fn satisfies(
    table: TableView,
    header: Record,
    record: Record,
    condition: Option<ConditionView>,
) -> bool {
    match condition {
        None => true,
        Some(ConditionView::Comparison(column, op, literal)) => match (
            lookup(table, column),
            cell(header, record, column),
        ) {
            (Some(ty), Some(text)) => match typed_relation(ty, text, literal) {
                Some(relation) => holds(op, relation),
                None => false,
            },
            _ => false,
        },
    }
}

/// The positions of the records that satisfy the condition, ascending.
pub open spec fn matching(
    table: TableView,
    header: Record,
    records: Seq<Record>,
    condition: Option<ConditionView>,
) -> Seq<int>
    decreases records.len(),
{
    if records.len() == 0 {
        Seq::empty()
    } else {
        let before = matching(table, header, records.drop_last(), condition);
        if satisfies(table, header, records.last(), condition) {
            before.push(records.len() - 1)
        } else {
            before
        }
    }
}

/// The records that do not satisfy the condition, in order.
pub open spec fn remaining(
    table: TableView,
    header: Record,
    records: Seq<Record>,
    condition: Option<ConditionView>,
) -> Seq<Record>
    decreases records.len(),
{
    if records.len() == 0 {
        Seq::empty()
    } else {
        let before = remaining(table, header, records.drop_last(), condition);
        if satisfies(table, header, records.last(), condition) {
            before
        } else {
            before.push(records.last())
        }
    }
}

/// The columns that a select list asks for: all of the header if the list
/// holds `*`, else the list.
pub open spec fn wanted(header: Record, columns: Seq<Seq<char>>) -> Seq<Seq<char>> {
    if columns.contains("*"@) {
        header
    } else {
        columns
    }
}

/// The row made of the fields of `record` in the given columns, in the order
/// given; a column in which the record has no field is left out.
pub open spec fn project(header: Record, record: Record, columns: Seq<Seq<char>>) -> RowView
    decreases columns.len(),
{
    if columns.len() == 0 {
        Seq::empty()
    } else {
        let before = project(header, record, columns.drop_last());
        match cell(header, record, columns.last()) {
            Some(text) => put(before, columns.last(), text),
            None => before,
        }
    }
}

/// The rows that a selection yields: of every record that satisfies the
/// condition, in file order, the wanted columns.
pub open spec fn select_rows(
    table: TableView,
    header: Record,
    records: Seq<Record>,
    columns: Seq<Seq<char>>,
    condition: Option<ConditionView>,
) -> Seq<RowView> {
    let hits = matching(table, header, records, condition);
    Seq::new(hits.len(), |k: int| project(header, records[hits[k]], wanted(header, columns)))
}

/// The text that is stored for a literal: the decimal notation of a number,
/// the characters of a string.
pub open spec fn value_text(value: ValueView) -> Seq<char> {
    match value {
        ValueView::Number(n) => n.text(),
        ValueView::String(s) => s,
    }
}

/// The value that a list of assignments gives `column`: that of the last
/// assignment to it.
pub open spec fn assigned(updates: Seq<(Seq<char>, ValueView)>, column: Seq<char>) -> Option<
    ValueView,
>
    decreases updates.len(),
{
    if updates.len() == 0 {
        None
    } else if updates.last().0 == column {
        Some(updates.last().1)
    } else {
        assigned(updates.drop_last(), column)
    }
}

/// `record` after the assignments: each field whose column is assigned to
/// holds the text of the assigned value, every other field is as it was.
pub open spec fn updated_record(
    header: Record,
    record: Record,
    updates: Seq<(Seq<char>, ValueView)>,
) -> Record {
    Seq::new(
        record.len(),
        |i: int|
            if i < header.len() {
                match assigned(updates, header[i]) {
                    Some(v) => value_text(v),
                    None => record[i],
                }
            } else {
                record[i]
            },
    )
}

/// The records after an update: those that satisfy the condition with the
/// assignments applied, the others as they were.
pub open spec fn update_rows(
    table: TableView,
    header: Record,
    records: Seq<Record>,
    updates: Seq<(Seq<char>, ValueView)>,
    condition: Option<ConditionView>,
) -> Seq<Record> {
    Seq::new(
        records.len(),
        |i: int|
            if satisfies(table, header, records[i], condition) {
                updated_record(header, records[i], updates)
            } else {
                records[i]
            },
    )
}

/// The record that stores `row` in a table: for each column, in declared
/// order, the row's text under that name, or the empty text if it has none.
pub open spec fn record_of(table: TableView, row: RowView) -> Record {
    Seq::new(
        table.len(),
        |i: int|
            match lookup(row, table[i].0) {
                Some(text) => text,
                None => Seq::empty(),
            },
    )
}

/// The content of an optional condition.
pub open spec fn condition_ref_view(condition: Option<&Condition>) -> Option<ConditionView> {
    match condition {
        Some(c) => Some(c@),
        None => None,
    }
}

/// `matching` lists positions of `records`, ascending, and exactly those of
/// the records that satisfy the condition.
pub proof fn lemma_matching(
    table: TableView,
    header: Record,
    records: Seq<Record>,
    condition: Option<ConditionView>,
)
    ensures
        matching(table, header, records, condition).len() <= records.len(),
        forall|k: int|
            0 <= k < matching(table, header, records, condition).len() ==> {
                let i = #[trigger] matching(table, header, records, condition)[k];
                0 <= i < records.len() && satisfies(table, header, records[i], condition)
            },
        forall|k: int, l: int|
            0 <= k < l < matching(table, header, records, condition).len() ==> matching(
                table,
                header,
                records,
                condition,
            )[k] < matching(table, header, records, condition)[l],
        forall|i: int|
            0 <= i < records.len() && satisfies(table, header, #[trigger] records[i], condition)
                ==> matching(table, header, records, condition).contains(i),
    decreases records.len(),
{
    if records.len() > 0 {
        let front = records.drop_last();
        lemma_matching(table, header, front, condition);
        let before = matching(table, header, front, condition);
        let all = matching(table, header, records, condition);
        assert forall|i: int|
            0 <= i < records.len() && satisfies(
                table,
                header,
                #[trigger] records[i],
                condition,
            ) implies all.contains(i) by {
            if i < front.len() {
                assert(front[i] == records[i]);
                let k = choose|k: int| 0 <= k < before.len() && before[k] == i;
                assert(all[k] == i);
            } else {
                assert(all[all.len() - 1] == i);
            }
        }
        assert forall|k: int| 0 <= k < all.len() implies {
            let i = #[trigger] all[k];
            0 <= i < records.len() && satisfies(table, header, records[i], condition)
        } by {
            if k < before.len() {
                assert(front[before[k]] == records[before[k]]);
            }
        }
    }
}

/// The contents of a list of rows.
pub open spec fn row_views(rows: Seq<Row>) -> Seq<RowView> {
    Seq::new(rows.len(), |i: int| rows[i]@)
}

/// A list of positions as numbers.
pub open spec fn positions(hits: Seq<usize>) -> Seq<int> {
    Seq::new(hits.len(), |i: int| hits[i] as int)
}

/// The field of `record` in the column `column`, going by the header.
pub fn cell_of<'a>(header: &Vec<String>, record: &'a Vec<String>, column: &str) -> (r: Option<
    &'a String,
>)
    ensures
        match cell(names_view(header@), names_view(record@), column@) {
            Some(text) => r matches Some(s) && s@ == text,
            None => r is None,
        },
{
    let p = find_name(header, column);
    if p < header.len() && p < record.len() {
        Some(&record[p])
    } else {
        None
    }
}

/// The truth value that a text writes.
pub fn truth_of(text: &str) -> (r: Option<bool>)
    ensures
        r == truth_value(text@),
{
    if str::eq(text, "true") {
        Some(true)
    } else if str::eq(text, "false") {
        Some(false)
    } else {
        None
    }
}

/// How a stored text stands to a literal under a column type.
pub fn relation_under(ty: ColumnType, text: &str, literal: &Value) -> (r: Option<Relation>)
    ensures
        r == typed_relation(ty, text@, literal@),
{
    match (ty, literal) {
        (ColumnType::Integer, Value::Number(n)) => match Decimal::parse_integer(text) {
            Some(d) => Some(d.compare(n)),
            None => None,
        },
        (ColumnType::Float, Value::Number(n)) => match Decimal::parse(text) {
            Some(d) => Some(d.compare(n)),
            None => None,
        },
        (ColumnType::String, Value::String(s)) => {
            let a = chars_of(text);
            let b = chars_of(s.as_str());
            Some(compare_text(&a, &b))
        },
        (ColumnType::Boolean, Value::String(s)) => match (truth_of(text), truth_of(s.as_str())) {
            (Some(a), Some(b)) => Some(
                if a == b {
                    Relation::Equal
                } else if b {
                    Relation::Less
                } else {
                    Relation::Greater
                },
            ),
            _ => None,
        },
        _ => None,
    }
}

/// Whether a comparison holds of two values that stand in `relation`.
pub fn comparison_holds(op: ComparisonOperator, relation: Relation) -> (b: bool)
    ensures
        b == holds(op, relation),
{
    match op {
        ComparisonOperator::Equals => matches!(relation, Relation::Equal),
        ComparisonOperator::NotEquals => !matches!(relation, Relation::Equal),
        ComparisonOperator::GreaterThan => matches!(relation, Relation::Greater),
        ComparisonOperator::LessThan => matches!(relation, Relation::Less),
        ComparisonOperator::GreaterEqualThan => !matches!(relation, Relation::Less),
        ComparisonOperator::LessEqualThan => !matches!(relation, Relation::Greater),
    }
}

/// Whether a record satisfies a condition under the table's column types. A
/// record that cannot be judged fails the condition; the scan goes on.
pub fn evaluate_condition(
    table: &TableSchema,
    header: &Vec<String>,
    record: &Vec<String>,
    condition: Option<&Condition>,
) -> (b: bool)
    ensures
        b == satisfies(
            table@,
            names_view(header@),
            names_view(record@),
            condition_ref_view(condition),
        ),
{
    match condition {
        None => true,
        Some(Condition::Comparison(column, op, literal)) => {
            let ty = match table.column_type(column.as_str()) {
                Some(ty) => ty,
                None => {
                    return false;
                },
            };
            let text = match cell_of(header, record, column.as_str()) {
                Some(text) => text,
                None => {
                    return false;
                },
            };
            match relation_under(ty, text.as_str(), literal) {
                Some(relation) => comparison_holds(*op, relation),
                None => false,
            }
        },
    }
}

fn has_star(columns: &[String]) -> (b: bool)
    ensures
        b == names_view(columns@).contains("*"@),
{
    let ghost names = names_view(columns@);
    let mut i: usize = 0;
    while i < columns.len()
        invariant
            i <= columns.len(),
            names == names_view(columns@),
            forall|k: int| 0 <= k < i ==> names[k] != "*"@,
        decreases columns.len() - i,
    {
        if str::eq(columns[i].as_str(), "*") {
            assert(names[i as int] == "*"@);
            return true;
        }
        i += 1;
    }
    false
}

fn project_onto(header: &Vec<String>, record: &Vec<String>, columns: &[String]) -> (row: Row)
    ensures
        row@ == project(names_view(header@), names_view(record@), names_view(columns@)),
{
    let ghost names = names_view(columns@);
    let mut row = Row::new();
    let mut i: usize = 0;
    assert(names.take(0) == Seq::<Seq<char>>::empty());
    while i < columns.len()
        invariant
            i <= columns.len(),
            names == names_view(columns@),
            row@ == project(names_view(header@), names_view(record@), names.take(i as int)),
        decreases columns.len() - i,
    {
        let column = &columns[i];
        assert(names.take(i + 1).drop_last() == names.take(i as int));
        assert(names.take(i + 1).last() == column@);
        match cell_of(header, record, column.as_str()) {
            Some(text) => {
                row.insert(column.clone(), text.clone());
            },
            None => {},
        }
        i += 1;
    }
    assert(names.take(i as int) == names);
    row
}

/// The row made of the wanted columns of a record: all columns of the header
/// if the list holds `*`, else the listed ones.
pub fn project_columns(header: &Vec<String>, record: &Vec<String>, columns: &[String]) -> (row:
    Row)
    ensures
        row@ == project(
            names_view(header@),
            names_view(record@),
            wanted(names_view(header@), names_view(columns@)),
        ),
{
    if has_star(columns) {
        project_onto(header, record, header.as_slice())
    } else {
        project_onto(header, record, columns)
    }
}

/// The positions of the records that satisfy the condition.
pub fn matching_records(
    table: &TableSchema,
    header: &Vec<String>,
    records: &Vec<Vec<String>>,
    condition: Option<&Condition>,
) -> (hits: Vec<usize>)
    ensures
        positions(hits@) == matching(
            table@,
            names_view(header@),
            rows_view(records@),
            condition_ref_view(condition),
        ),
{
    let ghost all = rows_view(records@);
    let mut hits: Vec<usize> = Vec::new();
    let mut i: usize = 0;
    assert(all.take(0) == Seq::<Record>::empty());
    assert(positions(hits@) == Seq::<int>::empty());
    while i < records.len()
        invariant
            i <= records.len(),
            all == rows_view(records@),
            positions(hits@) == matching(
                table@,
                names_view(header@),
                all.take(i as int),
                condition_ref_view(condition),
            ),
        decreases records.len() - i,
    {
        assert(all.take(i + 1).drop_last() == all.take(i as int));
        assert(all.take(i + 1).last() == names_view(records@[i as int]@));
        let ghost before = positions(hits@);
        if evaluate_condition(table, header, &records[i], condition) {
            hits.push(i);
            assert(positions(hits@) == before.push(i as int));
        }
        i += 1;
    }
    assert(all.take(i as int) == all);
    hits
}

/// The text that is stored for a literal.
pub fn literal_text(value: &Value) -> (text: String)
    ensures
        text@ == value_text(value@),
{
    match value {
        Value::Number(n) => n.to_text(),
        Value::String(s) => s.clone(),
    }
}

fn find_assigned<'a>(updates: &'a Vec<(String, Value)>, column: &str) -> (r: Option<&'a Value>)
    ensures
        match assigned(crate::ast::updates_view(updates@), column@) {
            Some(v) => r matches Some(value) && value@ == v,
            None => r is None,
        },
{
    let ghost all = crate::ast::updates_view(updates@);
    let mut i: usize = updates.len();
    assert(all.take(i as int) == all);
    while i > 0
        invariant
            i <= updates.len(),
            all == crate::ast::updates_view(updates@),
            assigned(all, column@) == assigned(all.take(i as int), column@),
        decreases i,
    {
        assert(all.take(i as int).drop_last() == all.take(i - 1));
        assert(all.take(i as int).last() == all[i - 1]);
        if str::eq(updates[i - 1].0.as_str(), column) {
            return Some(&updates[i - 1].1);
        }
        i -= 1;
    }
    None
}

fn copy_record(record: &Vec<String>) -> (copy: Vec<String>)
    ensures
        names_view(copy@) == names_view(record@),
{
    let mut copy: Vec<String> = Vec::new();
    let mut i: usize = 0;
    while i < record.len()
        invariant
            i <= record.len(),
            names_view(copy@) == names_view(record@).take(i as int),
        decreases record.len() - i,
    {
        let ghost before = names_view(copy@);
        copy.push(record[i].clone());
        proof {
            lemma_take_push(names_view(record@), i as int);
            assert(names_view(copy@) == before.push(names_view(record@)[i as int]));
        }
        i += 1;
    }
    assert(names_view(record@).take(i as int) == names_view(record@));
    copy
}

fn update_record(header: &Vec<String>, record: &Vec<String>, updates: &Vec<(String, Value)>) -> (r:
    Vec<String>)
    ensures
        names_view(r@) == updated_record(
            names_view(header@),
            names_view(record@),
            crate::ast::updates_view(updates@),
        ),
{
    let ghost target = updated_record(
        names_view(header@),
        names_view(record@),
        crate::ast::updates_view(updates@),
    );
    let mut r: Vec<String> = Vec::new();
    let mut i: usize = 0;
    while i < record.len()
        invariant
            i <= record.len(),
            target == updated_record(
                names_view(header@),
                names_view(record@),
                crate::ast::updates_view(updates@),
            ),
            names_view(r@) == target.take(i as int),
        decreases record.len() - i,
    {
        let field = if i < header.len() {
            match find_assigned(updates, header[i].as_str()) {
                Some(value) => literal_text(value),
                None => record[i].clone(),
            }
        } else {
            record[i].clone()
        };
        assert(field@ == target[i as int]);
        let ghost before = names_view(r@);
        r.push(field);
        proof {
            lemma_take_push(target, i as int);
            assert(names_view(r@) == before.push(target[i as int]));
        }
        i += 1;
    }
    assert(target.take(i as int) == target);
    r
}

/// The names of the columns of a table, in declared order.
pub fn header_of(schema: &TableSchema) -> (header: Vec<String>)
    ensures
        names_view(header@) == keys_of(schema@),
{
    let mut header: Vec<String> = Vec::new();
    let n = schema.columns.len();
    let mut i: usize = 0;
    while i < n
        invariant
            i <= n,
            n == schema@.len(),
            names_view(header@) == keys_of(schema@).take(i as int),
        decreases n - i,
    {
        let ghost before = names_view(header@);
        header.push(schema.columns.key_at(i).clone());
        proof {
            lemma_take_push(keys_of(schema@), i as int);
            assert(names_view(header@) == before.push(keys_of(schema@)[i as int]));
        }
        i += 1;
    }
    assert(keys_of(schema@).take(i as int) == keys_of(schema@));
    header
}

/// The record that stores `row` in a table with the columns of `schema`.
pub fn record_for(schema: &TableSchema, row: &Row) -> (record: Vec<String>)
    ensures
        names_view(record@) == record_of(schema@, row@),
{
    let ghost target = record_of(schema@, row@);
    let mut record: Vec<String> = Vec::new();
    let n = schema.columns.len();
    let mut i: usize = 0;
    while i < n
        invariant
            i <= n,
            n == schema@.len(),
            target == record_of(schema@, row@),
            names_view(record@) == target.take(i as int),
        decreases n - i,
    {
        let field = match row.get(schema.columns.key_at(i).as_str()) {
            Some(text) => text.clone(),
            None => String::new(),
        };
        assert(field@ == target[i as int]);
        let ghost before = names_view(record@);
        record.push(field);
        proof {
            lemma_take_push(target, i as int);
            assert(names_view(record@) == before.push(target[i as int]));
        }
        i += 1;
    }
    assert(target.take(i as int) == target);
    record
}

/// The new content of a table file and the number of records affected.
#[derive(Debug, PartialEq)]
pub struct Rewrite {
    pub content: Vec<u8>,
    pub count: usize,
}

/// A table file as read: its header, its records, and the positions of the
/// records that satisfy the condition of the scan.
#[derive(Debug)]
pub struct Scan {
    pub header: Vec<String>,
    pub records: Vec<Vec<String>>,
    pub hits: Vec<usize>,
}

/// What `create_table` does to the schema and returns: a name that is taken
/// changes nothing; else the table is registered and the content of its new
/// file is the header record.
pub open spec fn create_table_spec(db: DatabaseView, name: Seq<char>, table: TableView) -> (
    DatabaseView,
    Result<Seq<u8>, StoreError>,
) {
    if has_key(db, name) {
        (db, Err(StoreError::AlreadyExists))
    } else {
        match csv_encoded(seq![keys_of(table)]) {
            Some(bytes) => (db.push((name, table)), Ok(bytes)),
            None => (db, Err(StoreError::Unwritable)),
        }
    }
}

/// What `insert_row` returns: the text to append to the table's file, one
/// record with the row's fields in declared column order.
pub open spec fn insert_row_spec(db: DatabaseView, name: Seq<char>, row: RowView) -> Result<
    Seq<u8>,
    StoreError,
> {
    match lookup(db, name) {
        None => Err(StoreError::NotFound),
        Some(table) => if row.len() != table.len() {
            Err(StoreError::InvalidShape)
        } else {
            match csv_encoded(seq![record_of(table, row)]) {
                Some(bytes) => Ok(bytes),
                None => Err(StoreError::Unwritable),
            }
        },
    }
}

/// What `select` returns for a table file with the content `file`.
pub open spec fn select_spec(
    db: DatabaseView,
    name: Seq<char>,
    columns: Seq<Seq<char>>,
    condition: Option<ConditionView>,
    file: Seq<u8>,
) -> Result<Seq<RowView>, StoreError> {
    match lookup(db, name) {
        None => Err(StoreError::NotFound),
        Some(table) => match csv_decoded(file) {
            None => Err(StoreError::Malformed),
            Some((header, records)) => Ok(select_rows(table, header, records, columns, condition)),
        },
    }
}

/// What `update` returns for a table file with the content `file`: the new
/// content and the number of records that satisfied the condition. Where none
/// did, the content is `file` itself.
pub open spec fn update_spec(
    db: DatabaseView,
    name: Seq<char>,
    updates: Seq<(Seq<char>, ValueView)>,
    condition: Option<ConditionView>,
    file: Seq<u8>,
) -> Result<(Seq<u8>, nat), StoreError> {
    match lookup(db, name) {
        None => Err(StoreError::NotFound),
        Some(table) => match csv_decoded(file) {
            None => Err(StoreError::Malformed),
            Some((header, records)) => {
                let count = matching(table, header, records, condition).len();
                if count == 0 {
                    Ok((file, 0))
                } else {
                    match csv_encoded(
                        seq![header] + update_rows(table, header, records, updates, condition),
                    ) {
                        Some(bytes) => Ok((bytes, count)),
                        None => Err(StoreError::Unwritable),
                    }
                }
            },
        },
    }
}

/// What `delete` returns for a table file with the content `file`: the new
/// content and the number of records that satisfied the condition. Where none
/// did, the content is `file` itself.
pub open spec fn delete_spec(
    db: DatabaseView,
    name: Seq<char>,
    condition: Option<ConditionView>,
    file: Seq<u8>,
) -> Result<(Seq<u8>, nat), StoreError> {
    match lookup(db, name) {
        None => Err(StoreError::NotFound),
        Some(table) => match csv_decoded(file) {
            None => Err(StoreError::Malformed),
            Some((header, records)) => {
                let count = matching(table, header, records, condition).len();
                if count == 0 {
                    Ok((file, 0))
                } else {
                    match csv_encoded(seq![header] + remaining(table, header, records, condition)) {
                        Some(bytes) => Ok((bytes, count)),
                        None => Err(StoreError::Unwritable),
                    }
                }
            },
        },
    }
}

/// What an operation that yields bytes returned, as mathematics.
pub open spec fn bytes_outcome(r: Result<Vec<u8>, StoreError>) -> Result<Seq<u8>, StoreError> {
    match r {
        Ok(bytes) => Ok(bytes@),
        Err(e) => Err(e),
    }
}

/// What a selection returned, as mathematics.
pub open spec fn rows_outcome(r: Result<Vec<Row>, StoreError>) -> Result<Seq<RowView>, StoreError> {
    match r {
        Ok(rows) => Ok(row_views(rows@)),
        Err(e) => Err(e),
    }
}

/// What a mutation returned, as mathematics.
pub open spec fn rewrite_outcome(r: Result<Rewrite, StoreError>) -> Result<
    (Seq<u8>, nat),
    StoreError,
> {
    match r {
        Ok(rewrite) => Ok((rewrite.content@, rewrite.count as nat)),
        Err(e) => Err(e),
    }
}

fn encode_rows(rows: &Vec<Vec<String>>) -> (r: Result<Vec<u8>, StoreError>)
    ensures
        match csv_encoded(rows_view(rows@)) {
            Some(bytes) => r matches Ok(b) && b@ == bytes,
            None => r == Err::<Vec<u8>, StoreError>(StoreError::Unwritable),
        },
{
    match encode(rows) {
        Ok(bytes) => Ok(bytes),
        Err(_) => Err(StoreError::Unwritable),
    }
}

/// The storage engine. Its view is the schema it owns.
pub struct DataStore {
    schemas: DatabaseSchema,
}

impl View for DataStore {
    type V = DatabaseView;

    closed spec fn view(&self) -> DatabaseView {
        self.schemas@
    }
}

impl DataStore {
    /// A store over the tables that `schemas` declares.
    pub fn new(schemas: DatabaseSchema) -> (store: DataStore)
        ensures
            store@ == schemas@,
    {
        DataStore { schemas }
    }

    /// The schema, for those who validate statements against it.
    pub fn schema(&self) -> (schema: &DatabaseSchema)
        ensures
            schema@ == self@,
    {
        &self.schemas
    }

    /// Registers a new table and returns the content of its file: the header
    /// record. A name that is taken is refused and nothing changes.
    pub fn create_table(&mut self, name: String, schema: TableSchema) -> (r: Result<
        Vec<u8>,
        StoreError,
    >)
        ensures
            final(self)@ == create_table_spec(old(self)@, name@, schema@).0,
            bytes_outcome(r) == create_table_spec(old(self)@, name@, schema@).1,
    {
        if self.schemas.contains_table(name.as_str()) {
            return Err(StoreError::AlreadyExists);
        }
        let mut rows: Vec<Vec<String>> = Vec::new();
        rows.push(header_of(&schema));
        assert(rows_view(rows@) == seq![keys_of(schema@)]);
        let bytes = encode_rows(&rows)?;
        let ghost before = self.schemas.tables@;
        proof {
            crate::schema::lemma_keys(&self.schemas);
            lemma_position_from(keys_of(before), name@, 0);
        }
        self.schemas.tables.insert(name, schema);
        assert(self.schemas@ == old(self)@.push((name@, schema@)));
        Ok(bytes)
    }

    /// The text to append to the file of `table_name` so that it holds `row`.
    pub fn insert_row(&mut self, table_name: &str, row: Row) -> (r: Result<Vec<u8>, StoreError>)
        ensures
            final(self)@ == old(self)@,
            bytes_outcome(r) == insert_row_spec(old(self)@, table_name@, row@),
    {
        let table_schema = match self.schemas.table(table_name) {
            Some(t) => t,
            None => {
                return Err(StoreError::NotFound);
            },
        };
        if row.len() != table_schema.columns.len() {
            return Err(StoreError::InvalidShape);
        }
        let mut rows: Vec<Vec<String>> = Vec::new();
        rows.push(record_for(table_schema, &row));
        assert(rows_view(rows@) == seq![record_of(table_schema@, row@)]);
        encode_rows(&rows)
    }

    /// Reads a table file and finds the records that satisfy the condition.
    pub fn scan(&self, table_name: &str, condition: Option<&Condition>, file: &[u8]) -> (r: Result<
        Scan,
        StoreError,
    >)
        ensures
            match lookup(self@, table_name@) {
                None => r matches Err(e) && e == StoreError::NotFound,
                Some(table) => match csv_decoded(file@) {
                    None => r matches Err(e) && e == StoreError::Malformed,
                    Some((header, records)) => r matches Ok(scan) && names_view(scan.header@)
                        == header && rows_view(scan.records@) == records && positions(scan.hits@)
                        == matching(table, header, records, condition_ref_view(condition)),
                },
            },
    {
        let table_schema = match self.schemas.table(table_name) {
            Some(t) => t,
            None => {
                return Err(StoreError::NotFound);
            },
        };
        let (header, records) = match decode(file) {
            Ok(table) => table,
            Err(_) => {
                return Err(StoreError::Malformed);
            },
        };
        let hits = matching_records(table_schema, &header, &records, condition);
        Ok(Scan { header, records, hits })
    }

    /// The records of a table file that satisfy the condition, in file
    /// order, each as a row of the wanted columns.
    pub fn select(
        &self,
        table_name: &str,
        columns: &[String],
        condition: Option<&Condition>,
        file: &[u8],
    ) -> (r: Result<Vec<Row>, StoreError>)
        ensures
            rows_outcome(r) == select_spec(
                self@,
                table_name@,
                names_view(columns@),
                condition_ref_view(condition),
                file@,
            ),
    {
        let scan = self.scan(table_name, condition, file)?;
        let ghost header = names_view(scan.header@);
        let ghost records = rows_view(scan.records@);
        let ghost table = lookup(self@, table_name@).unwrap();
        let ghost target = select_rows(
            table,
            header,
            records,
            names_view(columns@),
            condition_ref_view(condition),
        );
        proof {
            lemma_matching(table, header, records, condition_ref_view(condition));
        }
        let mut rows: Vec<Row> = Vec::new();
        let mut k: usize = 0;
        while k < scan.hits.len()
            invariant
                k <= scan.hits.len(),
                header == names_view(scan.header@),
                records == rows_view(scan.records@),
                positions(scan.hits@) == matching(
                    table,
                    header,
                    records,
                    condition_ref_view(condition),
                ),
                forall|j: int|
                    0 <= j < scan.hits@.len() ==> 0 <= #[trigger] positions(scan.hits@)[j]
                        < records.len(),
                target == select_rows(
                    table,
                    header,
                    records,
                    names_view(columns@),
                    condition_ref_view(condition),
                ),
                row_views(rows@) == target.take(k as int),
            decreases scan.hits.len() - k,
        {
            let i = scan.hits[k];
            assert(positions(scan.hits@)[k as int] == i);
            let row = project_columns(&scan.header, &scan.records[i], columns);
            assert(row@ == target[k as int]);
            let ghost before = row_views(rows@);
            rows.push(row);
            proof {
                lemma_take_push(target, k as int);
                assert(row_views(rows@) == before.push(target[k as int]));
            }
            k += 1;
        }
        assert(target.take(k as int) == target);
        Ok(rows)
    }

    /// The content of a table file after the assignments have been applied
    /// to every record that satisfies the condition, and how many did.
    pub fn update(
        &mut self,
        table_name: &str,
        updates: &Vec<(String, Value)>,
        condition: Option<&Condition>,
        file: &[u8],
    ) -> (r: Result<Rewrite, StoreError>)
        ensures
            final(self)@ == old(self)@,
            rewrite_outcome(r) == update_spec(
                old(self)@,
                table_name@,
                crate::ast::updates_view(updates@),
                condition_ref_view(condition),
                file@,
            ),
    {
        let scan = self.scan(table_name, condition, file)?;
        if scan.hits.len() == 0 {
            return Ok(Rewrite { content: vstd::slice::slice_to_vec(file), count: 0 });
        }
        let ghost header = names_view(scan.header@);
        let ghost records = rows_view(scan.records@);
        let ghost table = lookup(self@, table_name@).unwrap();
        let ghost changes = crate::ast::updates_view(updates@);
        let ghost cond = condition_ref_view(condition);
        let ghost target = seq![header] + update_rows(table, header, records, changes, cond);
        proof {
            lemma_matching(table, header, records, cond);
        }
        let mut rows: Vec<Vec<String>> = Vec::new();
        rows.push(copy_record(&scan.header));
        assert(rows_view(rows@) == target.take(1));
        let mut i: usize = 0;
        let mut k: usize = 0;
        while i < scan.records.len()
            invariant
                i <= scan.records.len(),
                k <= scan.hits.len(),
                header == names_view(scan.header@),
                records == rows_view(scan.records@),
                changes == crate::ast::updates_view(updates@),
                positions(scan.hits@) == matching(table, header, records, cond),
                forall|j: int|
                    0 <= j < scan.hits@.len() ==> {
                        let p = #[trigger] positions(scan.hits@)[j];
                        0 <= p < records.len() && satisfies(table, header, records[p], cond)
                    },
                forall|a: int, b: int|
                    0 <= a < b < scan.hits@.len() ==> positions(scan.hits@)[a] < positions(
                        scan.hits@,
                    )[b],
                forall|p: int|
                    0 <= p < records.len() && satisfies(table, header, #[trigger] records[p], cond)
                        ==> positions(scan.hits@).contains(p),
                forall|j: int| 0 <= j < k ==> positions(scan.hits@)[j] < i,
                k < scan.hits@.len() ==> positions(scan.hits@)[k as int] >= i,
                target == seq![header] + update_rows(table, header, records, changes, cond),
                rows_view(rows@) == target.take(i + 1),
            decreases scan.records.len() - i,
        {
            let hit = k < scan.hits.len() && scan.hits[k] == i;
            proof {
                assert(rows_view(scan.records@)[i as int] == names_view(scan.records@[i as int]@));
                if hit {
                    assert(positions(scan.hits@)[k as int] == i);
                } else if satisfies(table, header, records[i as int], cond) {
                    let j = choose|j: int|
                        0 <= j < scan.hits@.len() && positions(scan.hits@)[j] == i as int;
                    if j < k {
                    } else if j > k {
                        assert(positions(scan.hits@)[k as int] < positions(scan.hits@)[j]);
                    }
                }
                assert(hit == satisfies(table, header, records[i as int], cond));
            }
            let record = if hit {
                update_record(&scan.header, &scan.records[i], updates)
            } else {
                copy_record(&scan.records[i])
            };
            assert(names_view(record@) == target[i + 1]);
            let ghost before = rows_view(rows@);
            rows.push(record);
            proof {
                lemma_take_push(target, i + 1);
                assert(rows_view(rows@) == before.push(target[i + 1]));
            }
            if hit {
                proof {
                    if k + 1 < scan.hits@.len() {
                        assert(positions(scan.hits@)[k as int] < positions(scan.hits@)[k + 1]);
                    }
                }
                k += 1;
            }
            i += 1;
        }
        assert(target.take(i + 1) == target);
        let content = encode_rows(&rows)?;
        Ok(Rewrite { content, count: scan.hits.len() })
    }

    /// The content of a table file without the records that satisfy the
    /// condition, and how many did.
    pub fn delete(&mut self, table_name: &str, condition: Option<&Condition>, file: &[u8]) -> (r:
        Result<Rewrite, StoreError>)
        ensures
            final(self)@ == old(self)@,
            rewrite_outcome(r) == delete_spec(
                old(self)@,
                table_name@,
                condition_ref_view(condition),
                file@,
            ),
    {
        let table_schema = match self.schemas.table(table_name) {
            Some(t) => t,
            None => {
                return Err(StoreError::NotFound);
            },
        };
        let (header, records) = match decode(file) {
            Ok(table) => table,
            Err(_) => {
                return Err(StoreError::Malformed);
            },
        };
        let ghost h = names_view(header@);
        let ghost all = rows_view(records@);
        let ghost table = table_schema@;
        let ghost cond = condition_ref_view(condition);
        let mut rows: Vec<Vec<String>> = Vec::new();
        rows.push(copy_record(&header));
        let mut count: usize = 0;
        let mut i: usize = 0;
        assert(all.take(0) == Seq::<Record>::empty());
        assert(rows_view(rows@) == seq![h] + remaining(table, h, all.take(0), cond));
        while i < records.len()
            invariant
                i <= records.len(),
                h == names_view(header@),
                all == rows_view(records@),
                table == table_schema@,
                cond == condition_ref_view(condition),
                count == matching(table, h, all.take(i as int), cond).len(),
                count <= i,
                rows_view(rows@) == seq![h] + remaining(table, h, all.take(i as int), cond),
            decreases records.len() - i,
        {
            assert(all.take(i + 1).drop_last() == all.take(i as int));
            assert(all.take(i + 1).last() == names_view(records@[i as int]@));
            let ghost before = rows_view(rows@);
            if evaluate_condition(table_schema, &header, &records[i], condition) {
                count += 1;
            } else {
                let record = copy_record(&records[i]);
                rows.push(record);
                assert(rows_view(rows@) == before.push(names_view(records@[i as int]@)));
            }
            i += 1;
            assert(rows_view(rows@) == seq![h] + remaining(table, h, all.take(i as int), cond));
        }
        assert(all.take(i as int) == all);
        if count == 0 {
            return Ok(Rewrite { content: vstd::slice::slice_to_vec(file), count: 0 });
        }
        let content = encode_rows(&rows)?;
        Ok(Rewrite { content, count })
    }

    /// The columns of the table `table_name`, if the store has such a table.
    pub fn get_table_schema(&self, table_name: &str) -> (r: Option<&TableSchema>)
        ensures
            match lookup(self@, table_name@) {
                Some(table) => r matches Some(schema) && schema@ == table,
                None => r is None,
            },
    {
        self.schemas.table(table_name)
    }

    /// The columns of the table `table_name`, if the store has such a table,
    /// to be changed in place: the store ends up with the columns that the
    /// reference is left with. The table's file is the caller's to keep in
    /// step.
    pub fn get_table_schema_mut(&mut self, table_name: &str) -> (r: Option<&mut TableSchema>)
        ensures
            match lookup(old(self)@, table_name@) {
                Some(table) => r matches Some(schema) && schema@ == table && final(self)@ == put(
                    old(self)@,
                    table_name@,
                    final(schema)@,
                ),
                None => r is None && final(self)@ == old(self)@,
            },
    {
        proof {
            crate::schema::lemma_keys(&self.schemas);
            lemma_position_from(keys_of(self@), table_name@, 0);
        }
        let ghost before = self.schemas.tables@;
        let r = self.schemas.tables.get_mut(table_name);
        proof {
            let p = position_of(keys_of(before), table_name@);
            if p < before.len() {
                let slot = r.unwrap();
                assert(crate::schema::tables_view(before.update(p, (table_name@, *final(slot))))
                    == crate::schema::tables_view(before).update(
                    p,
                    (table_name@, final(slot)@),
                ));
            }
        }
        r
    }

    /// Whether the store has a table `table_name`.
    pub fn table_exists(&self, table_name: &str) -> (b: bool)
        ensures
            b == has_key(self@, table_name@),
    {
        self.schemas.contains_table(table_name)
    }
}

/// The row that a table gives back for `row`: the table's columns in declared
/// order, each with the text that `row` holds under it.
pub open spec fn stored_row(table: TableView, row: RowView) -> RowView {
    Seq::new(table.len(), |i: int| (table[i].0, record_of(table, row)[i]))
}

/// In a list without repetitions every name is found where it stands.
pub proof fn lemma_position_of_distinct(names: Seq<Seq<char>>, i: int)
    requires
        0 <= i < names.len(),
        forall|a: int, b: int| 0 <= a < b < names.len() ==> names[a] != names[b],
    ensures
        position_of(names, names[i]) == i,
{
    lemma_position_from(names, names[i], 0);
}

/// Projecting a record onto the first `n` columns of a header without
/// repetitions pairs each of these columns with the record's field in it.
pub proof fn lemma_project_header(header: Record, record: Record, n: int)
    requires
        0 <= n <= header.len(),
        header.len() == record.len(),
        forall|a: int, b: int| 0 <= a < b < header.len() ==> header[a] != header[b],
    ensures
        project(header, record, header.take(n)) == Seq::new(
            n as nat,
            |i: int| (header[i], record[i]),
        ),
    decreases n,
{
    let target = Seq::new(n as nat, |i: int| (header[i], record[i]));
    if n == 0 {
        assert(project(header, record, header.take(0)) == target);
    } else {
        lemma_project_header(header, record, n - 1);
        let before = Seq::new((n - 1) as nat, |i: int| (header[i], record[i]));
        let column = header[n - 1];
        assert(header.take(n).drop_last() == header.take(n - 1));
        assert(header.take(n).last() == column);
        lemma_position_of_distinct(header, n - 1);
        assert(cell(header, record, column) == Some(record[n - 1]));
        let keys = keys_of(before);
        lemma_position_from(keys, column, 0);
        let q = position_of(keys, column);
        if q < keys.len() {
            assert(keys[q] == header[q]);
        }
        assert(put(before, column, record[n - 1]) == target);
    }
}

/// Without a condition every record is selected.
pub proof fn lemma_matching_all(table: TableView, header: Record, records: Seq<Record>)
    ensures
        matching(table, header, records, None) == Seq::new(records.len(), |i: int| i),
    decreases records.len(),
{
    if records.len() > 0 {
        lemma_matching_all(table, header, records.drop_last());
    }
    assert(matching(table, header, records, None) =~= Seq::new(records.len(), |i: int| i));
}

/// A row that has been stored comes back as it was: selecting all columns,
/// without a condition, from records that end with the record of `row`
/// yields the rows of the records before it and then one row with the
/// table's columns in declared order, each with the text that `row` holds
/// under it.
pub proof fn lemma_stored_row_is_selected(table: TableView, row: RowView, earlier: Seq<Record>)
    requires
        distinct_keys(table),
        forall|i: int| 0 <= i < table.len() ==> has_key(row, #[trigger] table[i].0),
    ensures
        select_rows(
            table,
            keys_of(table),
            earlier.push(record_of(table, row)),
            seq!["*"@],
            None,
        ) == select_rows(table, keys_of(table), earlier, seq!["*"@], None).push(
            stored_row(table, row),
        ),
        forall|i: int|
            0 <= i < table.len() ==> Some(#[trigger] stored_row(table, row)[i].1) == lookup(
                row,
                table[i].0,
            ),
{
    let header = keys_of(table);
    let record = record_of(table, row);
    let records = earlier.push(record);
    let columns = seq!["*"@];
    assert(columns[0] == "*"@);
    assert(wanted(header, columns) == header);
    lemma_matching_all(table, header, records);
    lemma_matching_all(table, header, earlier);
    assert(header.take(header.len() as int) == header);
    lemma_project_header(header, record, header.len() as int);
    assert(project(header, record, header) == stored_row(table, row));
    assert(select_rows(table, header, records, columns, None) == select_rows(
        table,
        header,
        earlier,
        columns,
        None,
    ).push(stored_row(table, row)));
}

/// Storing a row and selecting everything gives the row back: if the store
/// accepts `row` for the table `name`, and the file with the accepted bytes
/// appended reads as the file's records followed by the record written,
/// then selecting all columns without a condition from the longer file
/// yields what the shorter file yields and then the stored row. On a table
/// that has just been created this is the stored row alone.
pub proof fn lemma_insert_then_select(
    db: DatabaseView,
    name: Seq<char>,
    row: RowView,
    file: Seq<u8>,
    records: Seq<Record>,
)
    requires
        lookup(db, name) is Some,
        distinct_keys(lookup(db, name).unwrap()),
        forall|i: int|
            0 <= i < lookup(db, name).unwrap().len() ==> has_key(
                row,
                #[trigger] lookup(db, name).unwrap()[i].0,
            ),
        insert_row_spec(db, name, row) is Ok,
        csv_decoded(file) == Some((keys_of(lookup(db, name).unwrap()), records)),
        csv_decoded(file + insert_row_spec(db, name, row).unwrap()) == Some(
            (
                keys_of(lookup(db, name).unwrap()),
                records.push(record_of(lookup(db, name).unwrap(), row)),
            ),
        ),
    ensures
        select_spec(db, name, seq!["*"@], None, file) is Ok,
        select_spec(
            db,
            name,
            seq!["*"@],
            None,
            file + insert_row_spec(db, name, row).unwrap(),
        ) == Ok::<Seq<RowView>, StoreError>(
            select_spec(db, name, seq!["*"@], None, file).unwrap().push(
                stored_row(lookup(db, name).unwrap(), row),
            ),
        ),
        records.len() == 0 ==> select_spec(
            db,
            name,
            seq!["*"@],
            None,
            file + insert_row_spec(db, name, row).unwrap(),
        ) == Ok::<Seq<RowView>, StoreError>(seq![stored_row(lookup(db, name).unwrap(), row)]),
{
    let table = lookup(db, name).unwrap();
    lemma_stored_row_is_selected(table, row, records);
    if records.len() == 0 {
        lemma_matching_all(table, keys_of(table), records);
        assert(select_rows(table, keys_of(table), records, seq!["*"@], None) == Seq::<
            RowView,
        >::empty());
        assert(Seq::<RowView>::empty().push(stored_row(table, row)) == seq![
            stored_row(table, row),
        ]);
    }
}

/// A mutation whose condition no record satisfies leaves the file as it is:
/// `delete` and `update` report zero records and give back the very bytes
/// they were given.
pub proof fn lemma_nothing_matched_nothing_changed(
    db: DatabaseView,
    name: Seq<char>,
    updates: Seq<(Seq<char>, ValueView)>,
    condition: Option<ConditionView>,
    file: Seq<u8>,
)
    requires
        lookup(db, name) is Some,
        csv_decoded(file) is Some,
        matching(
            lookup(db, name).unwrap(),
            csv_decoded(file).unwrap().0,
            csv_decoded(file).unwrap().1,
            condition,
        ).len() == 0,
    ensures
        delete_spec(db, name, condition, file) == Ok::<(Seq<u8>, nat), StoreError>((file, 0)),
        update_spec(db, name, updates, condition, file) == Ok::<(Seq<u8>, nat), StoreError>(
            (file, 0),
        ),
{
}

/// A table can be created once: after `create_table` has registered a name,
/// a second `create_table` under that name fails with `AlreadyExists`,
/// leaves the schema as it is and yields no bytes for any file.
pub proof fn lemma_create_table_twice(
    db: DatabaseView,
    name: Seq<char>,
    first: TableView,
    second: TableView,
)
    requires
        create_table_spec(db, name, first).1 is Ok,
    ensures
        create_table_spec(create_table_spec(db, name, first).0, name, second) == (
            create_table_spec(db, name, first).0,
            Err::<Seq<u8>, StoreError>(StoreError::AlreadyExists),
        ),
        lookup(create_table_spec(db, name, first).0, name) == Some(first),
{
    let after = db.push((name, first));
    let keys = keys_of(db);
    lemma_position_from(keys, name, 0);
    lemma_position_from(keys_of(after), name, 0);
    let p = position_of(keys_of(after), name);
    assert(keys_of(after)[db.len() as int] == name);
    if p < db.len() {
        assert(keys[p] == keys_of(after)[p]);
    }
}

/// Creating a table leaves every other table as it was.
pub proof fn lemma_create_table_keeps_others(
    db: DatabaseView,
    name: Seq<char>,
    table: TableView,
    other: Seq<char>,
)
    requires
        other != name,
    ensures
        lookup(create_table_spec(db, name, table).0, other) == lookup(db, other),
{
    if create_table_spec(db, name, table).1 is Ok {
        let after = db.push((name, table));
        lemma_position_from(keys_of(db), other, 0);
        lemma_position_from(keys_of(after), other, 0);
        let a = position_of(keys_of(db), other);
        let b = position_of(keys_of(after), other);
        if a < db.len() {
            assert(keys_of(after)[a] == keys_of(db)[a]);
        }
        if b < db.len() {
            assert(keys_of(after)[b] == keys_of(db)[b]);
        }
    }
}

} // verus!
