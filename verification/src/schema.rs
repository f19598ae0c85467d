//! The schema: which tables exist, and which columns of which type each has.

use vstd::prelude::*;
use crate::ordered_map::{has_key, lookup, OrderedMap};

verus! {

/// The declared type of a column.
#[derive(Debug, PartialEq, Eq, Clone, Copy, Structural)]
pub enum ColumnType {
    Integer,
    Float,
    String,
    Boolean,
}

/// The columns of a table with their types, in declared order.
pub type TableView = Seq<(Seq<char>, ColumnType)>;

/// The columns of one table, in declared order.
#[derive(Debug, PartialEq)]
pub struct TableSchema {
    pub columns: OrderedMap<ColumnType>,
}

impl View for TableSchema {
    type V = TableView;

    open spec fn view(&self) -> TableView {
        self.columns@
    }
}

impl Clone for TableSchema {
    fn clone(&self) -> (r: Self)
        ensures
            r@ == self@,
    {
        TableSchema { columns: self.columns.duplicate() }
    }
}

/// The tables of a database, in the order of their creation.
#[derive(Debug, PartialEq)]
pub struct DatabaseSchema {
    pub tables: OrderedMap<TableSchema>,
}

/// The tables of a database with their columns.
pub type DatabaseView = Seq<(Seq<char>, TableView)>;

impl View for DatabaseSchema {
    type V = DatabaseView;

    open spec fn view(&self) -> DatabaseView {
        tables_view(self.tables@)
    }
}

/// The contents of the entries of a schema.
pub open spec fn tables_view(tables: Seq<(Seq<char>, TableSchema)>) -> DatabaseView {
    Seq::new(tables.len(), |i: int| (tables[i].0, tables[i].1@))
}

impl DatabaseSchema {
    /// A schema without tables.
    pub fn new() -> (schema: Self)
        ensures
            schema@ == Seq::<(Seq<char>, TableView)>::empty(),
    {
        DatabaseSchema { tables: OrderedMap::new() }
    }

    /// The columns of the table `name`, if there is such a table.
    pub fn table(&self, name: &str) -> (r: Option<&TableSchema>)
        ensures
            match lookup(self@, name@) {
                Some(t) => r matches Some(schema) && schema@ == t,
                None => r is None,
            },
    {
        proof {
            lemma_keys(self);
        }
        let r = self.tables.get(name);
        proof {
            let p = crate::text::position_of(crate::ordered_map::keys_of(self@), name@);
            crate::text::lemma_position_from(crate::ordered_map::keys_of(self@), name@, 0);
            if p < self@.len() {
                assert(self@[p].1 == self.tables@[p].1@);
            }
        }
        r
    }

    /// Whether there is a table `name`.
    pub fn contains_table(&self, name: &str) -> (b: bool)
        ensures
            b == has_key(self@, name@),
    {
        proof {
            lemma_keys(self);
        }
        self.tables.contains_key(name)
    }
}

/// The names of a schema are the names of its map of tables.
pub proof fn lemma_keys(schema: &DatabaseSchema)
    ensures
        crate::ordered_map::keys_of(schema@) == crate::ordered_map::keys_of(schema.tables@),
{
    assert(crate::ordered_map::keys_of(schema@) =~= crate::ordered_map::keys_of(schema.tables@));
}

impl TableSchema {
    /// A table without columns.
    pub fn new() -> (schema: Self)
        ensures
            schema@ == Seq::<(Seq<char>, ColumnType)>::empty(),
    {
        TableSchema { columns: OrderedMap::new() }
    }

    /// The type of the column `name`, if there is such a column.
    pub fn column_type(&self, name: &str) -> (r: Option<ColumnType>)
        ensures
            r == lookup(self@, name@),
    {
        match self.columns.get(name) {
            Some(t) => Some(*t),
            None => None,
        }
    }

    /// Whether there is a column `name`.
    pub fn has_column(&self, name: &str) -> (b: bool)
        ensures
            b == has_key(self@, name@),
    {
        self.columns.contains_key(name)
    }
}

} // verus!
