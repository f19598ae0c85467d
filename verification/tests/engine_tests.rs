use rust_sqlite::ast::ASTNode;
use rust_sqlite::datastore::{DataStore, StoreError};
use rust_sqlite::execution_engine::{
    compare_keys, compare_records, CompileError, Execution, ExecutionEngine, ExecutionError,
    FileChange, QueryResult, Row,
};
use rust_sqlite::ast::{OrderByClause, OrderDirection};
use rust_sqlite::lexer::LexError;
use rust_sqlite::ordered_map::OrderedMap;
use rust_sqlite::parser::ParseError;
use rust_sqlite::schema::{ColumnType, DatabaseSchema, TableSchema};
use rust_sqlite::semantic_analyzer::SemanticError;
use rust_sqlite::text::Relation;

/// An engine with one table and the content of that table's file, which the
/// test keeps up to date as a caller would.
struct Session {
    engine: ExecutionEngine,
    file: Vec<u8>,
}

impl Session {
    fn new(table: &str, columns: &[(&str, ColumnType)]) -> Session {
        let mut map = OrderedMap::new();
        for (name, ty) in columns {
            map.insert(name.to_string(), *ty);
        }
        let mut engine = ExecutionEngine::new(DataStore::new(DatabaseSchema::new()));
        let file = engine.create_table(table.to_string(), TableSchema { columns: map }).unwrap();
        Session { engine, file }
    }

    fn compile(&self, sql: &str) -> Result<ASTNode, CompileError> {
        self.engine.compile(sql)
    }

    fn run(&mut self, sql: &str) -> Result<QueryResult, ExecutionError> {
        let ast = self.engine.compile(sql).unwrap();
        let Execution { result, change } = self.engine.execute(&ast, &self.file)?;
        match change {
            FileChange::Unchanged => {}
            FileChange::Append(bytes) => self.file.extend(bytes),
            FileChange::Replace(bytes) => self.file = bytes,
        }
        Ok(result)
    }

    fn rows(&mut self, sql: &str) -> Vec<Vec<String>> {
        match self.run(sql).unwrap() {
            QueryResult::Select(rows) => rows.iter().map(texts_of).collect(),
            other => panic!("not a selection: {:?}", other),
        }
    }
}

fn texts_of(row: &Row) -> Vec<String> {
    (0..row.len()).map(|i| row.text_at(i).clone()).collect()
}

fn table(rows: &[&[&str]]) -> Vec<Vec<String>> {
    rows.iter().map(|r| r.iter().map(|s| s.to_string()).collect()).collect()
}

fn users() -> Session {
    let mut s = Session::new("users", &[("id", ColumnType::Integer), ("name", ColumnType::String)]);
    for (id, name) in [(2, "b"), (1, "a"), (1, "c")] {
        let sql = format!("INSERT INTO users (id, name) VALUES ({}, '{}')", id, name);
        assert_eq!(s.run(&sql), Ok(QueryResult::Insert(1)));
    }
    s
}

#[test]
fn test_order_by_is_stable_and_lexicographic() {
    let mut s = users();
    assert_eq!(
        s.rows("SELECT * FROM users ORDER BY id ASC, name ASC"),
        table(&[&["1", "a"], &["1", "c"], &["2", "b"]])
    );
    assert_eq!(
        s.rows("SELECT * FROM users ORDER BY id"),
        table(&[&["1", "a"], &["1", "c"], &["2", "b"]])
    );
    assert_eq!(
        s.rows("SELECT * FROM users ORDER BY id DESC"),
        table(&[&["2", "b"], &["1", "a"], &["1", "c"]])
    );
    assert_eq!(
        s.rows("SELECT * FROM users ORDER BY id ASC, name DESC"),
        table(&[&["1", "c"], &["1", "a"], &["2", "b"]])
    );
    assert_eq!(
        s.rows("SELECT * FROM users ORDER BY name DESC"),
        table(&[&["1", "c"], &["2", "b"], &["1", "a"]])
    );
}

#[test]
fn test_without_order_by_rows_come_in_file_order() {
    let mut s = users();
    assert_eq!(s.rows("SELECT * FROM users"), table(&[&["2", "b"], &["1", "a"], &["1", "c"]]));
}

#[test]
fn test_order_by_a_column_that_is_not_selected() {
    let mut s = users();
    assert_eq!(
        s.rows("SELECT name FROM users WHERE id < 2 ORDER BY name DESC"),
        table(&[&["c"], &["a"]])
    );
    assert_eq!(s.rows("SELECT name FROM users ORDER BY id"), table(&[&["a"], &["c"], &["b"]]));
}

#[test]
fn test_numbers_are_ordered_by_value() {
    let mut s = Session::new("m", &[("v", ColumnType::Float)]);
    for v in ["10", "9.5", "100", "9.25", "0.5"] {
        s.run(&format!("INSERT INTO m VALUES ({})", v)).unwrap();
    }
    assert_eq!(
        s.rows("SELECT v FROM m ORDER BY v"),
        table(&[&["0.5"], &["9.25"], &["9.5"], &["10"], &["100"]])
    );
    assert_eq!(
        s.rows("SELECT v FROM m ORDER BY v DESC"),
        table(&[&["100"], &["10"], &["9.5"], &["9.25"], &["0.5"]])
    );
}

#[test]
fn test_compare_keys() {
    assert_eq!(compare_keys(ColumnType::Integer, "9", "10"), Relation::Less);
    assert_eq!(compare_keys(ColumnType::String, "9", "10"), Relation::Greater);
    assert_eq!(compare_keys(ColumnType::Integer, "x", "10"), Relation::Less);
    assert_eq!(compare_keys(ColumnType::Integer, "10", "x"), Relation::Greater);
    assert_eq!(compare_keys(ColumnType::Integer, "x", "y"), Relation::Equal);
    assert_eq!(compare_keys(ColumnType::Integer, "1.5", "1"), Relation::Less);
    assert_eq!(compare_keys(ColumnType::Float, "1.5", "1"), Relation::Greater);
    assert_eq!(compare_keys(ColumnType::Boolean, "false", "true"), Relation::Less);
    assert_eq!(compare_keys(ColumnType::Boolean, "true", "true"), Relation::Equal);
    assert_eq!(compare_keys(ColumnType::Boolean, "maybe", "false"), Relation::Less);
    assert_eq!(compare_keys(ColumnType::Boolean, "true", "maybe"), Relation::Greater);
}

#[test]
fn test_compare_records() {
    let mut columns = OrderedMap::new();
    columns.insert("id".to_string(), ColumnType::Integer);
    columns.insert("name".to_string(), ColumnType::String);
    let schema = TableSchema { columns };
    let header = vec!["id".to_string(), "name".to_string()];
    let a = vec!["1".to_string(), "x".to_string()];
    let b = vec!["1".to_string(), "y".to_string()];
    let by = |column: &str, order| OrderByClause { column: column.to_string(), order };
    let asc = OrderDirection::Asc;
    let desc = OrderDirection::Desc;
    assert_eq!(compare_records(&schema, &header, &a, &b, &vec![]), Relation::Equal);
    assert_eq!(compare_records(&schema, &header, &a, &b, &vec![by("id", asc)]), Relation::Equal);
    assert_eq!(
        compare_records(&schema, &header, &a, &b, &vec![by("id", asc), by("name", asc)]),
        Relation::Less
    );
    assert_eq!(
        compare_records(&schema, &header, &a, &b, &vec![by("name", desc), by("id", asc)]),
        Relation::Greater
    );
    assert_eq!(
        compare_records(&schema, &header, &a, &b, &vec![by("nope", asc)]),
        Relation::Equal
    );
    let short = vec!["1".to_string()];
    assert_eq!(
        compare_records(&schema, &header, &short, &b, &vec![by("name", asc)]),
        Relation::Less
    );
    assert_eq!(
        compare_records(&schema, &header, &b, &short, &vec![by("name", asc)]),
        Relation::Greater
    );
}

#[test]
fn test_statements_end_to_end() {
    let mut s = Session::new(
        "people",
        &[("name", ColumnType::String), ("age", ColumnType::Integer)],
    );
    for (name, age) in [("ann", 10), ("bob", 18), ("cy", 25)] {
        let sql = format!("INSERT INTO people VALUES ('{}', {})", name, age);
        assert_eq!(s.run(&sql), Ok(QueryResult::Insert(1)));
    }
    assert_eq!(s.file, b"name,age\nann,10\nbob,18\ncy,25\n".to_vec());
    assert_eq!(s.rows("SELECT name FROM people WHERE age > 18"), table(&[&["cy"]]));
    assert_eq!(s.rows("SELECT name FROM people WHERE age >= 18"), table(&[&["bob"], &["cy"]]));
    assert_eq!(
        s.run("UPDATE people SET age = 19, name = 'rob' WHERE name = 'bob'"),
        Ok(QueryResult::Update(1))
    );
    assert_eq!(s.file, b"name,age\nann,10\nrob,19\ncy,25\n".to_vec());
    assert_eq!(s.run("DELETE FROM people WHERE age < 20"), Ok(QueryResult::Delete(2)));
    assert_eq!(s.file, b"name,age\ncy,25\n".to_vec());
    assert_eq!(s.run("DELETE FROM people"), Ok(QueryResult::Delete(1)));
    assert_eq!(s.file, b"name,age\n".to_vec());
    assert_eq!(s.rows("SELECT * FROM people"), table(&[]));
}

#[test]
fn test_mutation_without_a_match_asks_for_no_change() {
    let mut s = users();
    let before = s.file.clone();
    let ast = s.compile("DELETE FROM users WHERE id > 100").unwrap();
    assert_eq!(
        s.engine.execute(&ast, &s.file),
        Ok(Execution { result: QueryResult::Delete(0), change: FileChange::Unchanged })
    );
    let ast = s.compile("UPDATE users SET name = 'x' WHERE id > 100").unwrap();
    assert_eq!(
        s.engine.execute(&ast, &s.file),
        Ok(Execution { result: QueryResult::Update(0), change: FileChange::Unchanged })
    );
    assert_eq!(s.run("DELETE FROM users WHERE id > 100"), Ok(QueryResult::Delete(0)));
    assert_eq!(s.file, before);
}

#[test]
fn test_select_asks_for_no_change() {
    let mut s = users();
    let ast = s.compile("SELECT * FROM users").unwrap();
    let execution = s.engine.execute(&ast, &s.file).unwrap();
    assert_eq!(execution.change, FileChange::Unchanged);
}

#[test]
fn test_type_mismatch_is_found_before_anything_runs() {
    let s = Session::new("users", &[("id", ColumnType::Integer), ("name", ColumnType::String)]);
    assert_eq!(
        s.compile("SELECT * FROM users WHERE name = 5"),
        Err(CompileError::Semantic(SemanticError::TypeMismatch("name".to_string())))
    );
    assert_eq!(
        s.compile("DELETE FROM users WHERE name = 5"),
        Err(CompileError::Semantic(SemanticError::TypeMismatch("name".to_string())))
    );
    assert_eq!(
        s.compile("UPDATE users SET id = 1 WHERE id = 'one'"),
        Err(CompileError::Semantic(SemanticError::TypeMismatch("id".to_string())))
    );
}

#[test]
fn test_compile_errors() {
    let s = users();
    assert_eq!(
        s.compile("SELECT * FROM nobody"),
        Err(CompileError::Semantic(SemanticError::TableNotFound("nobody".to_string())))
    );
    assert_eq!(
        s.compile("SELECT age FROM users"),
        Err(CompileError::Semantic(SemanticError::ColumnNotFound("age".to_string())))
    );
    assert_eq!(s.compile("SELECT * users"), Err(CompileError::Parse(ParseError::ExpectedFrom)));
    assert_eq!(
        s.compile("SELECT * FROM users!"),
        Err(CompileError::Parse(ParseError::Lexical(LexError::UnexpectedCharacter('!'))))
    );
    assert!(s.compile("select name from users where id <> 3 order by name desc").is_ok());
}

#[test]
fn test_insert_checks_columns_types_and_shape() {
    let mut s = Session::new(
        "t",
        &[
            ("i", ColumnType::Integer),
            ("f", ColumnType::Float),
            ("s", ColumnType::String),
            ("b", ColumnType::Boolean),
        ],
    );
    assert_eq!(s.run("INSERT INTO t VALUES (1, 2.5, 'x', 'true')"), Ok(QueryResult::Insert(1)));
    assert_eq!(
        s.run("INSERT INTO t (b, s, f, i) VALUES ('false', 'y', 3, 4.0)"),
        Ok(QueryResult::Insert(1))
    );
    assert_eq!(s.file, b"i,f,s,b\n1,2.5,x,true\n4,3,y,false\n".to_vec());
    let before = s.file.clone();
    assert_eq!(
        s.run("INSERT INTO t VALUES (1.5, 2.5, 'x', 'true')"),
        Err(ExecutionError::TypeMismatch("i".to_string()))
    );
    assert_eq!(
        s.run("INSERT INTO t VALUES (1, 'two', 'x', 'true')"),
        Err(ExecutionError::TypeMismatch("f".to_string()))
    );
    assert_eq!(
        s.run("INSERT INTO t VALUES (1, 2, 3, 'true')"),
        Err(ExecutionError::TypeMismatch("s".to_string()))
    );
    assert_eq!(
        s.run("INSERT INTO t VALUES (1, 2, 'x', 'yes')"),
        Err(ExecutionError::TypeMismatch("b".to_string()))
    );
    assert_eq!(
        s.run("INSERT INTO t VALUES (1, 2, 'x', 1)"),
        Err(ExecutionError::TypeMismatch("b".to_string()))
    );
    assert_eq!(
        s.run("INSERT INTO t (i, z) VALUES (1, 2)"),
        Err(ExecutionError::ColumnNotFound("z".to_string()))
    );
    assert_eq!(
        s.run("INSERT INTO t VALUES (1, 2)"),
        Err(ExecutionError::Storage(StoreError::InvalidShape))
    );
    assert_eq!(
        s.run("INSERT INTO t (i, f) VALUES (1, 2)"),
        Err(ExecutionError::Storage(StoreError::InvalidShape))
    );
    assert_eq!(
        s.run("INSERT INTO t (i, i, f, s) VALUES (1, 1, 2, 'x')"),
        Err(ExecutionError::Storage(StoreError::InvalidShape))
    );
    assert_eq!(s.file, before);
}

#[test]
fn test_execution_errors_from_the_store() {
    let mut s = users();
    let other = ExecutionEngine::new(DataStore::new(DatabaseSchema::new()));
    for sql in [
        "SELECT * FROM users",
        "INSERT INTO users VALUES (1, 'a')",
        "UPDATE users SET id = 1",
        "DELETE FROM users",
    ] {
        let ast = s.compile(sql).unwrap();
        let mut other = ExecutionEngine::new(DataStore::new(DatabaseSchema::new()));
        assert_eq!(
            other.execute(&ast, &s.file),
            Err(ExecutionError::TableNotFound("users".to_string())),
            "{}",
            sql
        );
    }
    assert!(!other.data_store().table_exists("users"));
    s.file = b"id,name\n1\n".to_vec();
    for sql in ["SELECT * FROM users", "UPDATE users SET id = 1", "DELETE FROM users"] {
        assert_eq!(s.run(sql), Err(ExecutionError::Storage(StoreError::Malformed)), "{}", sql);
    }
}
