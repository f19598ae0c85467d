use rust_sqlite::ast::{ComparisonOperator, Condition, Value};
use rust_sqlite::datastore::{
    cell_of, comparison_holds, evaluate_condition, header_of, matching_records, project_columns,
    record_for, relation_under, DataStore, Rewrite, Row, StoreError,
};
use rust_sqlite::decimal::Decimal;
use rust_sqlite::ordered_map::OrderedMap;
use rust_sqlite::schema::{ColumnType, DatabaseSchema, TableSchema};
use rust_sqlite::text::Relation;

fn setup_test_datastore() -> DataStore {
    DataStore::new(DatabaseSchema::new())
}

fn users_schema() -> TableSchema {
    let mut columns = OrderedMap::new();
    columns.insert("id".to_string(), ColumnType::Integer);
    columns.insert("name".to_string(), ColumnType::String);
    TableSchema { columns }
}

fn number(text: &str) -> Value {
    Value::Number(Decimal::parse(text).unwrap())
}

fn text(s: &str) -> Value {
    Value::String(s.to_string())
}

fn row(fields: &[(&str, &str)]) -> Row {
    let mut row = Row::new();
    for (column, value) in fields {
        row.insert(column.to_string(), value.to_string());
    }
    row
}

fn strings(items: &[&str]) -> Vec<String> {
    items.iter().map(|s| s.to_string()).collect()
}

fn on(column: &str, op: ComparisonOperator, value: Value) -> Condition {
    Condition::Comparison(column.to_string(), op, value)
}

fn fields_of(row: &Row) -> Vec<(String, String)> {
    (0..row.len()).map(|i| (row.column_at(i).clone(), row.text_at(i).clone())).collect()
}

fn pairs(fields: &[(&str, &str)]) -> Vec<(String, String)> {
    fields.iter().map(|(c, v)| (c.to_string(), v.to_string())).collect()
}

/// A store with the table `people(name String, age Integer)` and the content
/// of its file after the given ages have been inserted.
fn people(ages: &[&str]) -> (DataStore, Vec<u8>) {
    let mut store = setup_test_datastore();
    let mut columns = OrderedMap::new();
    columns.insert("name".to_string(), ColumnType::String);
    columns.insert("age".to_string(), ColumnType::Integer);
    let mut file = store.create_table("people".to_string(), TableSchema { columns }).unwrap();
    for (i, age) in ages.iter().enumerate() {
        let name = format!("p{}", i);
        file.extend(store.insert_row("people", row(&[("age", age), ("name", &name)])).unwrap());
    }
    (store, file)
}

fn ages_of(rows: &[Row]) -> Vec<String> {
    rows.iter().map(|r| r.get("age").unwrap().clone()).collect()
}

#[test]
fn test_create_table() {
    let mut data_store = setup_test_datastore();
    let mut columns = OrderedMap::new();
    columns.insert("id".to_string(), ColumnType::Integer);
    columns.insert("name".to_string(), ColumnType::String);

    let schema = TableSchema { columns };
    assert!(data_store.create_table("users".to_string(), schema.clone()).is_ok());

    let result = data_store.create_table("users".to_string(), schema);
    assert!(result.is_err());
}

#[test]
fn test_insert_and_select() {
    let mut data_store = setup_test_datastore();
    let mut columns = OrderedMap::new();
    columns.insert("id".to_string(), ColumnType::Integer);
    columns.insert("name".to_string(), ColumnType::String);

    let schema = TableSchema { columns };
    let mut file = data_store.create_table("users".to_string(), schema).unwrap();

    let mut row = Row::new();
    row.insert("id".to_string(), "1".to_string());
    row.insert("name".to_string(), "Alice".to_string());

    let appended = data_store.insert_row("users", row);
    assert!(appended.is_ok());
    file.extend(appended.unwrap());

    let result = data_store
        .select("users", &["id".to_string(), "name".to_string()], None, &file)
        .unwrap();
    assert_eq!(result.len(), 1);
    assert_eq!(result[0].get("id"), Some(&"1".to_string()));
    assert_eq!(result[0].get("name"), Some(&"Alice".to_string()));
}

#[test]
fn datastore_tests_test_update() {
    let mut data_store = setup_test_datastore();
    let mut columns = OrderedMap::new();
    columns.insert("id".to_string(), ColumnType::Integer);
    columns.insert("name".to_string(), ColumnType::String);

    let schema = TableSchema { columns };
    let mut file = data_store.create_table("users".to_string(), schema).unwrap();

    let mut row = Row::new();
    row.insert("id".to_string(), "1".to_string());
    row.insert("name".to_string(), "Alice".to_string());
    file.extend(data_store.insert_row("users", row).unwrap());

    let updates = vec![("name".to_string(), Value::String("Alicia".to_string()))];
    let condition = on("id", ComparisonOperator::Equals, number("1"));

    let update_result = data_store.update("users", &updates, Some(&condition), &file);

    match update_result {
        Ok(updated) => {
            assert_eq!(updated.count, 1);

            let select_result = data_store.select(
                "users",
                &["id".to_string(), "name".to_string()],
                None,
                &updated.content,
            );
            match select_result {
                Ok(result) => {
                    assert_eq!(result.len(), 1);
                    assert_eq!(result[0].get("id"), Some(&"1".to_string()));
                    assert_eq!(result[0].get("name"), Some(&"Alicia".to_string()));
                }
                Err(e) => panic!("Select failed after update: {:?}", e),
            }
        }
        Err(e) => {
            println!("Update failed: {:?}", e);
            panic!("Update failed");
        }
    }
}

#[test]
fn test_file_format() {
    let mut store = setup_test_datastore();
    let file = store.create_table("users".to_string(), users_schema()).unwrap();
    assert_eq!(file, b"id,name\n".to_vec());
    let line = store.insert_row("users", row(&[("name", "Alice"), ("id", "1")])).unwrap();
    assert_eq!(line, b"1,Alice\n".to_vec());
    let line = store.insert_row("users", row(&[("id", "2"), ("name", "Smith, \"Bob\"")])).unwrap();
    assert_eq!(line, b"2,\"Smith, \"\"Bob\"\"\"\n".to_vec());
}

#[test]
fn test_round_trip_in_schema_order() {
    let mut store = setup_test_datastore();
    let mut file = store.create_table("users".to_string(), users_schema()).unwrap();
    let stored = row(&[("name", "Smith, \"Bob\"\nJr."), ("id", "7")]);
    file.extend(store.insert_row("users", stored).unwrap());
    let rows = store.select("users", &strings(&["*"]), None, &file).unwrap();
    assert_eq!(rows.len(), 1);
    assert_eq!(fields_of(&rows[0]), pairs(&[("id", "7"), ("name", "Smith, \"Bob\"\nJr.")]));
}

#[test]
fn test_round_trip_after_earlier_rows() {
    let (mut store, mut file) = people(&["10", "18"]);
    let before = store.select("people", &strings(&["*"]), None, &file).unwrap();
    file.extend(store.insert_row("people", row(&[("name", "z"), ("age", "25")])).unwrap());
    let after = store.select("people", &strings(&["*"]), None, &file).unwrap();
    assert_eq!(after.len(), 3);
    assert_eq!(after[..2], before[..]);
    assert_eq!(fields_of(&after[2]), pairs(&[("name", "z"), ("age", "25")]));
}

#[test]
fn test_predicate_on_integer_column() {
    let (store, file) = people(&["10", "18", "25"]);
    let all = strings(&["*"]);
    let select = |op: ComparisonOperator, literal: &str| {
        let condition = on("age", op, number(literal));
        ages_of(&store.select("people", &all, Some(&condition), &file).unwrap())
    };
    assert_eq!(select(ComparisonOperator::GreaterThan, "18"), strings(&["25"]));
    assert_eq!(select(ComparisonOperator::GreaterEqualThan, "18"), strings(&["18", "25"]));
    assert_eq!(select(ComparisonOperator::LessThan, "18"), strings(&["10"]));
    assert_eq!(select(ComparisonOperator::LessEqualThan, "18"), strings(&["10", "18"]));
    assert_eq!(select(ComparisonOperator::Equals, "18.0"), strings(&["18"]));
    assert_eq!(select(ComparisonOperator::NotEquals, "18"), strings(&["10", "25"]));
    assert_eq!(select(ComparisonOperator::GreaterThan, "17.5"), strings(&["18", "25"]));
    assert_eq!(select(ComparisonOperator::GreaterThan, "9"), strings(&["10", "18", "25"]));
}

#[test]
fn test_numbers_compare_by_value_not_by_text() {
    let (store, file) = people(&["9", "10", "-3", "+4", "007"]);
    let all = strings(&["*"]);
    let condition = on("age", ComparisonOperator::LessThan, number("8"));
    assert_eq!(
        ages_of(&store.select("people", &all, Some(&condition), &file).unwrap()),
        strings(&["-3", "+4", "007"])
    );
}

#[test]
fn test_unreadable_field_fails_the_predicate_and_the_scan_goes_on() {
    let (store, file) = people(&["10", "old", "", "2.5", "30"]);
    let all = strings(&["*"]);
    for op in [ComparisonOperator::GreaterThan, ComparisonOperator::NotEquals] {
        let condition = on("age", op, number("1"));
        assert_eq!(
            ages_of(&store.select("people", &all, Some(&condition), &file).unwrap()),
            strings(&["10", "30"])
        );
    }
}

#[test]
fn test_literal_of_the_wrong_kind_matches_nothing() {
    let (store, file) = people(&["10", "18"]);
    let all = strings(&["*"]);
    let condition = on("age", ComparisonOperator::NotEquals, text("10"));
    assert_eq!(store.select("people", &all, Some(&condition), &file).unwrap().len(), 0);
    let condition = on("name", ComparisonOperator::NotEquals, number("10"));
    assert_eq!(store.select("people", &all, Some(&condition), &file).unwrap().len(), 0);
    let condition = on("height", ComparisonOperator::NotEquals, number("10"));
    assert_eq!(store.select("people", &all, Some(&condition), &file).unwrap().len(), 0);
}

#[test]
fn test_relation_under_each_type() {
    assert_eq!(relation_under(ColumnType::Integer, "5", &number("5.0")), Some(Relation::Equal));
    assert_eq!(relation_under(ColumnType::Integer, "5.0", &number("5")), None);
    assert_eq!(relation_under(ColumnType::Float, "5.0", &number("5")), Some(Relation::Equal));
    assert_eq!(relation_under(ColumnType::Float, "4.99", &number("5")), Some(Relation::Less));
    assert_eq!(relation_under(ColumnType::Float, "-1", &number("0")), Some(Relation::Less));
    assert_eq!(relation_under(ColumnType::Float, "1e3", &number("5")), None);
    assert_eq!(relation_under(ColumnType::String, "b", &text("a")), Some(Relation::Greater));
    assert_eq!(relation_under(ColumnType::String, "a", &text("ab")), Some(Relation::Less));
    assert_eq!(relation_under(ColumnType::String, "Z", &text("a")), Some(Relation::Less));
    assert_eq!(relation_under(ColumnType::String, "\u{e9}", &text("z")), Some(Relation::Greater));
    assert_eq!(relation_under(ColumnType::String, "1", &number("1")), None);
    assert_eq!(
        relation_under(ColumnType::Boolean, "false", &text("true")),
        Some(Relation::Less)
    );
    assert_eq!(
        relation_under(ColumnType::Boolean, "true", &text("true")),
        Some(Relation::Equal)
    );
    assert_eq!(
        relation_under(ColumnType::Boolean, "true", &text("false")),
        Some(Relation::Greater)
    );
    assert_eq!(relation_under(ColumnType::Boolean, "TRUE", &text("true")), None);
    assert_eq!(relation_under(ColumnType::Boolean, "true", &text("yes")), None);
    assert_eq!(relation_under(ColumnType::Boolean, "1", &number("1")), None);
}

#[test]
fn test_comparison_holds() {
    let table = [
        (ComparisonOperator::Equals, [false, true, false]),
        (ComparisonOperator::NotEquals, [true, false, true]),
        (ComparisonOperator::GreaterThan, [false, false, true]),
        (ComparisonOperator::LessThan, [true, false, false]),
        (ComparisonOperator::GreaterEqualThan, [false, true, true]),
        (ComparisonOperator::LessEqualThan, [true, true, false]),
    ];
    for (op, expected) in table {
        let got = [
            comparison_holds(op, Relation::Less),
            comparison_holds(op, Relation::Equal),
            comparison_holds(op, Relation::Greater),
        ];
        assert_eq!(got, expected, "{:?}", op);
    }
}

#[test]
fn test_helpers_on_records() {
    let schema = users_schema();
    let header = header_of(&schema);
    assert_eq!(header, strings(&["id", "name"]));
    let record = record_for(&schema, &row(&[("name", "Ann"), ("other", "x")]));
    assert_eq!(record, strings(&["", "Ann"]));
    let record = strings(&["3", "Ann"]);
    assert_eq!(cell_of(&header, &record, "name"), Some(&"Ann".to_string()));
    assert_eq!(cell_of(&header, &record, "age"), None);
    assert_eq!(cell_of(&header, &strings(&["3"]), "name"), None);
    let condition = on("id", ComparisonOperator::Equals, number("3"));
    assert!(evaluate_condition(&schema, &header, &record, Some(&condition)));
    assert!(evaluate_condition(&schema, &header, &record, None));
    assert!(!evaluate_condition(&schema, &header, &strings(&["4", "Ann"]), Some(&condition)));
    let records = vec![strings(&["3", "a"]), strings(&["4", "b"]), strings(&["3", "c"])];
    assert_eq!(matching_records(&schema, &header, &records, Some(&condition)), vec![0, 2]);
    assert_eq!(matching_records(&schema, &header, &records, None), vec![0, 1, 2]);
}

#[test]
fn test_projection() {
    let header = strings(&["id", "name", "age"]);
    let record = strings(&["1", "Ann", "30"]);
    let project = |columns: &[&str]| fields_of(&project_columns(&header, &record, &strings(columns)));
    assert_eq!(project(&["age", "id"]), pairs(&[("age", "30"), ("id", "1")]));
    assert_eq!(project(&["*"]), pairs(&[("id", "1"), ("name", "Ann"), ("age", "30")]));
    assert_eq!(project(&["age", "*"]), pairs(&[("id", "1"), ("name", "Ann"), ("age", "30")]));
    assert_eq!(project(&["id", "nope", "id"]), pairs(&[("id", "1")]));
    assert_eq!(project(&[]), pairs(&[]));
}

#[test]
fn test_update_rewrites_matching_records_only() {
    let (mut store, file) = people(&["10", "18", "25"]);
    let updates = vec![
        ("name".to_string(), text("adult")),
        ("age".to_string(), number("99.50")),
        ("name".to_string(), text("grown, up")),
        ("nope".to_string(), text("ignored")),
    ];
    let condition = on("age", ComparisonOperator::GreaterEqualThan, number("18"));
    let rewrite = store.update("people", &updates, Some(&condition), &file).unwrap();
    assert_eq!(rewrite.count, 2);
    assert_eq!(
        rewrite.content,
        b"name,age\np0,10\n\"grown, up\",99.5\n\"grown, up\",99.5\n".to_vec()
    );
}

#[test]
fn test_update_without_condition_changes_every_record() {
    let (mut store, file) = people(&["10", "18"]);
    let updates = vec![("age".to_string(), number("0"))];
    let rewrite = store.update("people", &updates, None, &file).unwrap();
    assert_eq!(rewrite.count, 2);
    assert_eq!(rewrite.content, b"name,age\np0,0\np1,0\n".to_vec());
}

#[test]
fn test_delete_removes_matching_records_only() {
    let (mut store, file) = people(&["10", "18", "25"]);
    let condition = on("age", ComparisonOperator::LessThan, number("20"));
    let rewrite = store.delete("people", Some(&condition), &file).unwrap();
    assert_eq!(rewrite, Rewrite { content: b"name,age\np2,25\n".to_vec(), count: 2 });
    let rewrite = store.delete("people", None, &file).unwrap();
    assert_eq!(rewrite, Rewrite { content: b"name,age\n".to_vec(), count: 3 });
}

#[test]
fn test_delete_that_matches_nothing_leaves_the_file_alone() {
    let (mut store, _) = people(&[]);
    let file = b"name,age\r\n\"p0\",10\r\n\r\np1,\"18\"\r\n".to_vec();
    let condition = on("age", ComparisonOperator::GreaterThan, number("100"));
    let rewrite = store.delete("people", Some(&condition), &file).unwrap();
    assert_eq!(rewrite.count, 0);
    assert_eq!(rewrite.content, file);
    let updates = vec![("age".to_string(), number("0"))];
    let rewrite = store.update("people", &updates, Some(&condition), &file).unwrap();
    assert_eq!(rewrite.count, 0);
    assert_eq!(rewrite.content, file);
}

#[test]
fn test_create_table_twice() {
    let mut store = setup_test_datastore();
    let first = store.create_table("t".to_string(), users_schema());
    assert_eq!(first, Ok(b"id,name\n".to_vec()));
    let mut other = OrderedMap::new();
    other.insert("x".to_string(), ColumnType::Float);
    let second = store.create_table("t".to_string(), TableSchema { columns: other });
    assert_eq!(second, Err(StoreError::AlreadyExists));
    assert_eq!(store.get_table_schema("t"), Some(&users_schema()));
    assert_eq!(store.schema().tables.len(), 1);
}

#[test]
fn test_tables_are_kept_apart() {
    let mut store = setup_test_datastore();
    store.create_table("a".to_string(), users_schema()).unwrap();
    let mut other = OrderedMap::new();
    other.insert("x".to_string(), ColumnType::Float);
    let other = TableSchema { columns: other };
    assert_eq!(store.create_table("b".to_string(), other.clone()), Ok(b"x\n".to_vec()));
    assert!(store.table_exists("a"));
    assert!(store.table_exists("b"));
    assert!(!store.table_exists("c"));
    assert_eq!(store.get_table_schema("a"), Some(&users_schema()));
    assert_eq!(store.get_table_schema("b"), Some(&other));
    assert_eq!(store.get_table_schema("c"), None);
}

#[test]
fn test_store_errors() {
    let (mut store, file) = people(&["10"]);
    let all = strings(&["*"]);
    assert_eq!(
        store.insert_row("nobody", row(&[("name", "a"), ("age", "1")])),
        Err(StoreError::NotFound)
    );
    assert_eq!(store.insert_row("people", row(&[("name", "a")])), Err(StoreError::InvalidShape));
    assert_eq!(
        store.insert_row("people", row(&[("name", "a"), ("age", "1"), ("x", "y")])),
        Err(StoreError::InvalidShape)
    );
    assert_eq!(store.select("nobody", &all, None, &file), Err(StoreError::NotFound));
    assert_eq!(store.update("nobody", &vec![], None, &file), Err(StoreError::NotFound));
    assert_eq!(store.delete("nobody", None, &file), Err(StoreError::NotFound));
    let uneven = b"name,age\np0\n".to_vec();
    assert_eq!(store.select("people", &all, None, &uneven), Err(StoreError::Malformed));
    assert_eq!(store.update("people", &vec![], None, &uneven), Err(StoreError::Malformed));
    assert_eq!(store.delete("people", None, &uneven), Err(StoreError::Malformed));
    let not_text = vec![b'n', b',', b'a', b'\n', 0xff, b',', b'1', b'\n'];
    assert_eq!(store.select("people", &all, None, &not_text), Err(StoreError::Malformed));
}

#[test]
fn test_row_is_a_map_in_insertion_order() {
    let mut r = Row::new();
    assert_eq!(r.len(), 0);
    r.insert("b".to_string(), "1".to_string());
    r.insert("a".to_string(), "2".to_string());
    r.insert("b".to_string(), "3".to_string());
    assert_eq!(r.len(), 2);
    assert_eq!(fields_of(&r), pairs(&[("b", "3"), ("a", "2")]));
    assert_eq!(r.get("a"), Some(&"2".to_string()));
    assert_eq!(r.get("c"), None);
    assert!(r.contains_key("b"));
    assert!(!r.contains_key("B"));
}

#[test]
fn test_schema_can_be_changed_in_place() {
    let (mut store, file) = people(&["10"]);
    assert!(store.get_table_schema_mut("nobody").is_none());
    let schema = store.get_table_schema_mut("people").unwrap();
    schema.columns.insert("age".to_string(), rust_sqlite::datastore::ColumnType::String);
    schema.columns.insert("town".to_string(), ColumnType::String);
    let schema = store.get_table_schema("people").unwrap();
    assert_eq!(header_of(schema), strings(&["name", "age", "town"]));
    assert_eq!(schema.column_type("age"), Some(ColumnType::String));
    assert_eq!(store.schema().tables.len(), 1);
    let condition = on("age", ComparisonOperator::Equals, text("10"));
    assert_eq!(store.select("people", &strings(&["*"]), Some(&condition), &file).unwrap().len(), 1);
}

#[test]
fn test_table_without_columns_does_not_read_back() {
    let mut store = setup_test_datastore();
    let file = store.create_table("void".to_string(), TableSchema::new()).unwrap();
    assert_eq!(file, b"\"\"\n".to_vec());
    let scan = store.scan("void", None, &file).unwrap();
    assert_eq!(scan.header, strings(&[""]));
    assert_eq!(scan.records.len(), 0);
}
