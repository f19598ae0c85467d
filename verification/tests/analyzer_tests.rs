use rust_sqlite::ast::{
    ASTNode, ComparisonOperator, Condition, DeleteStatement, InsertStatement, OrderByClause,
    OrderDirection, SelectStatement, UpdateStatement, Value,
};
use rust_sqlite::decimal::Decimal;
use rust_sqlite::ordered_map::OrderedMap;
use rust_sqlite::schema::{ColumnType, DatabaseSchema, TableSchema};
use rust_sqlite::semantic_analyzer::{SemanticAnalyzer, SemanticError};

fn setup_test_schema() -> DatabaseSchema {
    let mut user_columns = OrderedMap::new();
    user_columns.insert("id".to_string(), ColumnType::Integer);
    user_columns.insert("name".to_string(), ColumnType::String);
    user_columns.insert("age".to_string(), ColumnType::Integer);

    let mut product_columns = OrderedMap::new();
    product_columns.insert("id".to_string(), ColumnType::Integer);
    product_columns.insert("name".to_string(), ColumnType::String);
    product_columns.insert("price".to_string(), ColumnType::Float);
    product_columns.insert("sold".to_string(), ColumnType::Boolean);

    let mut tables = OrderedMap::new();
    tables.insert("users".to_string(), TableSchema { columns: user_columns });
    tables.insert("products".to_string(), TableSchema { columns: product_columns });

    DatabaseSchema { tables }
}

fn five() -> Value {
    Value::Number(Decimal::from_digits(false, vec![5], vec![]).unwrap())
}

#[test]
fn test_valid_select() {
    let schema = setup_test_schema();
    let analyzer = SemanticAnalyzer::new(schema);

    let select_stmt = SelectStatement {
        columns: vec!["name".to_string(), "age".to_string()],
        table: "users".to_string(),
        condition: None,
        order_by: Vec::<OrderByClause>::new(),
    };

    let result = analyzer.analyze(&ASTNode::Select(select_stmt));
    assert!(result.is_ok());
}

#[test]
fn test_missing_table() {
    let schema = setup_test_schema();
    let analyzer = SemanticAnalyzer::new(schema);

    let select_stmt = SelectStatement {
        columns: vec!["name".to_string()],
        table: "not_a_real_table".to_string(),
        condition: None,
        order_by: Vec::<OrderByClause>::new(),
    };

    let result = analyzer.analyze(&ASTNode::Select(select_stmt));
    assert!(matches!(result, Err(SemanticError::TableNotFound(_))));
}

#[test]
fn test_missing_column() {
    let schema = setup_test_schema();
    let analyzer = SemanticAnalyzer::new(schema);

    let select_stmt = SelectStatement {
        columns: vec!["not_a_real_column".to_string()],
        table: "users".to_string(),
        condition: None,
        order_by: Vec::<OrderByClause>::new(),
    };

    let result = analyzer.analyze(&ASTNode::Select(select_stmt));
    assert!(matches!(result, Err(SemanticError::ColumnNotFound(_))));
}

#[test]
fn test_condition_mismatch() {
    let schema = setup_test_schema();
    let analyzer = SemanticAnalyzer::new(schema);

    let select_stmt = SelectStatement {
        columns: vec!["name".to_string()],
        table: "users".to_string(),
        condition: Some(Condition::Comparison(
            "age".to_string(),
            ComparisonOperator::Equals,
            Value::String("eighteen".to_string()),
        )),
        order_by: Vec::<OrderByClause>::new(),
    };

    let result = analyzer.analyze(&ASTNode::Select(select_stmt));
    assert!(matches!(result, Err(SemanticError::TypeMismatch(_))));
}

#[test]
fn test_invalid_order_by_column() {
    let schema = setup_test_schema();
    let analyzer = SemanticAnalyzer::new(schema);

    let select_stmt = SelectStatement {
        columns: vec!["name".to_string(), "age".to_string()],
        table: "users".to_string(),
        condition: None,
        order_by: vec![OrderByClause {
            column: "non_existent_column".to_string(),
            order: OrderDirection::Asc,
        }],
    };

    let result = analyzer.analyze(&ASTNode::Select(select_stmt));
    assert!(matches!(result, Err(SemanticError::ColumnNotFound(_))));
}

#[test]
fn test_number_against_string_column_is_a_mismatch() {
    let analyzer = SemanticAnalyzer::new(setup_test_schema());
    let stmt = SelectStatement {
        columns: vec!["*".to_string()],
        table: "users".to_string(),
        condition: Some(Condition::Comparison(
            "name".to_string(),
            ComparisonOperator::Equals,
            five(),
        )),
        order_by: vec![],
    };
    assert_eq!(
        analyzer.analyze_select(&stmt),
        Err(SemanticError::TypeMismatch("name".to_string()))
    );
}

#[test]
fn test_errors_name_the_offender_and_come_in_order() {
    let analyzer = SemanticAnalyzer::new(setup_test_schema());
    let stmt = SelectStatement {
        columns: vec!["id".to_string(), "nope".to_string(), "nope2".to_string()],
        table: "users".to_string(),
        condition: Some(Condition::Comparison(
            "ghost".to_string(),
            ComparisonOperator::Equals,
            five(),
        )),
        order_by: vec![],
    };
    assert_eq!(
        analyzer.analyze_select(&stmt),
        Err(SemanticError::ColumnNotFound("nope".to_string()))
    );
    let stmt = SelectStatement {
        columns: vec!["*".to_string()],
        table: "users".to_string(),
        condition: Some(Condition::Comparison(
            "ghost".to_string(),
            ComparisonOperator::Equals,
            five(),
        )),
        order_by: vec![OrderByClause { column: "nope".to_string(), order: OrderDirection::Asc }],
    };
    assert_eq!(
        analyzer.analyze_select(&stmt),
        Err(SemanticError::ColumnNotFound("ghost".to_string()))
    );
    let stmt = SelectStatement {
        columns: vec!["*".to_string()],
        table: "users".to_string(),
        condition: None,
        order_by: vec![OrderByClause { column: "*".to_string(), order: OrderDirection::Asc }],
    };
    assert_eq!(
        analyzer.analyze_select(&stmt),
        Err(SemanticError::ColumnNotFound("*".to_string()))
    );
}

#[test]
fn test_compatible_pairs() {
    let schema = setup_test_schema();
    let products = TableSchema {
        columns: {
            let mut c = OrderedMap::new();
            c.insert("price".to_string(), ColumnType::Float);
            c.insert("name".to_string(), ColumnType::String);
            c.insert("sold".to_string(), ColumnType::Boolean);
            c
        },
    };
    let analyzer = SemanticAnalyzer::new(schema);
    let on = |column: &str, value: Value| {
        Condition::Comparison(column.to_string(), ComparisonOperator::LessThan, value)
    };
    assert_eq!(analyzer.analyze_condition(&on("price", five()), &products), Ok(()));
    assert_eq!(
        analyzer.analyze_condition(&on("name", Value::String("a".to_string())), &products),
        Ok(())
    );
    assert_eq!(
        analyzer.analyze_condition(&on("price", Value::String("a".to_string())), &products),
        Err(SemanticError::TypeMismatch("price".to_string()))
    );
    assert_eq!(
        analyzer.analyze_condition(&on("sold", Value::String("true".to_string())), &products),
        Err(SemanticError::TypeMismatch("sold".to_string()))
    );
    assert_eq!(
        analyzer.analyze_condition(&on("sold", five()), &products),
        Err(SemanticError::TypeMismatch("sold".to_string()))
    );
    assert_eq!(
        analyzer.analyze_condition(&on("none", five()), &products),
        Err(SemanticError::ColumnNotFound("none".to_string()))
    );
}

#[test]
fn test_update_is_checked() {
    let analyzer = SemanticAnalyzer::new(setup_test_schema());
    let stmt = |table: &str, column: &str, condition: Option<Condition>| UpdateStatement {
        table: table.to_string(),
        updates: vec![("name".to_string(), five()), (column.to_string(), five())],
        condition,
    };
    assert_eq!(analyzer.analyze_update(&stmt("users", "age", None)), Ok(()));
    assert_eq!(
        analyzer.analyze_update(&stmt("nobody", "age", None)),
        Err(SemanticError::TableNotFound("nobody".to_string()))
    );
    assert_eq!(
        analyzer.analyze_update(&stmt("users", "height", None)),
        Err(SemanticError::ColumnNotFound("height".to_string()))
    );
    assert_eq!(
        analyzer.analyze(&ASTNode::Update(stmt(
            "users",
            "age",
            Some(Condition::Comparison(
                "age".to_string(),
                ComparisonOperator::Equals,
                Value::String("x".to_string())
            ))
        ))),
        Err(SemanticError::TypeMismatch("age".to_string()))
    );
}

#[test]
fn test_insert_is_checked_for_its_table_only() {
    let analyzer = SemanticAnalyzer::new(setup_test_schema());
    let stmt = |table: &str| InsertStatement {
        table: table.to_string(),
        columns: vec!["no_such_column".to_string()],
        values: vec![],
    };
    assert_eq!(analyzer.analyze_insert(&stmt("users")), Ok(()));
    assert_eq!(
        analyzer.analyze(&ASTNode::Insert(stmt("nobody"))),
        Err(SemanticError::TableNotFound("nobody".to_string()))
    );
}

#[test]
fn test_delete_is_checked() {
    let analyzer = SemanticAnalyzer::new(setup_test_schema());
    let stmt = |table: &str, condition: Option<Condition>| DeleteStatement {
        table: table.to_string(),
        condition,
    };
    assert_eq!(analyzer.analyze_delete(&stmt("users", None)), Ok(()));
    assert_eq!(
        analyzer.analyze_delete(&stmt("nobody", None)),
        Err(SemanticError::TableNotFound("nobody".to_string()))
    );
    assert_eq!(
        analyzer.analyze(&ASTNode::Delete(stmt(
            "users",
            Some(Condition::Comparison("name".to_string(), ComparisonOperator::Equals, five()))
        ))),
        Err(SemanticError::TypeMismatch("name".to_string()))
    );
}
