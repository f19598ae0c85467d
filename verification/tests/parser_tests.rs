use rust_sqlite::ast::{
    ASTNode, ComparisonOperator, Condition, DeleteStatement, InsertStatement, OrderByClause,
    OrderDirection, SelectStatement, UpdateStatement, Value,
};
use rust_sqlite::decimal::Decimal;
use rust_sqlite::lexer::{LexError, Lexer};
use rust_sqlite::parser::{parse_sql as parse_text, ParseError, Parser};

fn number(whole: &[u8], fraction: &[u8]) -> Value {
    Value::Number(Decimal::from_digits(false, whole.to_vec(), fraction.to_vec()).unwrap())
}

fn parse_sql(sql: &str) -> Result<ASTNode, ParseError> {
    let lexer = Lexer::new(sql);
    let mut parser = Parser::new(lexer)?;
    parser.parse()
}

#[test]
fn parser_tests_test_simple_select() {
    let ast = parse_sql("SELECT * FROM users").unwrap();
    assert_eq!(
        ast,
        ASTNode::Select(SelectStatement {
            columns: vec!["*".to_string()],
            table: "users".to_string(),
            condition: None,
            order_by: vec![],
        })
    )
}

#[test]
fn test_select_with_where_clause() {
    let ast = parse_sql("SELECT * FROM users WHERE age > 18").unwrap();
    assert_eq!(
        ast,
        ASTNode::Select(SelectStatement {
            columns: vec!["*".to_string()],
            table: "users".to_string(),
            condition: Some(Condition::Comparison(
                "age".to_string(),
                ComparisonOperator::GreaterThan,
                number(&[1, 8], &[]),
            )),
            order_by: vec![],
        })
    );
}

#[test]
fn test_insert_with_columns() {
    let ast = parse_sql("INSERT INTO users (name, age) VALUES ('John', 30)").unwrap();
    assert_eq!(
        ast,
        ASTNode::Insert(InsertStatement {
            table: "users".to_string(),
            columns: vec!["name".to_string(), "age".to_string()],
            values: vec![Value::String("John".to_string()), number(&[3, 0], &[])],
        })
    );
}

#[test]
fn test_select_with_different_operators() {
    let operators = vec![
        ("=", ComparisonOperator::Equals),
        ("<>", ComparisonOperator::NotEquals),
        (">", ComparisonOperator::GreaterThan),
        ("<", ComparisonOperator::LessThan),
        (">=", ComparisonOperator::GreaterEqualThan),
        ("<=", ComparisonOperator::LessEqualThan),
    ];

    for (op_str, op_enum) in operators {
        let sql = format!("SELECT * FROM users WHERE age {} 18", op_str);
        let ast = parse_sql(&sql).unwrap();
        assert_eq!(
            ast,
            ASTNode::Select(SelectStatement {
                columns: vec!["*".to_string()],
                table: "users".to_string(),
                condition: Some(Condition::Comparison(
                    "age".to_string(),
                    op_enum,
                    number(&[1, 8], &[]),
                )),
                order_by: vec![],
            })
        );
    }
}

#[test]
fn test_simple_update() {
    let ast = parse_sql("UPDATE users SET name = 'Andrew' WHERE id = 27").unwrap();
    assert_eq!(
        ast,
        ASTNode::Update(UpdateStatement {
            table: "users".to_string(),
            updates: vec![("name".to_string(), Value::String("Andrew".to_string()))],
            condition: Some(Condition::Comparison(
                "id".to_string(),
                ComparisonOperator::Equals,
                number(&[2, 7], &[])
            ))
        })
    )
}

#[test]
fn test_update_multiple_columns() {
    let ast =
        parse_sql("UPDATE products SET price = 19.99, stock = 100 WHERE category = 'Sports'")
            .unwrap();
    assert_eq!(
        ast,
        ASTNode::Update(UpdateStatement {
            table: "products".to_string(),
            updates: vec![
                ("price".to_string(), number(&[1, 9], &[9, 9])),
                ("stock".to_string(), number(&[1, 0, 0], &[]))
            ],
            condition: Some(Condition::Comparison(
                "category".to_string(),
                ComparisonOperator::Equals,
                Value::String("Sports".to_string())
            ))
        })
    )
}

#[test]
#[should_panic]
fn test_bad_select_statement() {
    parse_sql("SELECT FROM id WHERE name = 'Andrew'").unwrap();
}

#[test]
#[should_panic]
fn test_bad_update_statement() {
    parse_sql("UPDATE table SET = 10").unwrap();
}

#[test]
fn test_select_with_order_by() {
    let ast = parse_sql("SELECT id, name FROM users ORDER BY id ASC, name DESC, age").unwrap();
    assert_eq!(
        ast,
        ASTNode::Select(SelectStatement {
            columns: vec!["id".to_string(), "name".to_string()],
            table: "users".to_string(),
            condition: None,
            order_by: vec![
                OrderByClause { column: "id".to_string(), order: OrderDirection::Asc },
                OrderByClause { column: "name".to_string(), order: OrderDirection::Desc },
                OrderByClause { column: "age".to_string(), order: OrderDirection::Asc },
            ],
        })
    );
}

#[test]
fn test_select_where_and_order_by() {
    let ast = parse_sql("select * from t where a <= 'm' order by a desc").unwrap();
    assert_eq!(
        ast,
        ASTNode::Select(SelectStatement {
            columns: vec!["*".to_string()],
            table: "t".to_string(),
            condition: Some(Condition::Comparison(
                "a".to_string(),
                ComparisonOperator::LessEqualThan,
                Value::String("m".to_string()),
            )),
            order_by: vec![OrderByClause { column: "a".to_string(), order: OrderDirection::Desc }],
        })
    );
}

#[test]
fn test_insert_without_columns() {
    let ast = parse_sql("INSERT INTO users VALUES (1, 'Ann')").unwrap();
    assert_eq!(
        ast,
        ASTNode::Insert(InsertStatement {
            table: "users".to_string(),
            columns: vec![],
            values: vec![number(&[1], &[]), Value::String("Ann".to_string())],
        })
    );
}

#[test]
fn test_delete_statement() {
    assert_eq!(
        parse_sql("DELETE FROM users").unwrap(),
        ASTNode::Delete(DeleteStatement { table: "users".to_string(), condition: None })
    );
    assert_eq!(
        parse_sql("DELETE FROM users WHERE id <> 3").unwrap(),
        ASTNode::Delete(DeleteStatement {
            table: "users".to_string(),
            condition: Some(Condition::Comparison(
                "id".to_string(),
                ComparisonOperator::NotEquals,
                number(&[3], &[])
            ))
        })
    );
}

#[test]
fn test_update_without_where() {
    assert_eq!(
        parse_sql("UPDATE t SET a = 1").unwrap(),
        ASTNode::Update(UpdateStatement {
            table: "t".to_string(),
            updates: vec![("a".to_string(), number(&[1], &[]))],
            condition: None,
        })
    );
}

#[test]
fn test_star_stands_alone_in_the_select_list() {
    assert_eq!(parse_sql("SELECT a, * FROM t"), Err(ParseError::ExpectedColumnName));
    assert_eq!(parse_sql("SELECT *, a FROM t"), Err(ParseError::ExpectedFrom));
    assert_eq!(parse_sql("SELECT * a FROM t"), Err(ParseError::ExpectedFrom));
}

#[test]
fn test_each_syntax_error() {
    let cases = vec![
        ("", ParseError::UnexpectedToken),
        ("users", ParseError::UnexpectedToken),
        ("SELECT FROM t", ParseError::ExpectedColumnNameOrStar),
        ("SELECT a, FROM t", ParseError::ExpectedColumnName),
        ("SELECT a t", ParseError::ExpectedFrom),
        ("SELECT a FROM", ParseError::ExpectedTableName),
        ("SELECT a FROM t WHERE", ParseError::ExpectedColumnName),
        ("SELECT a FROM t WHERE a", ParseError::ExpectedOperator),
        ("SELECT a FROM t WHERE a =", ParseError::ExpectedValue),
        ("SELECT a FROM t WHERE a = b", ParseError::ExpectedValue),
        ("SELECT a FROM t ORDER a", ParseError::ExpectedBy),
        ("SELECT a FROM t ORDER BY", ParseError::ExpectedColumnName),
        ("SELECT a FROM t ORDER BY a,", ParseError::ExpectedColumnName),
        ("INSERT users", ParseError::ExpectedInto),
        ("INSERT INTO 5", ParseError::ExpectedTableName),
        ("INSERT INTO t (", ParseError::ExpectedColumnName),
        ("INSERT INTO t (a b)", ParseError::ExpectedCommaOrRightParen),
        ("INSERT INTO t (a)", ParseError::ExpectedValues),
        ("INSERT INTO t VALUES 1", ParseError::ExpectedLeftParen),
        ("INSERT INTO t VALUES (", ParseError::ExpectedValue),
        ("INSERT INTO t VALUES (1 2)", ParseError::ExpectedCommaOrRightParen),
        ("INSERT INTO t (a, b) VALUES (1)", ParseError::ColumnValueCountMismatch),
        ("UPDATE SET a = 1", ParseError::ExpectedTableName),
        ("UPDATE t a = 1", ParseError::ExpectedSet),
        ("UPDATE t SET = 1", ParseError::ExpectedColumnName),
        ("UPDATE t SET a 1", ParseError::ExpectedAssignment),
        ("UPDATE t SET a < 1", ParseError::ExpectedAssignment),
        ("UPDATE t SET a = ", ParseError::ExpectedValue),
        ("DELETE users", ParseError::ExpectedFrom),
        ("DELETE FROM *", ParseError::ExpectedTableName),
    ];
    for (sql, error) in cases {
        assert_eq!(parse_sql(sql), Err(error), "{}", sql);
        assert_eq!(parse_text(sql), Err(error), "{}", sql);
    }
}

#[test]
fn test_lexical_error_stops_the_parse() {
    assert_eq!(
        parse_sql("SELECT a FROM t WHERE a = 1 ;"),
        Err(ParseError::Lexical(LexError::UnexpectedCharacter(';')))
    );
    assert_eq!(
        parse_sql("?"),
        Err(ParseError::Lexical(LexError::UnexpectedCharacter('?')))
    );
}

#[test]
fn test_syntax_error_comes_before_a_later_lexical_error() {
    assert_eq!(parse_sql("SELECT a b ?"), Err(ParseError::ExpectedFrom));
}

#[test]
fn test_rules_one_by_one() {
    let mut parser = Parser::new(Lexer::new("a >= 2.50 , b")).unwrap();
    assert_eq!(
        parser.parse_condition(),
        Ok(Condition::Comparison(
            "a".to_string(),
            ComparisonOperator::GreaterEqualThan,
            number(&[2], &[5])
        ))
    );
    let mut parser = Parser::new(Lexer::new("a, b FROM")).unwrap();
    assert_eq!(parser.parse_columns(), Ok(vec!["a".to_string(), "b".to_string()]));
    let mut parser = Parser::new(Lexer::new("(a, b) VALUES")).unwrap();
    assert_eq!(parser.parse_column_list(), Ok(vec!["a".to_string(), "b".to_string()]));
    let mut parser = Parser::new(Lexer::new("('x', 2)")).unwrap();
    assert_eq!(
        parser.parse_value_list(),
        Ok(vec![Value::String("x".to_string()), number(&[2], &[])])
    );
    let mut parser = Parser::new(Lexer::new("a = 1, b = 'z' WHERE")).unwrap();
    assert_eq!(
        parser.parse_update_list(),
        Ok(vec![
            ("a".to_string(), number(&[1], &[])),
            ("b".to_string(), Value::String("z".to_string()))
        ])
    );
}

#[test]
fn test_messages_are_distinct_and_name_the_character() {
    assert_eq!(
        ParseError::Lexical(LexError::UnexpectedCharacter('#')).message(),
        "Unexpected character: #"
    );
    assert_eq!(
        ParseError::ColumnValueCountMismatch.message(),
        "Number of columns doesn't match number of values"
    );
    assert_ne!(ParseError::ExpectedFrom.message(), ParseError::ExpectedInto.message());
}
