use rust_sqlite::decimal::Decimal;
use rust_sqlite::lexer::{LexError, Lexer, Token};

fn number(whole: &[u8], fraction: &[u8]) -> Decimal {
    Decimal::from_digits(false, whole.to_vec(), fraction.to_vec()).unwrap()
}

fn tokens_of(sql: &str) -> Vec<Token> {
    Lexer::new(sql).tokenize().unwrap()
}

#[test]
fn lexer_tests_test_simple_select() {
    let sql = "SELECT * FROM users";
    let tokens: Vec<Token> = tokens_of(sql);
    assert_eq!(
        tokens,
        vec![
            Token::Select,
            Token::Asterisk,
            Token::From,
            Token::Identifier("users".to_string())
        ]
    );
}

#[test]
fn test_select_with_columns() {
    let sql = "SELECT id, name FROM users";
    let tokens: Vec<Token> = tokens_of(sql);
    assert_eq!(
        tokens,
        vec![
            Token::Select,
            Token::Identifier("id".to_string()),
            Token::Comma,
            Token::Identifier("name".to_string()),
            Token::From,
            Token::Identifier("users".to_string())
        ]
    );
}

#[test]
fn test_string_literals() {
    let sql = "SELECT name FROM users WHERE name = \"John Doe\"";
    let tokens: Vec<Token> = tokens_of(sql);
    assert_eq!(
        tokens,
        vec![
            Token::Select,
            Token::Identifier("name".to_string()),
            Token::From,
            Token::Identifier("users".to_string()),
            Token::Where,
            Token::Identifier("name".to_string()),
            Token::Operator("=".to_string()),
            Token::String("John Doe".to_string())
        ]
    );
}

#[test]
fn test_numeric_literals() {
    let sql = "SELECT * FROM temperatures WHERE value > 98.6";
    let tokens: Vec<Token> = tokens_of(sql);
    assert_eq!(
        tokens,
        vec![
            Token::Select,
            Token::Asterisk,
            Token::From,
            Token::Identifier("temperatures".to_string()),
            Token::Where,
            Token::Identifier("value".to_string()),
            Token::Operator(">".to_string()),
            Token::Number(number(&[9, 8], &[6]))
        ]
    );
}

#[test]
fn test_case_insesitive() {
    let sql = "select * from users WHERE age > 18";
    let tokens: Vec<Token> = tokens_of(sql);
    assert_eq!(
        tokens,
        vec![
            Token::Select,
            Token::Asterisk,
            Token::From,
            Token::Identifier("users".to_string()),
            Token::Where,
            Token::Identifier("age".to_string()),
            Token::Operator(">".to_string()),
            Token::Number(number(&[1, 8], &[]))
        ]
    );
}

#[test]
fn test_nested() {
    let sql = "SELECT * FROM (SELECT id FROM users)";
    let tokens: Vec<Token> = tokens_of(sql);
    assert_eq!(
        tokens,
        vec![
            Token::Select,
            Token::Asterisk,
            Token::From,
            Token::LeftParen,
            Token::Select,
            Token::Identifier("id".to_string()),
            Token::From,
            Token::Identifier("users".to_string()),
            Token::RightParen
        ]
    );
}

#[test]
fn test_insert_into() {
    let sql = "INSERT INTO users (name, age) VALUES ('John Doe', 30)";
    let tokens: Vec<Token> = tokens_of(sql);

    assert_eq!(
        tokens,
        vec![
            Token::Insert,
            Token::Into,
            Token::Identifier("users".to_string()),
            Token::LeftParen,
            Token::Identifier("name".to_string()),
            Token::Comma,
            Token::Identifier("age".to_string()),
            Token::RightParen,
            Token::Values,
            Token::LeftParen,
            Token::String("John Doe".to_string()),
            Token::Comma,
            Token::Number(number(&[3, 0], &[])),
            Token::RightParen,
        ]
    );
}

#[test]
fn test_delete() {
    let sql = "DELETE FROM tables WHERE name = 'Andrew'";
    let tokens: Vec<Token> = tokens_of(sql);

    assert_eq!(
        tokens,
        vec![
            Token::Delete,
            Token::From,
            Token::Identifier("tables".to_string()),
            Token::Where,
            Token::Identifier("name".to_string()),
            Token::Operator("=".to_string()),
            Token::String("Andrew".to_string())
        ]
    );
}

#[test]
fn lexer_tests_test_update() {
    let sql = "UPDATE users SET name = 'Andrew' WHERE id < 10";
    let tokens: Vec<Token> = tokens_of(sql);
    assert_eq!(
        tokens,
        vec![
            Token::Update,
            Token::Identifier("users".to_string()),
            Token::SetKeyword,
            Token::Identifier("name".to_string()),
            Token::Operator("=".to_string()),
            Token::String("Andrew".to_string()),
            Token::Where,
            Token::Identifier("id".to_string()),
            Token::Operator("<".to_string()),
            Token::Number(number(&[1, 0], &[]))
        ]
    );
}

#[test]
fn test_all_keywords_in_any_case() {
    let tokens = tokens_of("Select insert UPDATE delete Order bY aSc DESC set From where INTO values");
    assert_eq!(
        tokens,
        vec![
            Token::Select,
            Token::Insert,
            Token::Update,
            Token::Delete,
            Token::Order,
            Token::By,
            Token::Asc,
            Token::Desc,
            Token::SetKeyword,
            Token::From,
            Token::Where,
            Token::Into,
            Token::Values,
        ]
    );
}

#[test]
fn test_identifier_keeps_its_spelling() {
    assert_eq!(
        tokens_of("Users _tmp col_1 selection"),
        vec![
            Token::Identifier("Users".to_string()),
            Token::Identifier("_tmp".to_string()),
            Token::Identifier("col_1".to_string()),
            Token::Identifier("selection".to_string()),
        ]
    );
}

#[test]
fn test_identifier_continues_over_letters_of_any_script() {
    assert_eq!(
        tokens_of("na\u{ef}ve, x\u{3b1}2"),
        vec![
            Token::Identifier("na\u{ef}ve".to_string()),
            Token::Comma,
            Token::Identifier("x\u{3b1}2".to_string()),
        ]
    );
}

#[test]
fn test_operators() {
    assert_eq!(
        tokens_of("= <> > < >= <= == =< ><"),
        vec![
            Token::Operator("=".to_string()),
            Token::Operator("<>".to_string()),
            Token::Operator(">".to_string()),
            Token::Operator("<".to_string()),
            Token::Operator(">=".to_string()),
            Token::Operator("<=".to_string()),
            Token::Operator("=".to_string()),
            Token::Operator("=".to_string()),
            Token::Operator("=".to_string()),
            Token::Operator("<".to_string()),
            Token::Operator(">".to_string()),
            Token::Operator("<".to_string()),
        ]
    );
}

#[test]
fn test_whitespace_of_all_kinds_is_skipped() {
    assert_eq!(
        tokens_of("\t\n SELECT\r\n\u{a0}*\u{2003}"),
        vec![Token::Select, Token::Asterisk]
    );
    assert_eq!(tokens_of(""), vec![]);
    assert_eq!(tokens_of("   "), vec![]);
}

#[test]
fn test_string_runs_to_matching_quote() {
    assert_eq!(
        tokens_of("'it\"s' \"it's\" ''"),
        vec![
            Token::String("it\"s".to_string()),
            Token::String("it's".to_string()),
            Token::String("".to_string()),
        ]
    );
}

#[test]
fn test_unterminated_string_runs_to_the_end() {
    assert_eq!(tokens_of("'abc, 1"), vec![Token::String("abc, 1".to_string())]);
}

#[test]
fn test_number_forms() {
    assert_eq!(
        tokens_of("007 1. 0.50 12abc"),
        vec![
            Token::Number(number(&[7], &[])),
            Token::Number(number(&[1], &[])),
            Token::Number(number(&[], &[5])),
            Token::Number(number(&[1, 2], &[])),
            Token::Identifier("abc".to_string()),
        ]
    );
}

#[test]
fn test_number_takes_one_point_only() {
    let mut lexer = Lexer::new("1.2.3");
    assert_eq!(lexer.next_token(), Ok(Token::Number(number(&[1], &[2]))));
    assert_eq!(lexer.next_token(), Err(LexError::UnexpectedCharacter('.')));
    assert_eq!(lexer.next_token(), Ok(Token::Number(number(&[3], &[]))));
    assert_eq!(lexer.next_token(), Ok(Token::EOF));
}

#[test]
fn test_number_of_any_length() {
    let tokens = tokens_of("123456789012345678901234567890.5");
    let digits: Vec<u8> = "123456789012345678901234567890".bytes().map(|b| b - b'0').collect();
    assert_eq!(tokens, vec![Token::Number(number(&digits, &[5]))]);
}

#[test]
fn test_unexpected_character() {
    assert_eq!(
        Lexer::new("SELECT ; FROM").tokenize(),
        Err(LexError::UnexpectedCharacter(';'))
    );
    assert_eq!(Lexer::new("-5").tokenize(), Err(LexError::UnexpectedCharacter('-')));
}

#[test]
fn test_next_ends_with_none_and_stays_there() {
    let mut lexer = Lexer::new("a ,");
    assert_eq!(lexer.next(), Ok(Some(Token::Identifier("a".to_string()))));
    assert_eq!(lexer.next(), Ok(Some(Token::Comma)));
    assert_eq!(lexer.next(), Ok(None));
    assert_eq!(lexer.next(), Ok(None));
    assert_eq!(lexer.next_token(), Ok(Token::EOF));
}

#[test]
fn test_token_clone_is_equal() {
    for token in tokens_of("SELECT a, 1.5, 'x' >= *") {
        assert_eq!(token.clone(), token);
    }
}
