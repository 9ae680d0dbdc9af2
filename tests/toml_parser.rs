use yalc::config::toml_lexer::{Token, Value as LValue};
use yalc::config::toml_parser::{Parser, Table, TopLevelTable, Value};

fn s(text: &str) -> String {
    text.to_string()
}

fn key_value(key: &str, value: LValue) -> Vec<Token> {
    vec![Token::Key(s(key)), Token::Whitespace, Token::Equal, Token::Whitespace, Token::Value(value), Token::Newline]
}

fn section(name: &str) -> Vec<Token> {
    vec![Token::LBracket, Token::SectionName(s(name)), Token::RBracket, Token::Newline]
}

#[test]
fn test_empty_tokens() {
    let tokens = vec![Token::Whitespace, Token::EOF];
    let parser = Parser::new(tokens);
    let table: TopLevelTable = parser.parse().unwrap();
    assert!(table.is_empty());
}

#[test]
fn test_root_single_key_value() {
    let tokens = vec![
        Token::Key(s("hello")),
        Token::Whitespace,
        Token::Equal,
        Token::Whitespace,
        Token::Value(LValue::String(s("world"))),
        Token::EOF,
    ];
    let parser = Parser::new(tokens);
    let table: TopLevelTable = parser.parse().unwrap();
    let mut exp_table: TopLevelTable = Table::new();
    exp_table.insert(s("hello"), Value::String(s("world"))).unwrap();
    assert_eq!(table, exp_table);
}

#[test]
fn test_root_multi_key_value() {
    let tokens = vec![
        Token::Key(s("keep_rotate")),
        Token::Whitespace,
        Token::Equal,
        Token::Whitespace,
        Token::Whitespace,
        Token::Value(LValue::Integer(3)),
        Token::Newline,
        Token::Key(s("dry_run")),
        Token::Whitespace,
        Token::Equal,
        Token::Whitespace,
        Token::Value(LValue::Bool(true)),
        Token::Newline,
        Token::EOF,
    ];
    let parser = Parser::new(tokens);
    let table: TopLevelTable = parser.parse().unwrap();
    let mut exp_table: TopLevelTable = Table::new();
    exp_table.insert(s("keep_rotate"), Value::Integer(3)).unwrap();
    exp_table.insert(s("dry_run"), Value::Bool(true)).unwrap();
    assert_eq!(table, exp_table);
}

#[test]
fn test_root_value_list() {
    let mut tokens = key_value("keep_rotate", LValue::Integer(0));
    tokens.extend(vec![
        Token::Key(s("file_list")),
        Token::Whitespace,
        Token::Equal,
        Token::Whitespace,
        Token::LBracket,
        Token::Newline,
        Token::Whitespace,
        Token::Value(LValue::Integer(1)),
        Token::Comma,
        Token::Newline,
        Token::Whitespace,
        Token::Value(LValue::Integer(2)),
        Token::Comma,
        Token::Newline,
        Token::Whitespace,
        Token::Value(LValue::Integer(3)),
        Token::Newline,
        Token::RBracket,
        Token::Newline,
        Token::EOF,
    ]);
    let parser = Parser::new(tokens);
    let table: TopLevelTable = parser.parse().unwrap();
    let mut exp_table: TopLevelTable = Table::new();
    exp_table.insert(s("keep_rotate"), Value::Integer(0)).unwrap();
    exp_table
        .insert(s("file_list"), Value::Array(vec![Value::Integer(1), Value::Integer(2), Value::Integer(3)]))
        .unwrap();
    assert_eq!(table, exp_table);
}

#[test]
fn test_single_table() {
    let mut tokens = key_value("keep_rotate", LValue::Integer(12));
    tokens.extend(section("retention"));
    tokens.extend(key_value("file_size_mb", LValue::Integer(24)));
    tokens.extend(key_value("last_write_h", LValue::Integer(5)));
    tokens.push(Token::EOF);
    let parser = Parser::new(tokens);
    let table: TopLevelTable = parser.parse().unwrap();

    let mut retention_table = Table::new();
    retention_table.insert(s("file_size_mb"), Value::Integer(24)).unwrap();
    retention_table.insert(s("last_write_h"), Value::Integer(5)).unwrap();
    let mut exp_table: TopLevelTable = Table::new();
    exp_table.insert(s("keep_rotate"), Value::Integer(12)).unwrap();
    exp_table.insert(s("retention"), Value::Table(retention_table)).unwrap();
    assert_eq!(table, exp_table);
}

#[test]
fn test_mixed_tables() {
    let mut tokens = key_value("keep_rotate", LValue::Integer(12));
    tokens.extend(section("retention"));
    tokens.extend(key_value("file_size_mb", LValue::Integer(24)));
    tokens.extend(section("config"));
    tokens.extend(key_value("first_config", LValue::Integer(1)));
    tokens.extend(key_value("second_config", LValue::Integer(2)));
    tokens.extend(section("retention"));
    tokens.extend(key_value("last_write_h", LValue::Integer(5)));
    tokens.push(Token::EOF);
    let parser = Parser::new(tokens);
    let table: TopLevelTable = parser.parse().unwrap();

    let mut retention_table = Table::new();
    retention_table.insert(s("file_size_mb"), Value::Integer(24)).unwrap();
    retention_table.insert(s("last_write_h"), Value::Integer(5)).unwrap();
    let mut config_table = Table::new();
    config_table.insert(s("first_config"), Value::Integer(1)).unwrap();
    config_table.insert(s("second_config"), Value::Integer(2)).unwrap();
    let mut exp_table: TopLevelTable = Table::new();
    exp_table.insert(s("keep_rotate"), Value::Integer(12)).unwrap();
    exp_table.insert(s("retention"), Value::Table(retention_table)).unwrap();
    exp_table.insert(s("config"), Value::Table(config_table)).unwrap();
    assert_eq!(table, exp_table);
}

#[test]
fn toml_parser_test_sub_tables() {
    let mut tokens = key_value("keep_rotate", LValue::Integer(12));
    tokens.extend(section("servers"));
    tokens.extend(section("servers.alpha"));
    tokens.extend(key_value("ip", LValue::Integer(1)));
    tokens.extend(section("servers.beta"));
    tokens.extend(key_value("ip", LValue::Integer(2)));
    tokens.push(Token::EOF);
    let parser = Parser::new(tokens);
    let table: TopLevelTable = parser.parse().unwrap();

    let mut servers_alpha_table = Table::new();
    servers_alpha_table.insert(s("ip"), Value::Integer(1)).unwrap();
    let mut servers_beta_table = Table::new();
    servers_beta_table.insert(s("ip"), Value::Integer(2)).unwrap();
    let mut servers_table = Table::new();
    servers_table.insert(s("alpha"), Value::Table(servers_alpha_table)).unwrap();
    servers_table.insert(s("beta"), Value::Table(servers_beta_table)).unwrap();
    let mut exp_table: TopLevelTable = Table::new();
    exp_table.insert(s("keep_rotate"), Value::Integer(12)).unwrap();
    exp_table.insert(s("servers"), Value::Table(servers_table)).unwrap();
    assert_eq!(table, exp_table);
}

#[test]
fn test_sub_table_array_value() {
    let mut tokens = key_value("keep_rotate", LValue::Integer(10));
    tokens.push(Token::Newline);
    tokens.extend(section("retention"));
    tokens.extend(key_value("file_size_mb", LValue::Integer(30)));
    tokens.extend(vec![
        Token::Key(s("colors")),
        Token::Whitespace,
        Token::Equal,
        Token::Whitespace,
        Token::LBracket,
        Token::Value(LValue::String(s("red"))),
        Token::Comma,
        Token::Whitespace,
        Token::Value(LValue::String(s("green"))),
        Token::Comma,
        Token::Whitespace,
        Token::Value(LValue::String(s("blue"))),
        Token::RBracket,
        Token::Newline,
        Token::Newline,
        Token::Key(s("enable_flags")),
        Token::Whitespace,
        Token::Equal,
        Token::Whitespace,
        Token::LBracket,
        Token::Newline,
        Token::Whitespace,
        Token::Value(LValue::Bool(true)),
        Token::Comma,
        Token::Newline,
        Token::Whitespace,
        Token::Value(LValue::Bool(true)),
        Token::Comma,
        Token::Newline,
        Token::Whitespace,
        Token::Value(LValue::Bool(false)),
        Token::Comma,
        Token::Newline,
        Token::Whitespace,
        Token::Value(LValue::Bool(true)),
        Token::Newline,
        Token::RBracket,
        Token::Newline,
    ]);
    tokens.extend(key_value("final_key", LValue::Integer(50)));
    tokens.push(Token::EOF);
    let parser = Parser::new(tokens);
    let table: TopLevelTable = parser.parse().unwrap();

    let mut retention_table = Table::new();
    retention_table.insert(s("file_size_mb"), Value::Integer(30)).unwrap();
    retention_table
        .insert(
            s("colors"),
            Value::Array(vec![Value::String(s("red")), Value::String(s("green")), Value::String(s("blue"))]),
        )
        .unwrap();
    retention_table
        .insert(
            s("enable_flags"),
            Value::Array(vec![Value::Bool(true), Value::Bool(true), Value::Bool(false), Value::Bool(true)]),
        )
        .unwrap();
    retention_table.insert(s("final_key"), Value::Integer(50)).unwrap();
    let mut exp_table: TopLevelTable = Table::new();
    exp_table.insert(s("keep_rotate"), Value::Integer(10)).unwrap();
    exp_table.insert(s("retention"), Value::Table(retention_table)).unwrap();
    assert_eq!(table, exp_table);
}

#[test]
fn test_array_of_tables() {
    let mut tokens = key_value("keep_rotate", LValue::Integer(21));
    for age in 1..=3 {
        tokens.extend(vec![Token::DoubleLBracket, Token::SectionName(s("users")), Token::DoubleRBracket, Token::Newline]);
        tokens.extend(key_value("age", LValue::Integer(age)));
        if age < 3 {
            tokens.push(Token::Newline);
        }
    }
    tokens.push(Token::EOF);
    let parser = Parser::new(tokens);
    let table: TopLevelTable = parser.parse().unwrap();

    let mut exp_table: TopLevelTable = Table::new();
    exp_table.insert(s("keep_rotate"), Value::Integer(21)).unwrap();
    let mut tables = Vec::new();
    for age in 1..=3 {
        let mut t = Table::new();
        t.insert(s("age"), Value::Integer(age)).unwrap();
        tables.push(Value::Table(t));
    }
    exp_table.insert(s("users"), Value::Array(tables)).unwrap();
    assert_eq!(table, exp_table);
}
