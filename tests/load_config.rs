use yalc::config::config_commands::{apply_run_args, load_config};
use yalc::config::config_parser::{get_uint, get_value};
use yalc::config::toml_lexer::{tokenize, Token, Value as LValue};
use yalc::config::toml_parser::{ParseError, Parser, Table, Value};
use yalc::config::{CleanUpMode, ConfigError, ErrorKind, ValueKind};
use yalc::command::RunArg;

const FULL: &str = r#"# Yalc log rotation config
dry_run = false
mode = "FileSize"

keep_rotate = 3

missing_files_ok = true
copy_truncate = true

file_list = [
    "/var/log/test.log",
    "/opt/app/logs/server.log"
]

[retention]
file_size_mb = 10
last_write_h = 5
"#;

fn tree(text: &str) -> Result<Table, ParseError> {
    Parser::new(tokenize(text)).parse()
}

#[test]
fn loads_a_complete_configuration() {
    let config = load_config(FULL).unwrap();
    assert!(!config.dry_run);
    assert_eq!(config.mode, CleanUpMode::FileSize);
    assert_eq!(config.keep_rotate, 3);
    assert!(config.missing_files_ok);
    assert!(config.copy_truncate);
    assert_eq!(config.file_list, vec!["/var/log/test.log".to_string(), "/opt/app/logs/server.log".to_string()]);
    assert_eq!(config.retention.file_size_mb, 10);
    assert_eq!(config.retention.last_write_h, 5);
}

#[test]
fn mode_names_ignore_case() {
    let config = load_config(&FULL.replace("\"FileSize\"", "\"lastWRITE\"")).unwrap();
    assert_eq!(config.mode, CleanUpMode::LastWrite);
    assert_eq!(CleanUpMode::from_str("all"), Ok(CleanUpMode::All));
    assert!(CleanUpMode::from_str("sometimes").is_err());
    let err = load_config(&FULL.replace("\"FileSize\"", "\"Never\"")).unwrap_err();
    assert_eq!(err, ConfigError::InvalidMode { value: "Never".to_string() });
    assert_eq!(err.kind(), ErrorKind::InvalidData);
}

#[test]
fn overrides_apply_to_a_loaded_configuration() {
    let config = load_config(FULL).unwrap();
    let adjusted = apply_run_args(config, &vec![RunArg::DryRun]);
    assert!(adjusted.dry_run);
    assert!(adjusted.copy_truncate);
    assert_eq!(adjusted.keep_rotate, 3);
}

#[test]
fn duplicate_key_is_refused() {
    let err = load_config(&format!("{}keep_rotate = 4\n", FULL.replace("[retention]", "keep_rotate = 4\n[retention]")))
        .unwrap_err();
    assert_eq!(err, ConfigError::Parse(ParseError::DuplicateKey { key: "keep_rotate".to_string() }));
    assert_eq!(err.kind(), ErrorKind::InvalidData);
    let mut table = Table::new();
    table.insert("a".to_string(), Value::Integer(1)).unwrap();
    assert_eq!(
        table.insert("a".to_string(), Value::Integer(2)),
        Err(ParseError::DuplicateKey { key: "a".to_string() })
    );
    assert_eq!(get_uint(&table, "a", u64::MAX).unwrap(), 1);
}

#[test]
fn missing_key_is_not_found() {
    let err = load_config(&FULL.replace("last_write_h = 5", "")).unwrap_err();
    assert_eq!(err, ConfigError::MissingKey { key: "retention.last_write_h".to_string() });
    assert_eq!(err.kind(), ErrorKind::NotFound);
}

#[test]
fn wrong_kinds_are_invalid_data() {
    let err = load_config(&FULL.replace("dry_run = false", "dry_run = 1")).unwrap_err();
    assert_eq!(err, ConfigError::WrongType { key: "dry_run".to_string(), expected: ValueKind::Bool });
    assert_eq!(err.kind(), ErrorKind::InvalidData);
    let mut root = Table::new();
    root.insert("n".to_string(), Value::Integer(-1)).unwrap();
    assert_eq!(get_uint(&root, "n", u64::MAX), Err(ConfigError::Negative { key: "n".to_string() }));
    root.insert("big".to_string(), Value::Integer(300)).unwrap();
    assert_eq!(get_uint(&root, "big", 255), Err(ConfigError::TooLarge { key: "big".to_string() }));
}

#[test]
fn unexpected_end_and_lexical_errors() {
    let err = load_config("dry_run =").unwrap_err();
    assert_eq!(err.kind(), ErrorKind::UnexpectedEof);
    let err = load_config("dry_run = @").unwrap_err();
    assert_eq!(err, ConfigError::Parse(ParseError::Lexical { message: "Unknown token".to_string() }));
    let err = load_config("list = [\"a\", \"b\"").unwrap_err();
    assert_eq!(err.kind(), ErrorKind::UnexpectedEof);
}

#[test]
fn array_of_tables_from_text() {
    let table = tree("[[arr]]\na = 1\nb = 2\n[[arr]]\nc = true\n[[arr]]\n").unwrap();
    let mut first = Table::new();
    first.insert("a".to_string(), Value::Integer(1)).unwrap();
    first.insert("b".to_string(), Value::Integer(2)).unwrap();
    let mut second = Table::new();
    second.insert("c".to_string(), Value::Bool(true)).unwrap();
    let mut expected = Table::new();
    expected
        .insert("arr".to_string(), Value::Array(vec![Value::Table(first), Value::Table(second), Value::Table(Table::new())]))
        .unwrap();
    assert_eq!(table, expected);
}

#[test]
fn dotted_header_equals_nested_headers() {
    let dotted = tree("[a.b]\nc = 1\n").unwrap();
    let nested = tree("[a]\n[a.b]\nc = 1\n").unwrap();
    assert_eq!(dotted, nested);
    assert_eq!(get_value(&dotted, "a.b.c").unwrap(), &Value::Integer(1));
    assert_eq!(get_value(&nested, "a.b.c").unwrap(), &Value::Integer(1));
}

#[test]
fn tokens_carry_the_text_of_the_input() {
    let tokens = tokenize("[sec.name]\nkey_1 = \"a b\" # note\nn = 007\nf = 1e-3\n");
    assert_eq!(
        tokens,
        vec![
            Token::LBracket,
            Token::SectionName("sec.name".to_string()),
            Token::RBracket,
            Token::Newline,
            Token::Key("key_1".to_string()),
            Token::Whitespace,
            Token::Equal,
            Token::Whitespace,
            Token::Value(LValue::String("a b".to_string())),
            Token::Whitespace,
            Token::Comment(" note".to_string()),
            Token::Newline,
            Token::Key("n".to_string()),
            Token::Whitespace,
            Token::Equal,
            Token::Whitespace,
            Token::Value(LValue::Integer(7)),
            Token::Newline,
            Token::Key("f".to_string()),
            Token::Whitespace,
            Token::Equal,
            Token::Whitespace,
            Token::Value(LValue::Float("1e-3".to_string())),
            Token::Newline,
            Token::EOF,
        ]
    );
}

#[test]
fn values_that_are_no_number_are_errors() {
    let tokens = tokenize("v = 12abc");
    assert_eq!(tokens[4], Token::Error("Invalid value data type".to_string()));
    let tokens = tokenize("v = 99999999999999999999");
    assert_eq!(tokens[4], Token::Value(LValue::Float("99999999999999999999".to_string())));
    let tokens = tokenize("v = inf");
    assert_eq!(tokens[4], Token::Value(LValue::Float("inf".to_string())));
}

#[test]
fn inline_list_right_after_the_equal_sign() {
    let table = tree("k=[\"a\",\"b\"]\n").unwrap();
    let mut expected = Table::new();
    expected
        .insert("k".to_string(), Value::Array(vec![Value::String("a".to_string()), Value::String("b".to_string())]))
        .unwrap();
    assert_eq!(table, expected);
}

#[test]
fn array_of_tables_under_a_table() {
    let table = tree("[[a.b]]\nx = 1\n[[a.b]]\nx = 2\n").unwrap();
    let mut first = Table::new();
    first.insert("x".to_string(), Value::Integer(1)).unwrap();
    let mut second = Table::new();
    second.insert("x".to_string(), Value::Integer(2)).unwrap();
    let mut a = Table::new();
    a.insert("b".to_string(), Value::Array(vec![Value::Table(first), Value::Table(second)])).unwrap();
    let mut expected = Table::new();
    expected.insert("a".to_string(), Value::Table(a)).unwrap();
    assert_eq!(table, expected);
    assert_eq!(
        tree("a = 1\n[[a]]\n").unwrap_err(),
        ParseError::NotAnArrayOfTables { key: "a".to_string() }
    );
    assert_eq!(tree("a = 1\n[a]\nb = 2\n").unwrap_err(), ParseError::NotATable { key: "a".to_string() });
}

#[test]
fn list_cut_short_by_another_token_is_an_unexpected_end() {
    let err = load_config("k = [\"a\", b]\n").unwrap_err();
    assert_eq!(err, ConfigError::Parse(ParseError::UnexpectedEnd { expected: yalc::config::toml_parser::Expected::RBracket }));
    assert_eq!(err.kind(), ErrorKind::UnexpectedEof);
}

#[test]
fn duplicate_key_in_reopened_table_is_refused() {
    let err = tree("[a]\nk = 1\n[b]\nx = 1\n[a]\nk = 2\n").unwrap_err();
    assert_eq!(err, ParseError::DuplicateKey { key: "k".to_string() });
}

#[test]
fn mode_from_upper_case_name() {
    assert_eq!(CleanUpMode::from_uppercase("FILESIZE"), Some(CleanUpMode::FileSize));
    assert_eq!(CleanUpMode::from_uppercase("LASTWRITE"), Some(CleanUpMode::LastWrite));
    assert_eq!(CleanUpMode::from_uppercase("ALL"), Some(CleanUpMode::All));
    assert_eq!(CleanUpMode::from_uppercase("FileSize"), None);
}

#[test]
fn signed_integer_values() {
    let mut lexer = yalc::config::toml_lexer::Lexer::new("k = -5");
    assert_eq!(lexer.next_token(), Token::Key("k".to_string()));
    assert_eq!(lexer.next_token(), Token::Whitespace);
    assert_eq!(lexer.next_token(), Token::Equal);
    assert_eq!(lexer.next_token(), Token::Whitespace);
    assert_eq!(lexer.next_token(), Token::Value(LValue::Integer(-5)));
    assert_eq!(lexer.next_token(), Token::EOF);
    assert_eq!(tokenize("v = +7")[4], Token::Value(LValue::Integer(7)));
    assert_eq!(tokenize("v = -9223372036854775808")[4], Token::Value(LValue::Integer(i64::MIN)));
    assert_eq!(tokenize("v = 9223372036854775807")[4], Token::Value(LValue::Integer(i64::MAX)));
    assert_eq!(tokenize("v = -1.5")[4], Token::Value(LValue::Float("-1.5".to_string())));
    assert_eq!(tokenize("v = -")[4], Token::Error("Invalid value data type".to_string()));
    assert_eq!(tokenize("-k = 1")[0], Token::Error("Unknown token".to_string()));
}

#[test]
fn negative_value_for_an_unsigned_key() {
    let err = load_config(&FULL.replace("keep_rotate = 3", "keep_rotate = -3")).unwrap_err();
    assert_eq!(err, ConfigError::Negative { key: "keep_rotate".to_string() });
    assert_eq!(err.kind(), ErrorKind::InvalidData);
}
