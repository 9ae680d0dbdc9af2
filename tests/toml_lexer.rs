use yalc::config::toml_lexer::{Lexer, Token, Value};

fn check_tokens(input: &str, tokens: Vec<Token>) {
    let mut lexer = Lexer::new(input);
    for expected_token in tokens {
        let token = lexer.next_token();
        assert_eq!(token, expected_token);
    }
}

fn s(text: &str) -> String {
    text.to_string()
}

#[test]
fn test_simple_key_value_string() {
    let input = r#"hello = "world""#;
    check_tokens(
        input,
        vec![
            Token::Key(s("hello")),
            Token::Whitespace,
            Token::Equal,
            Token::Whitespace,
            Token::Value(Value::String(s("world"))),
            Token::EOF,
        ],
    );
}

#[test]
fn test_simple_key_value_integer() {
    check_tokens(
        "key = 1",
        vec![
            Token::Key(s("key")),
            Token::Whitespace,
            Token::Equal,
            Token::Whitespace,
            Token::Value(Value::Integer(1)),
            Token::EOF,
        ],
    );
}

#[test]
fn test_simple_key_value_boolean() {
    check_tokens(
        "key = true",
        vec![
            Token::Key(s("key")),
            Token::Whitespace,
            Token::Equal,
            Token::Whitespace,
            Token::Value(Value::Bool(true)),
            Token::EOF,
        ],
    );
}

fn assert_float(token: Token, expected: f64) {
    match token {
        Token::Value(Value::Float(text)) => assert_eq!(text.parse::<f64>().unwrap(), expected),
        other => panic!("expected a float value, got {:?}", other),
    }
}

#[test]
fn test_simple_key_value_float() {
    let mut lexer = Lexer::new("key = 12.3");
    assert_eq!(lexer.next_token(), Token::Key(s("key")));
    assert_eq!(lexer.next_token(), Token::Whitespace);
    assert_eq!(lexer.next_token(), Token::Equal);
    assert_eq!(lexer.next_token(), Token::Whitespace);
    assert_float(lexer.next_token(), 12.3);
    assert_eq!(lexer.next_token(), Token::EOF);
}

#[test]
fn test_simple_multiline() {
    let input = r#"name = "test"
age = 30
"#;
    check_tokens(
        input,
        vec![
            Token::Key(s("name")),
            Token::Whitespace,
            Token::Equal,
            Token::Whitespace,
            Token::Value(Value::String(s("test"))),
            Token::Newline,
            Token::Key(s("age")),
            Token::Whitespace,
            Token::Equal,
            Token::Whitespace,
            Token::Value(Value::Integer(30)),
            Token::Newline,
            Token::EOF,
        ],
    );
}

#[test]
fn test_simple_list() {
    let input = r#"name = "list-test"
file_list = [
    "apple",
    "banana",
    "cherry"
]
"#;
    let indent = || vec![Token::Whitespace, Token::Whitespace, Token::Whitespace, Token::Whitespace];
    let mut tokens = vec![
        Token::Key(s("name")),
        Token::Whitespace,
        Token::Equal,
        Token::Whitespace,
        Token::Value(Value::String(s("list-test"))),
        Token::Newline,
        Token::Key(s("file_list")),
        Token::Whitespace,
        Token::Equal,
        Token::Whitespace,
        Token::LBracket,
        Token::Newline,
    ];
    tokens.extend(indent());
    tokens.push(Token::Value(Value::String(s("apple"))));
    tokens.push(Token::Comma);
    tokens.push(Token::Newline);
    tokens.extend(indent());
    tokens.push(Token::Value(Value::String(s("banana"))));
    tokens.push(Token::Comma);
    tokens.push(Token::Newline);
    tokens.extend(indent());
    tokens.push(Token::Value(Value::String(s("cherry"))));
    tokens.push(Token::Newline);
    tokens.push(Token::RBracket);
    tokens.push(Token::Newline);
    tokens.push(Token::EOF);
    check_tokens(input, tokens);
}

#[test]
fn test_simple_comment_line() {
    let input = r#"name = "comment-test"
# Text of my comment
"#;
    check_tokens(
        input,
        vec![
            Token::Key(s("name")),
            Token::Whitespace,
            Token::Equal,
            Token::Whitespace,
            Token::Value(Value::String(s("comment-test"))),
            Token::Newline,
            Token::Comment(s(" Text of my comment")),
            Token::Newline,
            Token::EOF,
        ],
    );
}

#[test]
fn test_simple_section() {
    let input = r#"name = "section-test"
[retention]
file_size_mb = 24
"#;
    check_tokens(
        input,
        vec![
            Token::Key(s("name")),
            Token::Whitespace,
            Token::Equal,
            Token::Whitespace,
            Token::Value(Value::String(s("section-test"))),
            Token::Newline,
            Token::LBracket,
            Token::SectionName(s("retention")),
            Token::RBracket,
            Token::Newline,
            Token::Key(s("file_size_mb")),
            Token::Whitespace,
            Token::Equal,
            Token::Whitespace,
            Token::Value(Value::Integer(24)),
            Token::Newline,
            Token::EOF,
        ],
    );
}

#[test]
fn test_simple_array_section() {
    let input = r#"key = "array-table-test"

[[products]]
name = "Apple"
price = 1.20

[[products]]
name = "Banana"
price = 0.80
"#;
    let mut lexer = Lexer::new(input);
    let before_price = |lexer: &mut Lexer, name: &str| {
        assert_eq!(lexer.next_token(), Token::DoubleLBracket);
        assert_eq!(lexer.next_token(), Token::SectionName(s("products")));
        assert_eq!(lexer.next_token(), Token::DoubleRBracket);
        assert_eq!(lexer.next_token(), Token::Newline);
        assert_eq!(lexer.next_token(), Token::Key(s("name")));
        assert_eq!(lexer.next_token(), Token::Whitespace);
        assert_eq!(lexer.next_token(), Token::Equal);
        assert_eq!(lexer.next_token(), Token::Whitespace);
        assert_eq!(lexer.next_token(), Token::Value(Value::String(s(name))));
        assert_eq!(lexer.next_token(), Token::Newline);
        assert_eq!(lexer.next_token(), Token::Key(s("price")));
        assert_eq!(lexer.next_token(), Token::Whitespace);
        assert_eq!(lexer.next_token(), Token::Equal);
        assert_eq!(lexer.next_token(), Token::Whitespace);
    };
    assert_eq!(lexer.next_token(), Token::Key(s("key")));
    assert_eq!(lexer.next_token(), Token::Whitespace);
    assert_eq!(lexer.next_token(), Token::Equal);
    assert_eq!(lexer.next_token(), Token::Whitespace);
    assert_eq!(lexer.next_token(), Token::Value(Value::String(s("array-table-test"))));
    assert_eq!(lexer.next_token(), Token::Newline);
    assert_eq!(lexer.next_token(), Token::Newline);
    before_price(&mut lexer, "Apple");
    assert_float(lexer.next_token(), 1.20);
    assert_eq!(lexer.next_token(), Token::Newline);
    assert_eq!(lexer.next_token(), Token::Newline);
    before_price(&mut lexer, "Banana");
    assert_float(lexer.next_token(), 0.80);
    assert_eq!(lexer.next_token(), Token::Newline);
    assert_eq!(lexer.next_token(), Token::EOF);
}

#[test]
fn test_simple_section_dot_name() {
    let input = r#"name = "section-dot-test"
[retention.config]
key_amount = 123
"#;
    check_tokens(
        input,
        vec![
            Token::Key(s("name")),
            Token::Whitespace,
            Token::Equal,
            Token::Whitespace,
            Token::Value(Value::String(s("section-dot-test"))),
            Token::Newline,
            Token::LBracket,
            Token::SectionName(s("retention.config")),
            Token::RBracket,
            Token::Newline,
            Token::Key(s("key_amount")),
            Token::Whitespace,
            Token::Equal,
            Token::Whitespace,
            Token::Value(Value::Integer(123)),
            Token::Newline,
            Token::EOF,
        ],
    );
}

#[test]
fn test_simple_carriage_returns() {
    let input = "key = 5\r\nhello = \"world\"\r\n";
    let tokens = vec![
        Token::Key(s("key")),
        Token::Whitespace,
        Token::Equal,
        Token::Whitespace,
        Token::Value(Value::Integer(5)),
        Token::Newline,
        Token::Key(s("hello")),
        Token::Whitespace,
        Token::Equal,
        Token::Whitespace,
        Token::Value(Value::String(s("world"))),
        Token::Newline,
        Token::EOF,
    ];
    let mut lexer = Lexer::new(input);
    for expected_token in tokens {
        let token = lexer.next_token();
        println!("{:?}", token);
        assert_eq!(token, expected_token);
    }
}

#[test]
fn test_complex_combined_tokens() {
    let input = r#"# Yalc log rotation config
dry_run = false
mode = "FileSize"

keep_rotate = 7

file_list = ["apple.log", "banana.log", "cherry.log"]

[retention]
file_size_mb = 35
last_write_h = 7
"#;
    let kv = |key: &str, value: Value| {
        vec![
            Token::Key(s(key)),
            Token::Whitespace,
            Token::Equal,
            Token::Whitespace,
            Token::Value(value),
            Token::Newline,
        ]
    };
    let mut tokens = vec![Token::Comment(s(" Yalc log rotation config")), Token::Newline];
    tokens.extend(kv("dry_run", Value::Bool(false)));
    tokens.extend(kv("mode", Value::String(s("FileSize"))));
    tokens.push(Token::Newline);
    tokens.extend(kv("keep_rotate", Value::Integer(7)));
    tokens.push(Token::Newline);
    tokens.extend(vec![
        Token::Key(s("file_list")),
        Token::Whitespace,
        Token::Equal,
        Token::Whitespace,
        Token::LBracket,
        Token::Value(Value::String(s("apple.log"))),
        Token::Comma,
        Token::Whitespace,
        Token::Value(Value::String(s("banana.log"))),
        Token::Comma,
        Token::Whitespace,
        Token::Value(Value::String(s("cherry.log"))),
        Token::RBracket,
        Token::Newline,
        Token::Newline,
        Token::LBracket,
        Token::SectionName(s("retention")),
        Token::RBracket,
        Token::Newline,
    ]);
    tokens.extend(kv("file_size_mb", Value::Integer(35)));
    tokens.extend(kv("last_write_h", Value::Integer(7)));
    tokens.push(Token::EOF);
    check_tokens(input, tokens);
}
