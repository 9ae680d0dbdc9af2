use yalc::config::config_parser::{get_bool, get_uint};
use yalc::config::toml_parser::{Table, TopLevelTable, Value};

#[test]
fn test_get_bool() {
    let mut root: TopLevelTable = Table::new();
    root.insert("dry_run".to_string(), Value::Bool(true)).unwrap();
    root.insert("other_key".to_string(), Value::Bool(false)).unwrap();

    assert_eq!(get_bool(&root, "dry_run").unwrap(), true);
    assert_eq!(get_bool(&root, "other_key").unwrap(), false);
}

#[test]
fn test_get_uint() {
    let mut root: TopLevelTable = Table::new();
    root.insert("my_value".to_string(), Value::Integer(1234)).unwrap();

    let my_value: u64 = get_uint(&root, "my_value", u64::MAX).unwrap();
    assert_eq!(my_value, 1234);

    //The value 1234 will not fit, range of u8 is [0, 255]
    let too_small = get_uint(&root, "my_value", u8::MAX as u64);
    assert!(too_small.is_err());
}

#[test]
fn config_parser_test_sub_tables() {
    let mut root: TopLevelTable = Table::new();
    root.insert("dry_run".to_string(), Value::Bool(false)).unwrap();

    let mut config_table = Table::new();
    config_table.insert("val_a".to_string(), Value::Integer(1)).unwrap();
    config_table.insert("val_b".to_string(), Value::Integer(2)).unwrap();

    let mut servers_table = Table::new();
    servers_table.insert("total".to_string(), Value::Integer(12)).unwrap();
    servers_table.insert("healthy".to_string(), Value::Integer(5)).unwrap();
    servers_table.insert("config".to_string(), Value::Table(config_table)).unwrap();

    root.insert("servers".to_string(), Value::Table(servers_table)).unwrap();

    assert_eq!(get_bool(&root, "dry_run").unwrap(), false);
    assert_eq!(get_uint(&root, "servers.total", u64::MAX).unwrap(), 12);
    assert_eq!(get_uint(&root, "servers.healthy", u64::MAX).unwrap(), 5);
    assert_eq!(get_uint(&root, "servers.config.val_a", u64::MAX).unwrap(), 1);
    assert_eq!(get_uint(&root, "servers.config.val_b", u64::MAX).unwrap(), 2);

    //Make a lookup where the final value is only a table
    let only_table = get_uint(&root, "servers.config", u8::MAX as u64);
    assert!(only_table.is_err());
}
