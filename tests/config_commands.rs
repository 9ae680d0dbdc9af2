use yalc::config::config_commands::adjust_runner_config;
use yalc::config::{CleanUpMode, Config, RetentionConfig};

#[test]
fn test_adjust_runner_config() {
    let raw_config: Config = Config {
        dry_run: false,
        mode: CleanUpMode::FileSize,
        keep_rotate: 3,
        missing_files_ok: false,
        copy_truncate: false,
        file_list: vec!["/var/log/my_app.log".to_string()],
        retention: RetentionConfig { file_size_mb: 50, last_write_h: 168 },
    };

    let args: Vec<String> = vec!["-d".to_string(), "-t".to_string()];
    let adjusted_config = adjust_runner_config(raw_config, &args);

    assert_eq!(adjusted_config.dry_run, true);
    assert_eq!(adjusted_config.missing_files_ok, false);
    assert_eq!(adjusted_config.copy_truncate, true);
}
