use yalc::cleaner::{
    decide_file, needs_age_check, needs_cleanup, rotation_plan, slot_path, FileDecision, FileOp, FileState,
    RunReport, Slot, TaskError, TaskOutcome,
};
use yalc::config::{CleanUpMode, Config, RetentionConfig};

const MB: u64 = 1024 * 1024;
const HOUR_NANOS: u128 = 3600 * 1_000_000_000;

fn retention() -> RetentionConfig {
    RetentionConfig { file_size_mb: 1, last_write_h: 1 }
}

fn config(dry_run: bool, missing_files_ok: bool) -> Config {
    Config {
        dry_run,
        mode: CleanUpMode::All,
        keep_rotate: 3,
        missing_files_ok,
        copy_truncate: false,
        file_list: vec!["/var/log/a.log".to_string()],
        retention: retention(),
    }
}

#[test]
fn all_mode_is_size_or_age() {
    let r = retention();
    assert!(needs_cleanup(CleanUpMode::All, &r, 2 * MB, None));
    assert!(needs_cleanup(CleanUpMode::All, &r, 10, Some(2 * HOUR_NANOS)));
    assert!(!needs_cleanup(CleanUpMode::All, &r, 10, Some(HOUR_NANOS / 2)));
    assert!(!needs_cleanup(CleanUpMode::All, &r, 10, None));
}

#[test]
fn age_is_not_read_once_size_triggers() {
    let r = retention();
    assert!(!needs_age_check(CleanUpMode::All, &r, 2 * MB));
    assert!(needs_age_check(CleanUpMode::All, &r, 10));
    assert!(needs_age_check(CleanUpMode::LastWrite, &r, 2 * MB));
    assert!(!needs_age_check(CleanUpMode::FileSize, &r, 10));
}

#[test]
fn thresholds_must_be_exceeded_strictly() {
    let r = retention();
    assert!(!needs_cleanup(CleanUpMode::FileSize, &r, MB, None));
    assert!(needs_cleanup(CleanUpMode::FileSize, &r, MB + 1, None));
    assert!(!needs_cleanup(CleanUpMode::LastWrite, &r, 0, Some(HOUR_NANOS)));
    assert!(needs_cleanup(CleanUpMode::LastWrite, &r, 0, Some(HOUR_NANOS + 1)));
    assert!(!needs_cleanup(CleanUpMode::FileSize, &r, 10, Some(10 * HOUR_NANOS)));
    assert!(!needs_cleanup(CleanUpMode::LastWrite, &r, 10 * MB, None));
}

#[test]
fn largest_thresholds_do_not_overflow() {
    let r = RetentionConfig { file_size_mb: u64::MAX, last_write_h: u64::MAX };
    assert!(!needs_cleanup(CleanUpMode::All, &r, u64::MAX, Some(u64::MAX as u128)));
    assert!(needs_cleanup(CleanUpMode::All, &r, u64::MAX, Some(u128::MAX)));
}

#[test]
fn rotation_keep_three_shifts_down_from_the_top() {
    let plan = rotation_plan(3, false, &vec![true, true]);
    assert_eq!(
        plan,
        vec![
            FileOp::Rename(Slot::Rotated(1), Slot::Rotated(2)),
            FileOp::Rename(Slot::Rotated(0), Slot::Rotated(1)),
            FileOp::Rename(Slot::Live, Slot::Rotated(0)),
        ]
    );
}

#[test]
fn rotation_skips_missing_copies() {
    let plan = rotation_plan(3, false, &vec![true, false]);
    assert_eq!(
        plan,
        vec![FileOp::Rename(Slot::Rotated(0), Slot::Rotated(1)), FileOp::Rename(Slot::Live, Slot::Rotated(0))]
    );
}

#[test]
fn keep_zero_only_deletes() {
    assert_eq!(rotation_plan(0, false, &vec![]), vec![FileOp::Remove(Slot::Live)]);
    assert_eq!(rotation_plan(0, true, &vec![]), vec![FileOp::Remove(Slot::Live)]);
}

#[test]
fn copy_truncate_copies_then_empties() {
    assert_eq!(
        rotation_plan(2, true, &vec![true]),
        vec![
            FileOp::Rename(Slot::Rotated(0), Slot::Rotated(1)),
            FileOp::Copy(Slot::Live, Slot::Rotated(0)),
            FileOp::Truncate(Slot::Live),
        ]
    );
    assert_eq!(
        rotation_plan(1, true, &vec![]),
        vec![FileOp::Copy(Slot::Live, Slot::Rotated(0)), FileOp::Truncate(Slot::Live)]
    );
}

#[test]
fn missing_file_decisions() {
    assert_eq!(decide_file(&config(false, true), FileState::Missing), FileDecision::Succeeded(TaskOutcome::MissingSkipped));
    assert_eq!(decide_file(&config(false, false), FileState::Missing), FileDecision::Failed(TaskError::NotFound));
    assert_eq!(decide_file(&config(false, true), FileState::NotAFile), FileDecision::Failed(TaskError::NotAFile));
}

#[test]
fn dry_run_changes_nothing() {
    let big = FileState::File { size: 5 * MB, age_nanos: None };
    assert_eq!(decide_file(&config(true, false), big), FileDecision::Succeeded(TaskOutcome::DryRun));
    assert_eq!(decide_file(&config(false, false), big), FileDecision::Cleanup);
    let small = FileState::File { size: 5, age_nanos: None };
    assert_eq!(decide_file(&config(true, false), small), FileDecision::Succeeded(TaskOutcome::NoAction));
}

#[test]
fn report_counts_and_rates() {
    let mut report = RunReport::new();
    assert_eq!(report.success_rate(), 0);
    assert_eq!(report.failure_rate(), 0);
    report.record(true);
    report.record(false);
    report.record(true);
    assert_eq!(report.executed, 3);
    assert_eq!(report.succeeded, 2);
    assert_eq!(report.failed, 1);
    assert_eq!(report.success_rate(), 66);
    assert_eq!(report.failure_rate(), 33);
}

#[test]
fn rotated_paths() {
    assert_eq!(slot_path("/var/log/app.log", Slot::Live), "/var/log/app.log");
    assert_eq!(slot_path("/var/log/app.log", Slot::Rotated(0)), "/var/log/app.log.0");
    assert_eq!(slot_path("/var/log/app.log", Slot::Rotated(12)), "/var/log/app.log.12");
    assert_eq!(slot_path("a", Slot::Rotated(u64::MAX)), format!("a.{}", u64::MAX));
}
