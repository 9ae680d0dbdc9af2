//! Loading the configuration and applying the overrides of one run.
use vstd::prelude::*;
use crate::command::{RunArg, run_arg_named};
use crate::config::{Config, ConfigV, ConfigError};
use crate::config::toml_parser::{self, config_of_text};

verus! {

/// The configuration that the text of a configuration file holds.
pub fn load_config(content: &str) -> (r: Result<Config, ConfigError>)
    ensures
        match config_of_text(content@) {
            Ok(c) => r is Ok && r->Ok_0@ == c,
            Err(e) => r is Err && r->Err_0@ == e,
        },
{
    toml_parser::load_config(content)
}

/// `c` with each override in `args` set.
pub open spec fn with_overrides(c: ConfigV, args: Seq<RunArg>) -> ConfigV {
    ConfigV {
        dry_run: c.dry_run || args.contains(RunArg::DryRun),
        missing_files_ok: c.missing_files_ok || args.contains(RunArg::MissingFilesOk),
        copy_truncate: c.copy_truncate || args.contains(RunArg::Truncate),
        ..c
    }
}

/// The overrides that the words name; unknown words are passed over.
pub open spec fn overrides_named(args: Seq<Seq<char>>) -> Seq<RunArg>
    decreases args.len(),
{
    if args.len() == 0 {
        Seq::empty()
    } else {
        let rest = overrides_named(args.drop_last());
        match run_arg_named(args.last()) {
            Some(a) => rest.push(a),
            None => rest,
        }
    }
}

/// The configuration with the overrides of one run set.
pub fn apply_run_args(config: Config, run_args: &Vec<RunArg>) -> (r: Config)
    ensures
        r@ == with_overrides(config@, run_args@),
{
    let mut dry_run = config.dry_run;
    let mut missing_files_ok = config.missing_files_ok;
    let mut copy_truncate = config.copy_truncate;
    let mut i: usize = 0;
    while i < run_args.len()
        invariant
            i <= run_args@.len(),
            dry_run == (config.dry_run || run_args@.subrange(0, i as int).contains(RunArg::DryRun)),
            missing_files_ok == (config.missing_files_ok || run_args@.subrange(0, i as int).contains(RunArg::MissingFilesOk)),
            copy_truncate == (config.copy_truncate || run_args@.subrange(0, i as int).contains(RunArg::Truncate)),
        decreases run_args@.len() - i,
    {
        let ghost before = run_args@.subrange(0, i as int);
        let ghost after = run_args@.subrange(0, i + 1);
        proof {
            assert(after =~= before.push(run_args@[i as int]));
            assert(after[i as int] == run_args@[i as int]);
            assert(forall|x: RunArg| before.contains(x) ==> after.contains(x)) by {
                assert forall|x: RunArg| before.contains(x) implies after.contains(x) by {
                    let k = choose|k: int| 0 <= k < before.len() && before[k] == x;
                    assert(after[k] == x);
                }
            }
            assert(forall|x: RunArg| after.contains(x) ==> before.contains(x) || x == run_args@[i as int]) by {
                assert forall|x: RunArg| after.contains(x) implies before.contains(x) || x == run_args@[i as int] by {
                    let k = choose|k: int| 0 <= k < after.len() && after[k] == x;
                    if k < i {
                        assert(before[k] == x);
                    }
                }
            }
        }
        match run_args[i] {
            RunArg::DryRun => {
                dry_run = true;
            },
            RunArg::MissingFilesOk => {
                missing_files_ok = true;
            },
            RunArg::Truncate => {
                copy_truncate = true;
            },
        }
        i = i + 1;
    }
    proof {
        assert(run_args@.subrange(0, i as int) =~= run_args@);
    }
    Config {
        dry_run,
        mode: config.mode,
        keep_rotate: config.keep_rotate,
        missing_files_ok,
        copy_truncate,
        file_list: config.file_list,
        retention: config.retention,
    }
}

/// The configuration with the overrides that the command-line words name
/// set (`--dry`/`-d`, `--ignore-miss`/`-i`, `--trunc`/`-t`, in any case);
/// other words are passed over.
pub fn adjust_runner_config(config: Config, run_args: &Vec<String>) -> (r: Config)
    ensures
        r@ == with_overrides(config@, overrides_named(run_args@.map_values(|s: String| s@))),
{
    let mut known: Vec<RunArg> = Vec::new();
    let mut i: usize = 0;
    while i < run_args.len()
        invariant
            i <= run_args@.len(),
            known@ == overrides_named(run_args@.map_values(|s: String| s@).subrange(0, i as int)),
        decreases run_args@.len() - i,
    {
        proof {
            let words = run_args@.map_values(|s: String| s@);
            assert(words.subrange(0, i + 1).drop_last() =~= words.subrange(0, i as int));
            assert(words.subrange(0, i + 1).last() == run_args@[i as int]@);
        }
        if let Some(a) = RunArg::from_arg(run_args[i].as_str()) {
            known.push(a);
        }
        i = i + 1;
    }
    proof {
        let words = run_args@.map_values(|s: String| s@);
        assert(words.subrange(0, i as int) =~= words);
    }
    apply_run_args(config, &known)
}

} // verus!
