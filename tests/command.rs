use yalc::command::{keyword_of, Command, CommandError, ConfigArg, Keyword, RunArg};

fn args(words: &[&str]) -> Vec<String> {
    words.iter().map(|w| w.to_string()).collect()
}

#[test]
fn no_arguments_run_without_overrides() {
    assert_eq!(Command::from_args(args(&["yalc"])), Command::Run(vec![]));
}

#[test]
fn named_commands() {
    assert_eq!(Command::from_args(args(&["yalc", "help"])), Command::Help);
    assert_eq!(Command::from_args(args(&["yalc", "VERSION"])), Command::Version);
    assert_eq!(Command::from_args(args(&["yalc", "-v"])), Command::Version);
    assert_eq!(Command::from_args(args(&["yalc", "config"])), Command::Config(ConfigArg::Check));
    assert_eq!(Command::from_args(args(&["yalc", "c", "Init"])), Command::Config(ConfigArg::Init));
}

#[test]
fn run_arguments() {
    assert_eq!(
        Command::from_args(args(&["yalc", "run", "--DRY", "-i"])),
        Command::Run(vec![RunArg::DryRun, RunArg::MissingFilesOk])
    );
    assert_eq!(Command::from_args(args(&["yalc", "-t"])), Command::Run(vec![RunArg::Truncate]));
}

#[test]
fn invalid_arguments_give_help() {
    assert_eq!(Command::from_args(args(&["yalc", "run", "--bogus"])), Command::Help);
    assert_eq!(
        Command::try_from_args(&args(&["yalc", "--bogus"])),
        Err(CommandError::InvalidRunArgument { arg: "--bogus".to_string() })
    );
    assert_eq!(
        Command::try_from_args(&args(&["yalc", "config", "drop"])),
        Err(CommandError::InvalidConfigArgument { arg: "drop".to_string() })
    );
    assert_eq!(
        Command::try_from_args(&args(&["yalc", "config", "init", "now"])),
        Err(CommandError::ConfigArgumentCount { count: 3 })
    );
}

#[test]
fn run_arg_names_ignore_case() {
    assert_eq!(RunArg::from_arg("--Ignore-Miss"), Some(RunArg::MissingFilesOk));
    assert_eq!(RunArg::from_arg("-T"), Some(RunArg::Truncate));
    assert_eq!(RunArg::from_arg("--dryrun"), None);
}

#[test]
fn lower_case_words() {
    assert_eq!(keyword_of("help"), Some(Keyword::Help));
    assert_eq!(keyword_of("v"), Some(Keyword::Version));
    assert_eq!(keyword_of("-c"), Some(Keyword::Config));
    assert_eq!(keyword_of("run"), Some(Keyword::Run));
    assert_eq!(keyword_of("HELP"), None);
    assert_eq!(ConfigArg::from_lowercase("init"), Some(ConfigArg::Init));
    assert_eq!(ConfigArg::from_lowercase("check"), Some(ConfigArg::Check));
    assert_eq!(ConfigArg::from_lowercase("Init"), None);
    assert_eq!(RunArg::from_lowercase("--ignore-miss"), Some(RunArg::MissingFilesOk));
    assert_eq!(RunArg::from_lowercase("-D"), None);
}
