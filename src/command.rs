//! The commands of the command line and how arguments select them.
use vstd::prelude::*;
use crate::text::{lowercase_of, to_lowercase, str_eq};

verus! {

/// A command of the command line.
#[derive(Debug, PartialEq)]
pub enum Command {
    /// Show the available commands.
    Help,
    /// Show the program version.
    Version,
    /// A configuration command, with its one argument.
    Config(ConfigArg),
    /// Run the cleanup, with the overrides given.
    Run(Vec<RunArg>),
}

/// The argument of the configuration command.
#[derive(Debug, Clone, Copy, PartialEq, Eq, Structural)]
pub enum ConfigArg {
    /// Create a configuration file with default values.
    Init,
    /// Check that the configuration file exists and is valid.
    Check,
}

/// An override of a configuration value for one run.
#[derive(Debug, Clone, Copy, PartialEq, Eq, Structural)]
pub enum RunArg {
    /// Set `dry_run`.
    DryRun,
    /// Set `missing_files_ok`.
    MissingFilesOk,
    /// Set `copy_truncate`.
    Truncate,
}

/// Why the arguments select no command.
#[derive(Debug, PartialEq)]
pub enum CommandError {
    /// A run argument that is none of the known ones.
    InvalidRunArgument { arg: String },
    /// A configuration argument that is none of the known ones.
    InvalidConfigArgument { arg: String },
    /// The configuration command takes at most one argument; this many
    /// words were given, the command included.
    ConfigArgumentCount { count: usize },
}

/// The model of a command.
pub enum CommandV {
    Help,
    Version,
    Config(ConfigArg),
    Run(Seq<RunArg>),
}

/// The model of a command error.
pub enum CommandErrorV {
    InvalidRunArgument(Seq<char>),
    InvalidConfigArgument(Seq<char>),
    ConfigArgumentCount(int),
}

impl View for Command {
    type V = CommandV;

    open spec fn view(&self) -> CommandV {
        match self {
            Command::Help => CommandV::Help,
            Command::Version => CommandV::Version,
            Command::Config(a) => CommandV::Config(*a),
            Command::Run(args) => CommandV::Run(args@),
        }
    }
}

impl View for CommandError {
    type V = CommandErrorV;

    open spec fn view(&self) -> CommandErrorV {
        match self {
            CommandError::InvalidRunArgument { arg } => CommandErrorV::InvalidRunArgument(arg@),
            CommandError::InvalidConfigArgument { arg } => CommandErrorV::InvalidConfigArgument(arg@),
            CommandError::ConfigArgumentCount { count } => CommandErrorV::ConfigArgumentCount(*count as int),
        }
    }
}

/// A word of the command line that names a command.
#[derive(Debug, Clone, Copy, PartialEq, Eq, Structural)]
pub enum Keyword {
    Help,
    Version,
    Config,
    Run,
}

/// The command that a lower-case word names.
pub open spec fn keyword_of_lowercase(l: Seq<char>) -> Option<Keyword> {
    if l == "help"@ {
        Some(Keyword::Help)
    } else if l == "version"@ || l == "-v"@ || l == "v"@ {
        Some(Keyword::Version)
    } else if l == "config"@ || l == "-c"@ || l == "c"@ {
        Some(Keyword::Config)
    } else if l == "run"@ {
        Some(Keyword::Run)
    } else {
        None
    }
}

/// The configuration argument that a lower-case word names.
pub open spec fn config_arg_of_lowercase(l: Seq<char>) -> Option<ConfigArg> {
    if l == "init"@ {
        Some(ConfigArg::Init)
    } else if l == "check"@ {
        Some(ConfigArg::Check)
    } else {
        None
    }
}

/// The override that an argument names, in any case.
pub open spec fn run_arg_named(arg: Seq<char>) -> Option<RunArg> {
    run_arg_of_lowercase(lowercase_of(arg))
}

/// The override that a lower-case argument names.
pub open spec fn run_arg_of_lowercase(l: Seq<char>) -> Option<RunArg> {
    if l == "--dry"@ || l == "-d"@ {
        Some(RunArg::DryRun)
    } else if l == "--ignore-miss"@ || l == "-i"@ {
        Some(RunArg::MissingFilesOk)
    } else if l == "--trunc"@ || l == "-t"@ {
        Some(RunArg::Truncate)
    } else {
        None
    }
}

/// The overrides that the arguments name; the first unknown one is refused.
pub open spec fn run_args_of(args: Seq<Seq<char>>) -> Result<Seq<RunArg>, CommandErrorV>
    decreases args.len(),
{
    if args.len() == 0 {
        Ok(Seq::empty())
    } else {
        match run_arg_named(args[0]) {
            None => Err(CommandErrorV::InvalidRunArgument(args[0])),
            Some(a) => match run_args_of(args.drop_first()) {
                Ok(rest) => Ok(seq![a] + rest),
                Err(e) => Err(e),
            },
        }
    }
}

/// The configuration command that the words after the program name select;
/// the first of them is the command itself.
pub open spec fn config_command_of(args: Seq<Seq<char>>) -> Result<CommandV, CommandErrorV> {
    if args.len() == 1 {
        Ok(CommandV::Config(ConfigArg::Check))
    } else if args.len() == 2 {
        match config_arg_of_lowercase(lowercase_of(args[1])) {
            Some(a) => Ok(CommandV::Config(a)),
            None => Err(CommandErrorV::InvalidConfigArgument(args[1])),
        }
    } else {
        Err(CommandErrorV::ConfigArgumentCount(args.len() as int))
    }
}

/// The command that a command line selects; its first word is the program
/// name. Without further words, and for a first word that names no command,
/// the words are run arguments.
pub open spec fn command_of(args: Seq<Seq<char>>) -> Result<CommandV, CommandErrorV> {
    let words = if args.len() > 0 { args.drop_first() } else { args };
    if words.len() == 0 {
        Ok(CommandV::Run(Seq::empty()))
    } else {
        match keyword_of_lowercase(lowercase_of(words[0])) {
            Some(Keyword::Help) => Ok(CommandV::Help),
            Some(Keyword::Version) => Ok(CommandV::Version),
            Some(Keyword::Config) => config_command_of(words),
            k => {
                let run_words = if k == Some(Keyword::Run) { words.drop_first() } else { words };
                match run_args_of(run_words) {
                    Ok(a) => Ok(CommandV::Run(a)),
                    Err(e) => Err(e),
                }
            },
        }
    }
}

pub open spec fn strings_of(v: Seq<String>) -> Seq<Seq<char>> {
    v.map_values(|s: String| s@)
}

/// The command that a lower-case word names.
pub fn keyword_of(l: &str) -> (r: Option<Keyword>)
    ensures
        r == keyword_of_lowercase(l@),
{
    if str_eq(l, "help") {
        Some(Keyword::Help)
    } else if str_eq(l, "version") || str_eq(l, "-v") || str_eq(l, "v") {
        Some(Keyword::Version)
    } else if str_eq(l, "config") || str_eq(l, "-c") || str_eq(l, "c") {
        Some(Keyword::Config)
    } else if str_eq(l, "run") {
        Some(Keyword::Run)
    } else {
        None
    }
}

impl ConfigArg {
    /// The configuration argument that a lower-case word names.
    pub fn from_lowercase(l: &str) -> (r: Option<ConfigArg>)
        ensures
            r == config_arg_of_lowercase(l@),
    {
        if str_eq(l, "init") {
            Some(ConfigArg::Init)
        } else if str_eq(l, "check") {
            Some(ConfigArg::Check)
        } else {
            None
        }
    }
}

impl RunArg {
    /// The override that `arg` names, in any case.
    pub fn from_arg(arg: &str) -> (r: Option<RunArg>)
        ensures
            r == run_arg_named(arg@),
    {
        let l = to_lowercase(arg);
        Self::from_lowercase(l.as_str())
    }

    /// The override that a lower-case argument names.
    pub fn from_lowercase(l: &str) -> (r: Option<RunArg>)
        ensures
            r == run_arg_of_lowercase(l@),
    {
        if str_eq(l, "--dry") || str_eq(l, "-d") {
            Some(RunArg::DryRun)
        } else if str_eq(l, "--ignore-miss") || str_eq(l, "-i") {
            Some(RunArg::MissingFilesOk)
        } else if str_eq(l, "--trunc") || str_eq(l, "-t") {
            Some(RunArg::Truncate)
        } else {
            None
        }
    }
}

impl Command {
    /// The command that a command line selects; arguments that select none
    /// give `Help`.
    pub fn from_args(args: Vec<String>) -> (r: Command)
        ensures
            match command_of(strings_of(args@)) {
                Ok(c) => r@ == c,
                Err(_) => r@ == CommandV::Help,
            },
    {
        match Self::try_from_args(&args) {
            Ok(c) => c,
            Err(_) => Command::Help,
        }
    }

    /// The command that a command line selects, or why it selects none.
    pub fn try_from_args(args: &Vec<String>) -> (r: Result<Command, CommandError>)
        ensures
            match command_of(strings_of(args@)) {
                Ok(c) => r is Ok && r->Ok_0@ == c,
                Err(e) => r is Err && r->Err_0@ == e,
            },
    {
        let ghost all = strings_of(args@);
        if args.len() <= 1 {
            proof {
                assert(all.len() <= 1);
            }
            return Ok(Command::Run(Vec::new()));
        }
        let ghost words = all.drop_first();
        proof {
            assert(words[0] == args@[1]@);
        }
        let first = to_lowercase(args[1].as_str());
        let keyword = keyword_of(first.as_str());
        match keyword {
            Some(Keyword::Help) => Ok(Command::Help),
            Some(Keyword::Version) => Ok(Command::Version),
            Some(Keyword::Config) => Self::parse_config_command(args),
            _ => {
                let from: usize = if keyword == Some(Keyword::Run) { 2 } else { 1 };
                proof {
                    let run_words = if keyword == Some(Keyword::Run) { words.drop_first() } else { words };
                    assert(run_words =~= all.subrange(from as int, all.len() as int));
                }
                match Self::parse_run_args(args, from) {
                    Ok(a) => Ok(Command::Run(a)),
                    Err(e) => Err(e),
                }
            },
        }
    }

    /// The configuration command that `args` (program name, `config` and
    /// what follows) selects.
    fn parse_config_command(args: &Vec<String>) -> (r: Result<Command, CommandError>)
        requires
            args@.len() >= 2,
        ensures
            match config_command_of(strings_of(args@).drop_first()) {
                Ok(c) => r is Ok && r->Ok_0@ == c,
                Err(e) => r is Err && r->Err_0@ == e,
            },
    {
        let ghost words = strings_of(args@).drop_first();
        if args.len() == 2 {
            Ok(Command::Config(ConfigArg::Check))
        } else if args.len() == 3 {
            proof {
                assert(words[1] == args@[2]@);
            }
            let l = to_lowercase(args[2].as_str());
            match ConfigArg::from_lowercase(l.as_str()) {
                Some(a) => Ok(Command::Config(a)),
                None => Err(CommandError::InvalidConfigArgument { arg: args[2].clone() }),
            }
        } else {
            Err(CommandError::ConfigArgumentCount { count: args.len() - 1 })
        }
    }

    /// The overrides that `args[from..]` name.
    fn parse_run_args(args: &Vec<String>, from: usize) -> (r: Result<Vec<RunArg>, CommandError>)
        requires
            from <= args@.len(),
        ensures
            match run_args_of(strings_of(args@).subrange(from as int, args@.len() as int)) {
                Ok(a) => r is Ok && r->Ok_0@ == a,
                Err(e) => r is Err && r->Err_0@ == e,
            },
    {
        let ghost all = strings_of(args@);
        let mut run_args: Vec<RunArg> = Vec::new();
        let mut i = from;
        proof {
            assert(run_args@ + Seq::<RunArg>::empty() =~= run_args@);
        }
        while i < args.len()
            invariant
                from <= i <= args@.len(),
                all == strings_of(args@),
                match run_args_of(all.subrange(from as int, args@.len() as int)) {
                    Ok(a) => run_args_of(all.subrange(i as int, args@.len() as int)) matches Ok(b) && a == run_args@ + b,
                    Err(e) => run_args_of(all.subrange(i as int, args@.len() as int)) == Err::<Seq<RunArg>, CommandErrorV>(e),
                },
                run_args_of(all.subrange(from as int, args@.len() as int)) is Ok
                    || run_args_of(all.subrange(i as int, args@.len() as int)) is Err,
            decreases args@.len() - i,
        {
            let ghost rest = all.subrange(i as int, args@.len() as int);
            proof {
                assert(rest[0] == args@[i as int]@);
                assert(rest.drop_first() =~= all.subrange(i + 1, args@.len() as int));
            }
            match RunArg::from_arg(args[i].as_str()) {
                Some(a) => {
                    proof {
                        if let Ok(b) = run_args_of(rest) {
                            assert(run_args@.push(a) + run_args_of(rest.drop_first())->Ok_0 =~= run_args@ + b);
                        }
                    }
                    run_args.push(a);
                },
                None => {
                    return Err(CommandError::InvalidRunArgument { arg: args[i].clone() });
                },
            }
            i = i + 1;
        }
        proof {
            assert(all.subrange(i as int, args@.len() as int) =~= Seq::<Seq<char>>::empty());
            assert(run_args@ + Seq::<RunArg>::empty() =~= run_args@);
        }
        Ok(run_args)
    }
}

} // verus!
