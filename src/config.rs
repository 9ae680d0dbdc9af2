//! The typed configuration of one cleanup run, and the errors of loading it.
use vstd::prelude::*;
use crate::text::{to_uppercase, str_eq, uppercase_of};
use crate::config::toml_parser::{ParseError, ParseErrorV};

pub mod config_commands;
pub mod config_parser;
pub mod toml_lexer;
pub mod toml_parser;

verus! {

/// The configuration of one cleanup run.
#[derive(Debug)]
pub struct Config {
    /// Report what would be done, and change no file.
    pub dry_run: bool,
    /// Which condition decides that a file needs a cleanup.
    pub mode: CleanUpMode,
    /// How many rotated copies are kept; zero deletes the file instead.
    pub keep_rotate: u64,
    /// A listed file that does not exist counts as a success.
    pub missing_files_ok: bool,
    /// Copy the file and empty it in place instead of renaming it.
    pub copy_truncate: bool,
    /// The paths of the managed files, in the order of processing.
    pub file_list: Vec<String>,
    /// The thresholds of the cleanup conditions.
    pub retention: RetentionConfig,
}

/// Which condition decides that a file needs a cleanup.
#[derive(Debug, Clone, Copy, PartialEq, Eq, Structural)]
pub enum CleanUpMode {
    /// The file size exceeds `retention.file_size_mb`.
    FileSize,
    /// The last write is older than `retention.last_write_h` hours.
    LastWrite,
    /// Either condition (OR combination).
    All,
}

/// A mode name that is none of the known ones.
#[derive(Debug, PartialEq)]
pub struct ParseCleanUpModeError {
    invalid_value: String,
}

/// The thresholds of the cleanup conditions.
#[derive(Debug, Clone, Copy, PartialEq, Eq, Structural)]
pub struct RetentionConfig {
    /// Size in MiB that a file must exceed.
    pub file_size_mb: u64,
    /// Hours since the last write that must be exceeded.
    pub last_write_h: u64,
}

/// The model of a configuration.
pub struct ConfigV {
    pub dry_run: bool,
    pub mode: CleanUpMode,
    pub keep_rotate: u64,
    pub missing_files_ok: bool,
    pub copy_truncate: bool,
    pub file_list: Seq<Seq<char>>,
    pub retention: RetentionConfig,
}

impl View for Config {
    type V = ConfigV;

    open spec fn view(&self) -> ConfigV {
        ConfigV {
            dry_run: self.dry_run,
            mode: self.mode,
            keep_rotate: self.keep_rotate,
            missing_files_ok: self.missing_files_ok,
            copy_truncate: self.copy_truncate,
            file_list: self.file_list@.map_values(|s: String| s@),
            retention: self.retention,
        }
    }
}

/// The mode that an upper-case name denotes.
pub open spec fn mode_named(u: Seq<char>) -> Option<CleanUpMode> {
    if u == "FILESIZE"@ {
        Some(CleanUpMode::FileSize)
    } else if u == "LASTWRITE"@ {
        Some(CleanUpMode::LastWrite)
    } else if u == "ALL"@ {
        Some(CleanUpMode::All)
    } else {
        None
    }
}

impl ParseCleanUpModeError {
    /// The name that was refused.
    pub fn invalid_value(&self) -> (r: &String)
        ensures
            r@ == self.value(),
    {
        &self.invalid_value
    }

    pub closed spec fn value(&self) -> Seq<char> {
        self.invalid_value@
    }
}

impl CleanUpMode {
    /// The mode that `s` names, in any case: `FileSize`, `LastWrite` or `All`.
    pub fn from_str(s: &str) -> (r: Result<CleanUpMode, ParseCleanUpModeError>)
        ensures
            match mode_named(uppercase_of(s@)) {
                Some(m) => r == Ok::<CleanUpMode, ParseCleanUpModeError>(m),
                None => r is Err && r->Err_0.value() == s@,
            },
    {
        let upper = to_uppercase(s);
        match Self::from_uppercase(upper.as_str()) {
            Some(m) => Ok(m),
            None => Err(ParseCleanUpModeError { invalid_value: String::from_str(s) }),
        }
    }

    /// The mode that an upper-case name denotes: `FILESIZE`, `LASTWRITE` or `ALL`.
    pub fn from_uppercase(u: &str) -> (r: Option<CleanUpMode>)
        ensures
            r == mode_named(u@),
    {
        if str_eq(u, "FILESIZE") {
            Some(CleanUpMode::FileSize)
        } else if str_eq(u, "LASTWRITE") {
            Some(CleanUpMode::LastWrite)
        } else if str_eq(u, "ALL") {
            Some(CleanUpMode::All)
        } else {
            None
        }
    }
}

/// The broad class of an error.
#[derive(Debug, Clone, Copy, PartialEq, Eq, Structural)]
pub enum ErrorKind {
    /// Something required is not there.
    NotFound,
    /// A value has the wrong kind or range, or the text is malformed.
    InvalidData,
    /// The input ended where more was required.
    UnexpectedEof,
    /// An argument or a path is not acceptable.
    InvalidInput,
    /// Something to be created exists already.
    AlreadyExists,
    /// The file system refused an operation.
    Other,
}

/// The kind of value that a configuration key requires.
#[derive(Debug, Clone, Copy, PartialEq, Eq, Structural)]
pub enum ValueKind {
    Bool,
    UnsignedInteger,
    String,
    StringList,
}

/// Why a configuration could not be loaded.
#[derive(Debug, PartialEq)]
pub enum ConfigError {
    /// The text could not be lexed or built into a table tree.
    Parse(ParseError),
    /// A required key is missing, or a part of its path is not a table.
    MissingKey { key: String },
    /// A key holds a value of another kind.
    WrongType { key: String, expected: ValueKind },
    /// An unsigned key holds a negative integer.
    Negative { key: String },
    /// An unsigned key holds an integer beyond the largest allowed value.
    TooLarge { key: String },
    /// The mode names none of the known modes.
    InvalidMode { value: String },
}

/// The model of a configuration error.
pub enum ConfigErrorV {
    Parse(ParseErrorV),
    MissingKey(Seq<char>),
    WrongType(Seq<char>, ValueKind),
    Negative(Seq<char>),
    TooLarge(Seq<char>),
    InvalidMode(Seq<char>),
}

impl View for ConfigError {
    type V = ConfigErrorV;

    open spec fn view(&self) -> ConfigErrorV {
        match self {
            ConfigError::Parse(e) => ConfigErrorV::Parse(e@),
            ConfigError::MissingKey { key } => ConfigErrorV::MissingKey(key@),
            ConfigError::WrongType { key, expected } => ConfigErrorV::WrongType(key@, *expected),
            ConfigError::Negative { key } => ConfigErrorV::Negative(key@),
            ConfigError::TooLarge { key } => ConfigErrorV::TooLarge(key@),
            ConfigError::InvalidMode { value } => ConfigErrorV::InvalidMode(value@),
        }
    }
}

/// The class of a parse error.
pub open spec fn parse_error_kind(e: ParseErrorV) -> ErrorKind {
    match e {
        ParseErrorV::UnexpectedEnd(_) => ErrorKind::UnexpectedEof,
        _ => ErrorKind::InvalidData,
    }
}

/// The class of a configuration error.
pub open spec fn config_error_kind(e: ConfigErrorV) -> ErrorKind {
    match e {
        ConfigErrorV::Parse(p) => parse_error_kind(p),
        ConfigErrorV::MissingKey(_) => ErrorKind::NotFound,
        _ => ErrorKind::InvalidData,
    }
}

impl ParseError {
    /// The class of this error.
    pub fn kind(&self) -> (r: ErrorKind)
        ensures
            r == parse_error_kind(self@),
    {
        match self {
            ParseError::UnexpectedEnd { .. } => ErrorKind::UnexpectedEof,
            _ => ErrorKind::InvalidData,
        }
    }
}

impl ConfigError {
    /// The class of this error.
    pub fn kind(&self) -> (r: ErrorKind)
        ensures
            r == config_error_kind(self@),
    {
        match self {
            ConfigError::Parse(p) => p.kind(),
            ConfigError::MissingKey { .. } => ErrorKind::NotFound,
            _ => ErrorKind::InvalidData,
        }
    }
}

} // verus!
