//! Reads the typed configuration out of a table tree.
//!
//! Keys are looked up by dotted paths (`retention.file_size_mb`). Each
//! required key is read explicitly and must hold a value of its kind: there
//! are no defaults.
use vstd::prelude::*;
use crate::config::{Config, ConfigV, CleanUpMode, ConfigError, ConfigErrorV, RetentionConfig, ValueKind, mode_named};
use crate::config::toml_parser::{Table, TableV, TomlV, TopLevelTable, Value, parse_section_keys, split_dots,
    strings_view, lemma_table_value, lemma_array_value, lemma_array_len, array_view};
use crate::text::uppercase_of;

verus! {

/// The value that the path `keys` reaches from `t`: every part but the
/// last must name a table.
pub open spec fn lookup(t: TableV, keys: Seq<Seq<char>>) -> Option<TomlV>
    decreases keys.len(),
{
    if keys.len() == 0 || !t.contains_key(keys[0]) {
        None
    } else if keys.len() == 1 {
        Some(t[keys[0]])
    } else {
        match t[keys[0]] {
            TomlV::Tbl(m) => lookup(m, keys.drop_first()),
            _ => None,
        }
    }
}

/// The value at the dotted path `key`.
pub open spec fn value_at(root: TableV, key: Seq<char>) -> Option<TomlV> {
    lookup(root, split_dots(key))
}

pub open spec fn bool_at(root: TableV, key: Seq<char>) -> Result<bool, ConfigErrorV> {
    match value_at(root, key) {
        None => Err(ConfigErrorV::MissingKey(key)),
        Some(TomlV::Bool(b)) => Ok(b),
        Some(_) => Err(ConfigErrorV::WrongType(key, ValueKind::Bool)),
    }
}

pub open spec fn uint_at(root: TableV, key: Seq<char>, max: u64) -> Result<u64, ConfigErrorV> {
    match value_at(root, key) {
        None => Err(ConfigErrorV::MissingKey(key)),
        Some(TomlV::Int(i)) => if i < 0 {
            Err(ConfigErrorV::Negative(key))
        } else if i > max {
            Err(ConfigErrorV::TooLarge(key))
        } else {
            Ok(i as u64)
        },
        Some(_) => Err(ConfigErrorV::WrongType(key, ValueKind::UnsignedInteger)),
    }
}

pub open spec fn string_at(root: TableV, key: Seq<char>) -> Result<Seq<char>, ConfigErrorV> {
    match value_at(root, key) {
        None => Err(ConfigErrorV::MissingKey(key)),
        Some(TomlV::Str(s)) => Ok(s),
        Some(_) => Err(ConfigErrorV::WrongType(key, ValueKind::String)),
    }
}

pub open spec fn all_strings(a: Seq<TomlV>) -> bool {
    forall|i: int| 0 <= i < a.len() ==> (#[trigger] a[i]) is Str
}

pub open spec fn string_list_at(root: TableV, key: Seq<char>) -> Result<Seq<Seq<char>>, ConfigErrorV> {
    match value_at(root, key) {
        None => Err(ConfigErrorV::MissingKey(key)),
        Some(TomlV::Arr(a)) => if all_strings(a) {
            Ok(a.map_values(|x: TomlV| x->Str_0))
        } else {
            Err(ConfigErrorV::WrongType(key, ValueKind::StringList))
        },
        Some(_) => Err(ConfigErrorV::WrongType(key, ValueKind::StringList)),
    }
}

/// The mode named at `key`, in any case.
pub open spec fn mode_at(root: TableV, key: Seq<char>) -> Result<CleanUpMode, ConfigErrorV> {
    match string_at(root, key) {
        Err(e) => Err(e),
        Ok(s) => match mode_named(uppercase_of(s)) {
            Some(m) => Ok(m),
            None => Err(ConfigErrorV::InvalidMode(s)),
        },
    }
}

/// The configuration that a table tree holds: the required keys are read in
/// this order, and the first that fails gives the error.
pub open spec fn config_of(root: TableV) -> Result<ConfigV, ConfigErrorV> {
    let dry_run = bool_at(root, "dry_run"@);
    let mode = mode_at(root, "mode"@);
    let keep_rotate = uint_at(root, "keep_rotate"@, u64::MAX);
    let missing_files_ok = bool_at(root, "missing_files_ok"@);
    let copy_truncate = bool_at(root, "copy_truncate"@);
    let file_list = string_list_at(root, "file_list"@);
    let file_size_mb = uint_at(root, "retention.file_size_mb"@, u64::MAX);
    let last_write_h = uint_at(root, "retention.last_write_h"@, u64::MAX);
    if dry_run is Err {
        Err(dry_run->Err_0)
    } else if mode is Err {
        Err(mode->Err_0)
    } else if keep_rotate is Err {
        Err(keep_rotate->Err_0)
    } else if missing_files_ok is Err {
        Err(missing_files_ok->Err_0)
    } else if copy_truncate is Err {
        Err(copy_truncate->Err_0)
    } else if file_list is Err {
        Err(file_list->Err_0)
    } else if file_size_mb is Err {
        Err(file_size_mb->Err_0)
    } else if last_write_h is Err {
        Err(last_write_h->Err_0)
    } else {
        Ok(ConfigV {
            dry_run: dry_run->Ok_0,
            mode: mode->Ok_0,
            keep_rotate: keep_rotate->Ok_0,
            missing_files_ok: missing_files_ok->Ok_0,
            copy_truncate: copy_truncate->Ok_0,
            file_list: file_list->Ok_0,
            retention: RetentionConfig {
                file_size_mb: file_size_mb->Ok_0,
                last_write_h: last_write_h->Ok_0,
            },
        })
    }
}

/// The value at the dotted path `key` of `root`.
pub fn get_value<'a>(root: &'a TopLevelTable, key: &str) -> (r: Result<&'a Value, ConfigError>)
    ensures
        match value_at(root@, key@) {
            Some(v) => r is Ok && r->Ok_0@ == v,
            None => r is Err && r->Err_0@ == ConfigErrorV::MissingKey(key@),
        },
{
    let keys = parse_section_keys(&String::from_str(key));
    let ghost ks = strings_view(keys@);
    let mut current: &Table = root;
    let mut i: usize = 0;
    proof {
        assert(ks.subrange(0, ks.len() as int) =~= ks);
    }
    loop
        invariant
            ks == strings_view(keys@),
            ks == split_dots(key@),
            ks.len() > 0,
            i < ks.len(),
            lookup(current@, ks.subrange(i as int, ks.len() as int)) == value_at(root@, key@),
        decreases ks.len() - i,
    {
        let ghost rest = ks.subrange(i as int, ks.len() as int);
        proof {
            assert(rest[0] == keys@[i as int]@);
        }
        match current.get(keys[i].as_str()) {
            None => {
                return Err(ConfigError::MissingKey { key: String::from_str(key) });
            },
            Some(v) => {
                if i + 1 == keys.len() {
                    return Ok(v);
                }
                match v {
                    Value::Table(inner) => {
                        proof {
                            lemma_table_value(*inner);
                            assert(rest.drop_first() =~= ks.subrange(i + 1, ks.len() as int));
                        }
                        current = inner;
                        i = i + 1;
                    },
                    _ => {
                        return Err(ConfigError::MissingKey { key: String::from_str(key) });
                    },
                }
            },
        }
    }
}

/// The boolean at `key`.
pub fn get_bool(root: &TopLevelTable, key: &str) -> (r: Result<bool, ConfigError>)
    ensures
        match bool_at(root@, key@) {
            Ok(b) => r == Ok::<bool, ConfigError>(b),
            Err(e) => r is Err && r->Err_0@ == e,
        },
{
    match get_value(root, key) {
        Ok(Value::Bool(b)) => Ok(*b),
        Ok(_) => Err(ConfigError::WrongType { key: String::from_str(key), expected: ValueKind::Bool }),
        Err(e) => Err(e),
    }
}

/// The unsigned integer at `key`, which must not exceed `max`.
pub fn get_uint(root: &TopLevelTable, key: &str, max: u64) -> (r: Result<u64, ConfigError>)
    ensures
        match uint_at(root@, key@, max) {
            Ok(n) => r == Ok::<u64, ConfigError>(n),
            Err(e) => r is Err && r->Err_0@ == e,
        },
{
    match get_value(root, key) {
        Ok(Value::Integer(i)) => {
            if *i < 0 {
                Err(ConfigError::Negative { key: String::from_str(key) })
            } else if *i as u64 > max {
                Err(ConfigError::TooLarge { key: String::from_str(key) })
            } else {
                Ok(*i as u64)
            }
        },
        Ok(_) => Err(ConfigError::WrongType { key: String::from_str(key), expected: ValueKind::UnsignedInteger }),
        Err(e) => Err(e),
    }
}

/// The string at `key`.
pub fn get_string(root: &TopLevelTable, key: &str) -> (r: Result<String, ConfigError>)
    ensures
        match string_at(root@, key@) {
            Ok(s) => r is Ok && r->Ok_0@ == s,
            Err(e) => r is Err && r->Err_0@ == e,
        },
{
    match get_value(root, key) {
        Ok(Value::String(s)) => Ok(s.clone()),
        Ok(_) => Err(ConfigError::WrongType { key: String::from_str(key), expected: ValueKind::String }),
        Err(e) => Err(e),
    }
}

/// The list of strings at `key`.
pub fn get_string_list(root: &TopLevelTable, key: &str) -> (r: Result<Vec<String>, ConfigError>)
    ensures
        match string_list_at(root@, key@) {
            Ok(l) => r is Ok && r->Ok_0@.map_values(|s: String| s@) == l,
            Err(e) => r is Err && r->Err_0@ == e,
        },
{
    let items = match get_value(root, key) {
        Ok(Value::Array(items)) => items,
        Ok(_) => {
            return Err(ConfigError::WrongType { key: String::from_str(key), expected: ValueKind::StringList });
        },
        Err(e) => {
            return Err(e);
        },
    };
    proof {
        lemma_array_value(*items);
        lemma_array_len(items@);
    }
    let ghost a = value_at(root@, key@)->Some_0->Arr_0;
    proof {
        assert(value_at(root@, key@) == Some(TomlV::Arr(a)));
        assert(a == array_view(items@));
    }
    let mut out: Vec<String> = Vec::new();
    let mut i: usize = 0;
    while i < items.len()
        invariant
            i <= items@.len(),
            value_at(root@, key@) == Some(TomlV::Arr(a)),
            a.len() == items@.len(),
            forall|j: int| 0 <= j < items@.len() ==> a[j] == (#[trigger] items@[j])@,
            out@.len() == i,
            forall|j: int| 0 <= j < i ==> (#[trigger] a[j]) is Str,
            forall|j: int| 0 <= j < i ==> (#[trigger] out@[j])@ == a[j]->Str_0,
        decreases items@.len() - i,
    {
        proof {
            assert(a[i as int] == items@[i as int]@);
        }
        match &items[i] {
            Value::String(s) => {
                let c = s.clone();
                let ghost before = out@;
                out.push(c);
                proof {
                    assert forall|j: int| 0 <= j <= i implies (#[trigger] out@[j])@ == a[j]->Str_0 by {
                        if j < i {
                            assert(out@[j] == before[j]);
                        }
                    }
                }
            },
            _ => {
                proof {
                    assert(!(a[i as int] is Str));
                    assert(!all_strings(a));
                }
                return Err(ConfigError::WrongType { key: String::from_str(key), expected: ValueKind::StringList });
            },
        }
        i = i + 1;
    }
    proof {
        assert forall|j: int| 0 <= j < a.len() implies (#[trigger] a[j]) is Str by {
            assert((out@[j])@ == a[j]->Str_0);
        }
        assert(all_strings(a));
        assert(out@.map_values(|s: String| s@) =~= a.map_values(|x: TomlV| x->Str_0));
    }
    Ok(out)
}

/// The configuration that a table tree holds.
pub fn parse_config(root: &TopLevelTable) -> (r: Result<Config, ConfigError>)
    ensures
        match config_of(root@) {
            Ok(c) => r is Ok && r->Ok_0@ == c,
            Err(e) => r is Err && r->Err_0@ == e,
        },
{
    let dry_run = match get_bool(root, "dry_run") {
        Ok(b) => b,
        Err(e) => return Err(e),
    };
    let mode_name = match get_string(root, "mode") {
        Ok(s) => s,
        Err(e) => return Err(e),
    };
    let mode = match CleanUpMode::from_str(mode_name.as_str()) {
        Ok(m) => m,
        Err(_) => return Err(ConfigError::InvalidMode { value: mode_name }),
    };
    let keep_rotate = match get_uint(root, "keep_rotate", u64::MAX) {
        Ok(n) => n,
        Err(e) => return Err(e),
    };
    let missing_files_ok = match get_bool(root, "missing_files_ok") {
        Ok(b) => b,
        Err(e) => return Err(e),
    };
    let copy_truncate = match get_bool(root, "copy_truncate") {
        Ok(b) => b,
        Err(e) => return Err(e),
    };
    let file_list = match get_string_list(root, "file_list") {
        Ok(l) => l,
        Err(e) => return Err(e),
    };
    let file_size_mb = match get_uint(root, "retention.file_size_mb", u64::MAX) {
        Ok(n) => n,
        Err(e) => return Err(e),
    };
    let last_write_h = match get_uint(root, "retention.last_write_h", u64::MAX) {
        Ok(n) => n,
        Err(e) => return Err(e),
    };
    Ok(Config {
        dry_run,
        mode,
        keep_rotate,
        missing_files_ok,
        copy_truncate,
        file_list,
        retention: RetentionConfig { file_size_mb, last_write_h },
    })
}

} // verus!
