//! The cleanup of the listed files: whether a file needs a cleanup, which
//! file operations rotate or delete it, and the statistics of a run.
//!
//! The file system itself is the caller's: it reports what it finds
//! (`FileState`, which rotated copies exist) and performs the operations of
//! a plan in order, stopping at the first that fails.
use vstd::prelude::*;
use crate::config::{CleanUpMode, Config, ConfigV, RetentionConfig};
use crate::text::{chars_of, string_of};

verus! {

/// Bytes in one MiB.
pub const BYTES_PER_MB: u64 = 1048576;

/// Nanoseconds in one hour.
pub const NANOS_PER_HOUR: u128 = 3600000000000;

/// The size condition: the file is larger than `file_size_mb` MiB.
pub open spec fn size_triggers(retention: RetentionConfig, size: u64) -> bool {
    size as int > retention.file_size_mb as int * BYTES_PER_MB as int
}

/// The age condition: the time since the last write, when it could be read,
/// is longer than `last_write_h` hours.
pub open spec fn age_triggers(retention: RetentionConfig, age_nanos: Option<u128>) -> bool {
    match age_nanos {
        Some(a) => a as int > retention.last_write_h as int * NANOS_PER_HOUR as int,
        None => false,
    }
}

/// Whether the mode reads the age, given the size: `LastWrite` always,
/// `All` only when the size condition did not trigger already.
pub open spec fn age_consulted(mode: CleanUpMode, retention: RetentionConfig, size: u64) -> bool {
    match mode {
        CleanUpMode::FileSize => false,
        CleanUpMode::LastWrite => true,
        CleanUpMode::All => !size_triggers(retention, size),
    }
}

/// Whether a file needs a cleanup under `mode`.
pub open spec fn cleanup_needed(mode: CleanUpMode, retention: RetentionConfig, size: u64, age_nanos: Option<u128>) -> bool {
    match mode {
        CleanUpMode::FileSize => size_triggers(retention, size),
        CleanUpMode::LastWrite => age_triggers(retention, age_nanos),
        CleanUpMode::All => size_triggers(retention, size) || age_triggers(retention, age_nanos),
    }
}

/// Whether the size condition triggers for a file of `size` bytes.
pub fn size_exceeds(retention: &RetentionConfig, size: u64) -> (r: bool)
    ensures
        r == size_triggers(*retention, size),
{
    (size as u128) > (retention.file_size_mb as u128) * (BYTES_PER_MB as u128)
}

/// Whether the age condition triggers for a file last written `age_nanos`
/// nanoseconds ago (`None`: the time could not be read).
pub fn age_exceeds(retention: &RetentionConfig, age_nanos: Option<u128>) -> (r: bool)
    ensures
        r == age_triggers(*retention, age_nanos),
{
    match age_nanos {
        Some(a) => {
            let limit: u128 = (retention.last_write_h as u128) * NANOS_PER_HOUR;
            a > limit
        },
        None => false,
    }
}

/// Whether the age of a file of `size` bytes must be read to decide.
pub fn needs_age_check(mode: CleanUpMode, retention: &RetentionConfig, size: u64) -> (r: bool)
    ensures
        r == age_consulted(mode, *retention, size),
{
    match mode {
        CleanUpMode::FileSize => false,
        CleanUpMode::LastWrite => true,
        CleanUpMode::All => !size_exceeds(retention, size),
    }
}

/// Whether a file needs a cleanup. In `All` mode the size is checked first
/// and the age only when the size did not trigger.
pub fn needs_cleanup(mode: CleanUpMode, retention: &RetentionConfig, size: u64, age_nanos: Option<u128>) -> (r: bool)
    ensures
        r == cleanup_needed(mode, *retention, size, age_nanos),
{
    let mut needed = false;
    if matches!(mode, CleanUpMode::FileSize | CleanUpMode::All) {
        needed = size_exceeds(retention, size);
    }
    if !needed && matches!(mode, CleanUpMode::LastWrite | CleanUpMode::All) {
        needed = age_exceeds(retention, age_nanos);
    }
    needed
}

/// In `All` mode a file needs a cleanup exactly when its size or its age
/// exceeds the threshold; once the size has triggered, the age is not
/// consulted and cannot change the answer.
pub proof fn lemma_all_mode_is_or(retention: RetentionConfig, size: u64, age: Option<u128>, other_age: Option<u128>)
    ensures
        cleanup_needed(CleanUpMode::All, retention, size, age)
            == (size_triggers(retention, size) || age_triggers(retention, age)),
        !cleanup_needed(CleanUpMode::All, retention, size, age)
            <==> (!size_triggers(retention, size) && !age_triggers(retention, age)),
        size_triggers(retention, size) ==> !age_consulted(CleanUpMode::All, retention, size)
            && cleanup_needed(CleanUpMode::All, retention, size, age)
            && cleanup_needed(CleanUpMode::All, retention, size, other_age),
{
}

/// What the file system shows at a listed path.
#[derive(Debug, Clone, Copy, PartialEq, Eq, Structural)]
pub enum FileState {
    /// Nothing exists there.
    Missing,
    /// Something that is not a regular file exists there.
    NotAFile,
    /// A regular file of `size` bytes, last written `age_nanos` nanoseconds
    /// ago (`None`: not read, or not readable).
    File { size: u64, age_nanos: Option<u128> },
}

/// How a file was handled successfully.
#[derive(Debug, Clone, Copy, PartialEq, Eq, Structural)]
pub enum TaskOutcome {
    /// The file is missing, which the configuration allows.
    MissingSkipped,
    /// No cleanup condition is met.
    NoAction,
    /// A cleanup is due; a dry run reports it and changes nothing.
    DryRun,
    /// The file was rotated or deleted.
    Cleaned,
}

/// Why a file could not be handled.
#[derive(Debug, Clone, Copy, PartialEq, Eq, Structural)]
pub enum TaskError {
    /// The file does not exist.
    NotFound,
    /// The path names something that is not a regular file.
    NotAFile,
    /// A file operation failed.
    Io,
}

/// The decision for one listed file.
#[derive(Debug, Clone, Copy, PartialEq, Eq, Structural)]
pub enum FileDecision {
    /// Nothing is to be done to the file, which counts as a success.
    Succeeded(TaskOutcome),
    /// Nothing is to be done to the file, which counts as a failure.
    Failed(TaskError),
    /// The file is to be rotated or deleted.
    Cleanup,
}

/// The decision for a file in `state` under `config`.
pub open spec fn decision_for(config: ConfigV, state: FileState) -> FileDecision {
    match state {
        FileState::Missing => if config.missing_files_ok {
            FileDecision::Succeeded((TaskOutcome::MissingSkipped))
        } else {
            FileDecision::Failed((TaskError::NotFound))
        },
        FileState::NotAFile => FileDecision::Failed((TaskError::NotAFile)),
        FileState::File { size, age_nanos } => if !cleanup_needed(config.mode, config.retention, size, age_nanos) {
            FileDecision::Succeeded((TaskOutcome::NoAction))
        } else if config.dry_run {
            FileDecision::Succeeded((TaskOutcome::DryRun))
        } else {
            FileDecision::Cleanup
        },
    }
}

/// The decision for one listed file.
pub fn decide_file(config: &Config, state: FileState) -> (r: FileDecision)
    ensures
        r == decision_for(config@, state),
{
    match state {
        FileState::Missing => if config.missing_files_ok {
            FileDecision::Succeeded((TaskOutcome::MissingSkipped))
        } else {
            FileDecision::Failed((TaskError::NotFound))
        },
        FileState::NotAFile => FileDecision::Failed((TaskError::NotAFile)),
        FileState::File { size, age_nanos } => if !needs_cleanup(config.mode, &config.retention, size, age_nanos) {
            FileDecision::Succeeded((TaskOutcome::NoAction))
        } else if config.dry_run {
            FileDecision::Succeeded((TaskOutcome::DryRun))
        } else {
            FileDecision::Cleanup
        },
    }
}

/// A managed file `P` or one of its rotated copies `P.i`.
#[derive(Debug, Clone, Copy, PartialEq, Eq, Structural)]
pub enum Slot {
    /// The file itself, which processes write to.
    Live,
    /// The rotated copy with this index.
    Rotated(u64),
}

/// One file operation of a cleanup.
#[derive(Debug, Clone, Copy, PartialEq, Eq, Structural)]
pub enum FileOp {
    /// Delete the file.
    Remove(Slot),
    /// Rename the first file to the second, replacing it.
    Rename(Slot, Slot),
    /// Copy the bytes of the first file to the second, replacing it.
    Copy(Slot, Slot),
    /// Empty the file in place, keeping its identity.
    Truncate(Slot),
}

/// The renames that shift the copies up, from index `n` down to 1:
/// `P.(i-1)` becomes `P.i` where `P.(i-1)` exists (`present[i-1]`).
pub open spec fn shift_ops(n: int, present: Seq<bool>) -> Seq<FileOp>
    decreases n,
{
    if n <= 0 {
        Seq::empty()
    } else {
        let step = if present[n - 1] {
            seq![FileOp::Rename(Slot::Rotated((n - 1) as u64), Slot::Rotated(n as u64))]
        } else {
            Seq::empty()
        };
        step + shift_ops(n - 1, present)
    }
}

/// The operations that move the live file to `P.0`.
pub open spec fn final_ops(copy_truncate: bool) -> Seq<FileOp> {
    if copy_truncate {
        seq![FileOp::Copy(Slot::Live, Slot::Rotated(0)), FileOp::Truncate(Slot::Live)]
    } else {
        seq![FileOp::Rename(Slot::Live, Slot::Rotated(0))]
    }
}

/// The operations of a cleanup: delete the file when no copy is kept;
/// otherwise shift the copies up from the highest index down, then move the
/// live file to `P.0`.
pub open spec fn plan_of(keep_rotate: u64, copy_truncate: bool, present: Seq<bool>) -> Seq<FileOp> {
    if keep_rotate == 0 {
        seq![FileOp::Remove(Slot::Live)]
    } else {
        shift_ops(keep_rotate - 1, present) + final_ops(copy_truncate)
    }
}

/// The operations that rotate or delete a file. `present[j]` tells whether
/// the copy `P.j` exists, for each `j` below `keep_rotate - 1`.
pub fn rotation_plan(keep_rotate: u64, copy_truncate: bool, present: &Vec<bool>) -> (r: Vec<FileOp>)
    requires
        keep_rotate == 0 || present@.len() == keep_rotate - 1,
    ensures
        r@ == plan_of(keep_rotate, copy_truncate, present@),
{
    let mut ops: Vec<FileOp> = Vec::new();
    if keep_rotate == 0 {
        ops.push(FileOp::Remove(Slot::Live));
        proof {
            assert(ops@ =~= seq![FileOp::Remove(Slot::Live)]);
        }
        return ops;
    }
    let mut i: u64 = keep_rotate - 1;
    proof {
        assert(ops@ + shift_ops(i as int, present@) =~= shift_ops(keep_rotate - 1, present@));
    }
    while i >= 1
        invariant
            i <= keep_rotate - 1,
            present@.len() == keep_rotate - 1,
            ops@ + shift_ops(i as int, present@) == shift_ops(keep_rotate - 1, present@),
        decreases i,
    {
        let ghost before = ops@;
        let n = present.len();
        proof {
            assert((i - 1) < n);
        }
        let j: usize = (i - 1) as usize;
        if present[j] {
            ops.push(FileOp::Rename(Slot::Rotated(i - 1), Slot::Rotated(i)));
        }
        proof {
            let step = if present@[i - 1] {
                seq![FileOp::Rename(Slot::Rotated((i - 1) as u64), Slot::Rotated(i as u64))]
            } else {
                Seq::empty()
            };
            assert(shift_ops(i as int, present@) == step + shift_ops(i - 1, present@));
            assert(ops@ =~= before + step);
            assert(ops@ + shift_ops(i - 1, present@) =~= shift_ops(keep_rotate - 1, present@));
        }
        i = i - 1;
    }
    let ghost shifted = ops@;
    proof {
        assert(shifted =~= shift_ops(keep_rotate - 1, present@));
    }
    if copy_truncate {
        ops.push(FileOp::Copy(Slot::Live, Slot::Rotated(0)));
        ops.push(FileOp::Truncate(Slot::Live));
    } else {
        ops.push(FileOp::Rename(Slot::Live, Slot::Rotated(0)));
    }
    proof {
        assert(ops@ =~= shifted + final_ops(copy_truncate));
    }
    ops
}

/// A model of the files of one managed path: the bytes of each file that exists.
pub type Disk = Map<Slot, Seq<u8>>;

/// The effect of one operation; `None` where its source does not exist.
pub open spec fn apply_op(d: Disk, op: FileOp) -> Option<Disk> {
    match op {
        FileOp::Remove(s) => if d.contains_key(s) { Some(d.remove(s)) } else { None },
        FileOp::Rename(a, b) => if d.contains_key(a) { Some(d.remove(a).insert(b, d[a])) } else { None },
        FileOp::Copy(a, b) => if d.contains_key(a) { Some(d.insert(b, d[a])) } else { None },
        FileOp::Truncate(s) => if d.contains_key(s) { Some(d.insert(s, Seq::empty())) } else { None },
    }
}

/// The effect of operations done in order, stopping at the first failure.
pub open spec fn apply_ops(d: Disk, ops: Seq<FileOp>) -> Option<Disk>
    decreases ops.len(),
{
    if ops.len() == 0 {
        Some(d)
    } else {
        match apply_op(d, ops[0]) {
            None => None,
            Some(d2) => apply_ops(d2, ops.drop_first()),
        }
    }
}

proof fn lemma_apply_concat(d: Disk, a: Seq<FileOp>, b: Seq<FileOp>)
    ensures
        apply_ops(d, a + b) == (match apply_ops(d, a) {
            None => None,
            Some(d2) => apply_ops(d2, b),
        }),
    decreases a.len(),
{
    if a.len() > 0 {
        assert((a + b).drop_first() =~= a.drop_first() + b);
        match apply_op(d, a[0]) {
            None => {},
            Some(d2) => lemma_apply_concat(d2, a.drop_first(), b),
        }
    } else {
        assert(a + b =~= b);
    }
}

/// Whether `present` tells, for each index below its length, whether the
/// copy exists on `d`.
pub open spec fn presence_of(d: Disk, present: Seq<bool>) -> bool {
    forall|j: int| 0 <= j < present.len() ==> present[j] == #[trigger] d.contains_key(Slot::Rotated(j as u64))
}

/// Where `P.(i-1)` existed on `d`, `P.i` on `e` holds its bytes.
pub open spec fn moved_up(d: Disk, e: Disk, i: int) -> bool {
    d.contains_key(Slot::Rotated((i - 1) as u64)) ==> e.contains_key(Slot::Rotated(i as u64))
        && e[Slot::Rotated(i as u64)] == d[Slot::Rotated((i - 1) as u64)]
}

/// The live file and the copies above index `n` are as on `d`.
pub open spec fn kept_outside(d: Disk, e: Disk, n: int, s: Slot) -> bool {
    (s == Slot::Live || (s matches Slot::Rotated(k) && k > n))
        ==> (e.contains_key(s) == d.contains_key(s) && (d.contains_key(s) ==> e[s] == d[s]))
}

/// The shift from index `n` down moves each copy `P.(i-1)` that exists to
/// `P.i`, and leaves the live file and the copies above `n` alone.
proof fn lemma_shift(d: Disk, n: int, present: Seq<bool>)
    requires
        0 <= n <= present.len(),
        present.len() < u64::MAX,
        presence_of(d, present),
    ensures
        apply_ops(d, shift_ops(n, present)) is Some,
        ({
            let e = apply_ops(d, shift_ops(n, present))->Some_0;
            &&& forall|i: int| 1 <= i <= n ==> #[trigger] moved_up(d, e, i)
            &&& forall|s: Slot| #[trigger] kept_outside(d, e, n, s)
        }),
    decreases n,
{
    if n > 0 {
        let a = Slot::Rotated((n - 1) as u64);
        let b = Slot::Rotated(n as u64);
        let step = if present[n - 1] { seq![FileOp::Rename(a, b)] } else { Seq::empty() };
        lemma_apply_concat(d, step, shift_ops(n - 1, present));
        let d1 = if present[n - 1] { d.remove(a).insert(b, d[a]) } else { d };
        assert(d.contains_key(a) == present[n - 1]);
        if present[n - 1] {
            assert(step.drop_first() =~= Seq::<FileOp>::empty());
            assert(apply_op(d, step[0]) == Some(d1));
            assert(apply_ops(d1, step.drop_first()) == Some(d1));
            assert(apply_ops(d, step) == Some(d1));
        } else {
            assert(apply_ops(d, step) == Some(d1));
        }
        assert(presence_of(d1, present.subrange(0, n - 1))) by {
            assert forall|j: int| 0 <= j < n - 1 implies present.subrange(0, n - 1)[j]
                == #[trigger] d1.contains_key(Slot::Rotated(j as u64)) by {
                assert(Slot::Rotated(j as u64) != a);
                assert(Slot::Rotated(j as u64) != b);
                assert(present[j] == d.contains_key(Slot::Rotated(j as u64)));
            }
        }
        lemma_shift_prefix(n - 1, present, present.subrange(0, n - 1));
        lemma_shift(d1, n - 1, present.subrange(0, n - 1));
        let e = apply_ops(d1, shift_ops(n - 1, present))->Some_0;
        assert forall|i: int| 1 <= i <= n implies #[trigger] moved_up(d, e, i) by {
            if i < n {
                assert(moved_up(d1, e, i));
                assert(Slot::Rotated((i - 1) as u64) != a);
                assert(Slot::Rotated((i - 1) as u64) != b);
            } else {
                assert(kept_outside(d1, e, n - 1, b));
            }
        }
        assert forall|s: Slot| #[trigger] kept_outside(d, e, n, s) by {
            assert(kept_outside(d1, e, n - 1, s));
            if s == Slot::Live || (s matches Slot::Rotated(k) && k > n) {
                assert(s != a && s != b);
            }
        }
    }
}

proof fn lemma_shift_prefix(n: int, present: Seq<bool>, prefix: Seq<bool>)
    requires
        0 <= n <= prefix.len() <= present.len(),
        prefix == present.subrange(0, prefix.len() as int),
    ensures
        shift_ops(n, present) == shift_ops(n, prefix),
    decreases n,
{
    if n > 0 {
        assert(present[n - 1] == prefix[n - 1]);
        lemma_shift_prefix(n - 1, present, prefix);
    }
}

/// Rotation: each existing copy `P.(i-1)` below `keep_rotate` becomes
/// `P.i`, the live file's bytes become `P.0`, and the copies from index
/// `keep_rotate` on are left alone. With copy-truncate the live file stays,
/// empty; otherwise it is gone. Nothing is lost on the way, because the
/// shift runs from the highest index down before the live file moves.
pub proof fn lemma_rotation(d: Disk, keep_rotate: u64, copy_truncate: bool, present: Seq<bool>)
    requires
        keep_rotate > 0,
        present.len() == keep_rotate - 1,
        presence_of(d, present),
        d.contains_key(Slot::Live),
    ensures
        apply_ops(d, plan_of(keep_rotate, copy_truncate, present)) is Some,
        ({
            let e = apply_ops(d, plan_of(keep_rotate, copy_truncate, present))->Some_0;
            &&& forall|i: int| 1 <= i < keep_rotate ==> #[trigger] moved_up(d, e, i)
            &&& e.contains_key(Slot::Rotated(0)) && e[Slot::Rotated(0)] == d[Slot::Live]
            &&& copy_truncate ==> e.contains_key(Slot::Live) && e[Slot::Live] == Seq::<u8>::empty()
            &&& !copy_truncate ==> !e.contains_key(Slot::Live)
            &&& forall|k: u64| k >= keep_rotate ==> #[trigger] kept_outside(d, e, keep_rotate - 1, Slot::Rotated(k))
        }),
{
    let n = keep_rotate - 1;
    lemma_shift(d, n, present);
    lemma_apply_concat(d, shift_ops(n, present), final_ops(copy_truncate));
    let m = apply_ops(d, shift_ops(n, present))->Some_0;
    assert(kept_outside(d, m, n, Slot::Live));
    let fin = final_ops(copy_truncate);
    let e = if copy_truncate {
        m.insert(Slot::Rotated(0), m[Slot::Live]).insert(Slot::Live, Seq::empty())
    } else {
        m.remove(Slot::Live).insert(Slot::Rotated(0), m[Slot::Live])
    };
    if copy_truncate {
        let m1 = m.insert(Slot::Rotated(0), m[Slot::Live]);
        assert(apply_op(m, fin[0]) == Some(m1));
        assert(fin.drop_first() =~= seq![FileOp::Truncate(Slot::Live)]);
        assert(apply_op(m1, fin.drop_first()[0]) == Some(e));
        assert(fin.drop_first().drop_first() =~= Seq::<FileOp>::empty());
        assert(apply_ops(e, fin.drop_first().drop_first()) == Some(e));
        assert(apply_ops(m1, fin.drop_first()) == Some(e));
    } else {
        assert(apply_op(m, fin[0]) == Some(e));
        assert(fin.drop_first() =~= Seq::<FileOp>::empty());
        assert(apply_ops(e, fin.drop_first()) == Some(e));
    }
    assert(apply_ops(m, fin) == Some(e));
    assert forall|i: int| 1 <= i < keep_rotate implies #[trigger] moved_up(d, e, i) by {
        assert(moved_up(d, m, i));
        assert(Slot::Rotated(i as u64) != Slot::Rotated(0));
    }
    assert forall|k: u64| k >= keep_rotate implies #[trigger] kept_outside(d, e, keep_rotate - 1, Slot::Rotated(k)) by {
        assert(kept_outside(d, m, n, Slot::Rotated(k)));
    }
}

/// Without rotated copies the file is deleted, and no copy appears.
pub proof fn lemma_delete_only(d: Disk, copy_truncate: bool, present: Seq<bool>)
    requires
        d.contains_key(Slot::Live),
    ensures
        plan_of(0, copy_truncate, present) == seq![FileOp::Remove(Slot::Live)],
        apply_ops(d, plan_of(0, copy_truncate, present)) == Some(d.remove(Slot::Live)),
{
    let ops = plan_of(0, copy_truncate, present);
    assert(ops.drop_first() =~= Seq::<FileOp>::empty());
    assert(apply_ops(d.remove(Slot::Live), ops.drop_first()) == Some(d.remove(Slot::Live)));
}

/// The file operations that follow a decision: only a cleanup has any.
pub open spec fn decision_ops(config: ConfigV, state: FileState, present: Seq<bool>) -> Seq<FileOp> {
    if decision_for(config, state) == FileDecision::Cleanup {
        plan_of(config.keep_rotate, config.copy_truncate, present)
    } else {
        Seq::empty()
    }
}

/// A missing file is a success without any file operation when missing
/// files are allowed, and a not-found failure otherwise; either way the
/// decision concerns that file alone, and the other files are decided as
/// if it were not there.
pub proof fn lemma_missing_file(config: ConfigV, present: Seq<bool>)
    ensures
        config.missing_files_ok ==> decision_for(config, FileState::Missing)
            == FileDecision::Succeeded(TaskOutcome::MissingSkipped),
        !config.missing_files_ok ==> decision_for(config, FileState::Missing)
            == FileDecision::Failed(TaskError::NotFound),
        decision_ops(config, FileState::Missing, present) == Seq::<FileOp>::empty(),
{
}

/// A dry run of a file that needs a cleanup succeeds and performs no file
/// operation.
pub proof fn lemma_dry_run(config: ConfigV, size: u64, age_nanos: Option<u128>, present: Seq<bool>)
    requires
        config.dry_run,
        cleanup_needed(config.mode, config.retention, size, age_nanos),
    ensures
        decision_for(config, FileState::File { size, age_nanos }) == FileDecision::Succeeded(TaskOutcome::DryRun),
        decision_ops(config, FileState::File { size, age_nanos }, present) == Seq::<FileOp>::empty(),
{
}

/// The statistics of a run.
#[derive(Debug, Clone, Copy, PartialEq, Eq, Structural)]
pub struct RunReport {
    /// Files processed.
    pub executed: usize,
    /// Files handled successfully.
    pub succeeded: usize,
    /// Files that failed.
    pub failed: usize,
}

impl RunReport {
    /// A report of no file.
    pub fn new() -> (r: Self)
        ensures
            r.executed == 0 && r.succeeded == 0 && r.failed == 0,
    {
        RunReport { executed: 0, succeeded: 0, failed: 0 }
    }

    /// Counts one more file, successful or not.
    pub fn record(&mut self, ok: bool)
        requires
            old(self).executed < usize::MAX,
            old(self).succeeded + old(self).failed == old(self).executed,
        ensures
            final(self).executed == old(self).executed + 1,
            final(self).succeeded == old(self).succeeded + (if ok { 1int } else { 0int }),
            final(self).failed == old(self).failed + (if ok { 0int } else { 1int }),
            final(self).succeeded + final(self).failed == final(self).executed,
    {
        self.executed = self.executed + 1;
        if ok {
            self.succeeded = self.succeeded + 1;
        } else {
            self.failed = self.failed + 1;
        }
    }

    /// The whole percentage of successful files; zero for no file.
    pub fn success_rate(&self) -> (r: usize)
        requires
            self.succeeded <= self.executed,
        ensures
            self.executed == 0 ==> r == 0,
            self.executed > 0 ==> r == self.succeeded as int * 100 / self.executed as int,
    {
        percentage(self.succeeded, self.executed)
    }

    /// The whole percentage of failed files; zero for no file.
    pub fn failure_rate(&self) -> (r: usize)
        requires
            self.failed <= self.executed,
        ensures
            self.executed == 0 ==> r == 0,
            self.executed > 0 ==> r == self.failed as int * 100 / self.executed as int,
    {
        percentage(self.failed, self.executed)
    }
}

/// `part * 100 / whole`, rounded down, and zero where `whole` is zero.
fn percentage(part: usize, whole: usize) -> (r: usize)
    requires
        part <= whole,
    ensures
        whole == 0 ==> r == 0,
        whole > 0 ==> r == part as int * 100 / whole as int,
{
    if whole == 0 {
        return 0;
    }
    let p = (part as u128) * 100 / (whole as u128);
    proof {
        assert(part as int * 100 / whole as int <= 100) by (nonlinear_arith)
            requires whole > 0, 0 <= part <= whole;
    }
    p as usize
}

/// The decimal digits.
pub open spec fn digit_chars() -> Seq<char> {
    seq!['0', '1', '2', '3', '4', '5', '6', '7', '8', '9']
}

/// The decimal notation of `n`, without leading zeros.
pub open spec fn decimal(n: nat) -> Seq<char>
    decreases n,
{
    if n < 10 {
        seq![digit_chars()[n as int]]
    } else {
        decimal(n / 10).push(digit_chars()[(n % 10) as int])
    }
}

fn decimal_digits(n: u64) -> (r: Vec<char>)
    ensures
        r@ == decimal(n as nat),
    decreases n,
{
    let digits = vec!['0', '1', '2', '3', '4', '5', '6', '7', '8', '9'];
    proof {
        assert(digits@ =~= digit_chars());
    }
    if n < 10 {
        let mut r: Vec<char> = Vec::new();
        r.push(digits[n as usize]);
        proof {
            assert(r@ =~= seq![digit_chars()[n as int]]);
        }
        r
    } else {
        let mut r = decimal_digits(n / 10);
        r.push(digits[(n % 10) as usize]);
        r
    }
}

/// The path of a slot of the managed file at `path`: the path itself, or
/// the path with `.` and the index appended.
pub open spec fn slot_path_of(path: Seq<char>, slot: Slot) -> Seq<char> {
    match slot {
        Slot::Live => path,
        Slot::Rotated(i) => path + seq!['.'] + decimal(i as nat),
    }
}

/// The path of a slot of the managed file at `path` (`P` or `P.i`).
pub fn slot_path(path: &str, slot: Slot) -> (r: String)
    ensures
        r@ == slot_path_of(path@, slot),
{
    let mut cs = chars_of(path);
    match slot {
        Slot::Live => {},
        Slot::Rotated(i) => {
            cs.push('.');
            let mut digits = decimal_digits(i);
            cs.append(&mut digits);
        },
    }
    string_of(cs.as_slice())
}

} // verus!
