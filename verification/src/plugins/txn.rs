//! The plugin install transaction: its journal record, and what recovery
//! does with the residue an interrupted install or rollback left behind.
//! The filesystem work is the caller's; this module decides the steps.

use vstd::prelude::*;
use vstd::utf8::{decode_utf8, valid_utf8};
use crate::json::{json_object_fields, parse_json_object, JsonScalar, JsonScalarView};
use crate::plugins::market::{cache_name, sanitize_cache_name, sanitize_pkg_path, valid_pkg_path};
use crate::sessions::codec::{opt_view, text_from_utf8};
use crate::text::{chars_eq, chars_of, concat_chars, starts_with, starts_with_exec, string_of};

verus! {

/* ------------------------------ the journal ------------------------------ */

/// How far a transaction got.
#[derive(PartialEq, Eq, Structural, Clone, Copy, Debug)]
pub enum TransactionPhase {
    /// Recorded before the package swap; the new package may have landed.
    Prepared,
    /// A rollback has started; the journal says so before any copy moves.
    RollingBack,
    /// Every commit step succeeded; only cleanup is left.
    Committed,
}

/// The transaction journal of one plugin install.
#[derive(Debug)]
pub struct PluginTransaction {
    pub version: u32,
    pub registry_id: String,
    /// A previous copy of the package existed when the transaction began.
    pub had_previous: bool,
    /// The plugin's registration before the install: `None` when it had
    /// none, else whether it was disabled.
    pub registration_before: Option<bool>,
    pub phase: TransactionPhase,
}

pub open spec fn unsupported_message() -> Seq<char> {
    "不支持的插件事务，已保留备份"@
}

/// A journal this build can act on: format version 1, and a registry id
/// that may reach a `node_modules` path.
pub fn check_transaction(t: &PluginTransaction) -> (r: Result<(), String>)
    ensures
        match r {
            Ok(()) => t.version == 1 && valid_pkg_path(t.registry_id@),
            Err(e) => !(t.version == 1 && valid_pkg_path(t.registry_id@)) && e@ == unsupported_message(),
        },
{
    if t.version != 1 {
        return Err("不支持的插件事务，已保留备份".to_owned());
    }
    match sanitize_pkg_path(t.registry_id.as_str()) {
        Ok(_) => Ok(()),
        Err(_) => Err("不支持的插件事务，已保留备份".to_owned()),
    }
}

impl PluginTransaction {
    /// The journal written before any package or patch file is touched.
    pub fn prepared(registry_id: String, had_previous: bool, registration_before: Option<bool>) -> (r: Self)
        ensures
            r.version == 1,
            r.registry_id@ == registry_id@,
            r.had_previous == had_previous,
            r.registration_before == registration_before,
            r.phase == TransactionPhase::Prepared,
    {
        PluginTransaction { version: 1, registry_id, had_previous, registration_before, phase: TransactionPhase::Prepared }
    }

    /// Moves the journal to a phase, keeping everything else.
    pub fn set_phase(&mut self, phase: TransactionPhase)
        ensures
            final(self).phase == phase,
            final(self).version == old(self).version,
            final(self).registry_id == old(self).registry_id,
            final(self).had_previous == old(self).had_previous,
            final(self).registration_before == old(self).registration_before,
    {
        self.phase = phase;
    }
}

/* ------------------------------- recovery ------------------------------- */

/// What the filesystem shows when recovery starts: the transaction
/// directory, its `backup` and `reject` entries, and the package's
/// destination under `node_modules`.
#[derive(Debug)]
pub struct TxnProbe {
    pub dir_exists: bool,
    pub backup_exists: bool,
    pub reject_exists: bool,
    pub dest_exists: bool,
    pub dest_is_dir: bool,
}

/// One filesystem step of a recovery, run in order by the caller; the
/// first step that fails ends the recovery with its error.
#[derive(PartialEq, Eq, Structural, Clone, Copy, Debug)]
pub enum RecoveryStep {
    /// Remove the transaction directory (it holds no record and no copy).
    RemoveTxnDir,
    /// Save the journal with phase `RollingBack`.
    SaveRollingBack,
    /// Remove a leftover `reject` entry.
    ClearReject,
    /// Move the uncommitted package at the destination to `reject`.
    MoveDestToReject,
    /// Move `backup` back to the destination.
    RestoreBackup,
    /// Remove the package at the destination.
    RemoveDest,
    /// Put the plugin's registration back as it was before.
    RestoreRegistration(Option<bool>),
    /// Remove the backup, the reject, and last the journal and its directory.
    Finish,
}

/// A recovery: the steps to run, then the error to end with, if any.
#[derive(Debug)]
pub struct RecoveryPlan {
    pub steps: Vec<RecoveryStep>,
    pub failure: Option<String>,
}

pub struct PlanView {
    pub steps: Seq<RecoveryStep>,
    pub failure: Option<Seq<char>>,
}

impl RecoveryPlan {
    pub open spec fn view(&self) -> PlanView {
        PlanView {
            steps: self.steps@,
            failure: match self.failure {
                Some(f) => Some(f@),
                None => None,
            },
        }
    }
}

/// A journal as the plan reads it: phase, previous copy, registration.
pub type JournalView = (TransactionPhase, bool, Option<bool>);

pub open spec fn journal_view(j: Option<&PluginTransaction>) -> Option<JournalView> {
    match j {
        Some(t) => Some((t.phase, t.had_previous, t.registration_before)),
        None => None,
    }
}

pub open spec fn no_record_message(dir: Seq<char>) -> Seq<char> {
    "插件事务缺少记录，已保留 "@ + dir + "，请手动恢复"@
}

pub open spec fn committed_missing_message() -> Seq<char> {
    "已提交插件的目录缺失，保留事务与备份，请手动恢复"@
}

pub open spec fn both_missing_message() -> Seq<char> {
    "旧插件及其备份均缺失，保留事务待手动恢复"@
}

/// The journal is marked `RollingBack` first, unless it already is.
pub open spec fn mark_steps(phase: TransactionPhase) -> Seq<RecoveryStep> {
    if phase != TransactionPhase::RollingBack {
        seq![RecoveryStep::SaveRollingBack]
    } else {
        Seq::empty()
    }
}

/// The package moves of a rollback: a previous copy comes back from the
/// backup (the uncommitted one set aside first), or stays where it is when
/// the backup is already gone; without a previous copy the new one goes.
pub open spec fn package_steps(had_previous: bool, backup: bool, dest_exists: bool) -> Seq<RecoveryStep> {
    if had_previous {
        if backup {
            (if dest_exists {
                seq![RecoveryStep::ClearReject, RecoveryStep::MoveDestToReject]
            } else {
                Seq::empty()
            }) + seq![RecoveryStep::RestoreBackup]
        } else {
            Seq::empty()
        }
    } else {
        seq![RecoveryStep::RemoveDest]
    }
}

/// The recovery of a transaction directory:
/// - none: nothing to do;
/// - no journal: with a backup or reject left it is refused (their owner is
///   unknown), otherwise the directory is removed;
/// - committed: cleanup only, once the committed package is in place;
/// - otherwise a rollback: journal marked first, package moves, registration
///   restored, cleanup last; refused after the mark when neither the
///   previous copy nor its backup is left.
pub open spec fn plan_spec(p: TxnProbe, j: Option<JournalView>, dir: Seq<char>) -> PlanView {
    if !p.dir_exists {
        PlanView { steps: Seq::empty(), failure: None }
    } else {
        match j {
            None => if p.backup_exists || p.reject_exists {
                PlanView { steps: Seq::empty(), failure: Some(no_record_message(dir)) }
            } else {
                PlanView { steps: seq![RecoveryStep::RemoveTxnDir], failure: None }
            },
            Some((phase, had_previous, before)) => if phase == TransactionPhase::Committed {
                if !p.dest_is_dir {
                    PlanView { steps: Seq::empty(), failure: Some(committed_missing_message()) }
                } else {
                    PlanView { steps: seq![RecoveryStep::Finish], failure: None }
                }
            } else if had_previous && !p.backup_exists && !p.dest_is_dir {
                PlanView { steps: mark_steps(phase), failure: Some(both_missing_message()) }
            } else {
                PlanView {
                    steps: mark_steps(phase) + package_steps(had_previous, p.backup_exists, p.dest_exists) + seq![
                        RecoveryStep::RestoreRegistration(before),
                        RecoveryStep::Finish,
                    ],
                    failure: None,
                }
            },
        }
    }
}

/// Decides the recovery of a plugin's transaction directory. `journal` is
/// the record read from it (`None` when there is no journal file), `dir`
/// the directory as the user reads it.
pub fn recovery_plan(probe: &TxnProbe, journal: Option<&PluginTransaction>, dir: &str) -> (r: RecoveryPlan)
    ensures
        r.view() == plan_spec(*probe, journal_view(journal), dir@),
{
    let mut steps: Vec<RecoveryStep> = Vec::new();
    if !probe.dir_exists {
        return RecoveryPlan { steps, failure: None };
    }
    let t = match journal {
        None => {
            if probe.backup_exists || probe.reject_exists {
                let m = concat_chars(&concat_chars(&chars_of("插件事务缺少记录，已保留 "), &chars_of(dir)), &chars_of("，请手动恢复"));
                return RecoveryPlan { steps, failure: Some(string_of(&m)) };
            }
            steps.push(RecoveryStep::RemoveTxnDir);
            assert(steps@ =~= seq![RecoveryStep::RemoveTxnDir]);
            return RecoveryPlan { steps, failure: None };
        },
        Some(t) => t,
    };
    if t.phase == TransactionPhase::Committed {
        if !probe.dest_is_dir {
            return RecoveryPlan { steps, failure: Some("已提交插件的目录缺失，保留事务与备份，请手动恢复".to_owned()) };
        }
        steps.push(RecoveryStep::Finish);
        assert(steps@ =~= seq![RecoveryStep::Finish]);
        return RecoveryPlan { steps, failure: None };
    }
    if t.phase != TransactionPhase::RollingBack {
        steps.push(RecoveryStep::SaveRollingBack);
    }
    assert(steps@ =~= mark_steps(t.phase));
    if t.had_previous && !probe.backup_exists && !probe.dest_is_dir {
        return RecoveryPlan { steps, failure: Some("旧插件及其备份均缺失，保留事务待手动恢复".to_owned()) };
    }
    if t.had_previous {
        if probe.backup_exists {
            if probe.dest_exists {
                steps.push(RecoveryStep::ClearReject);
                steps.push(RecoveryStep::MoveDestToReject);
            }
            steps.push(RecoveryStep::RestoreBackup);
        }
    } else {
        steps.push(RecoveryStep::RemoveDest);
    }
    assert(steps@ =~= mark_steps(t.phase) + package_steps(t.had_previous, probe.backup_exists, probe.dest_exists));
    steps.push(RecoveryStep::RestoreRegistration(t.registration_before));
    steps.push(RecoveryStep::Finish);
    assert(steps@ =~= mark_steps(t.phase) + package_steps(t.had_previous, probe.backup_exists, probe.dest_exists)
        + seq![RecoveryStep::RestoreRegistration(t.registration_before), RecoveryStep::Finish]);
    RecoveryPlan { steps, failure: None }
}

/* ------------------------------- the laws ------------------------------- */

/// Which copy of the package a location holds.
pub enum PackageCopy {
    Absent,
    /// The copy that was installed before the transaction began.
    Previous,
    /// The copy the transaction swapped in.
    Uncommitted,
}

/// The disk a recovery acts on, as the steps see it.
pub struct DiskModel {
    /// The transaction directory exists.
    pub dir: bool,
    /// The journal's phase and whether a previous copy existed.
    pub journal: Option<(TransactionPhase, bool)>,
    /// `backup` exists (it holds the previous copy).
    pub backup: bool,
    pub reject: bool,
    pub dest: PackageCopy,
}

pub open spec fn probe_of(d: DiskModel) -> TxnProbe {
    TxnProbe {
        dir_exists: d.dir,
        backup_exists: d.backup,
        reject_exists: d.reject,
        dest_exists: !(d.dest is Absent),
        dest_is_dir: !(d.dest is Absent),
    }
}

pub open spec fn journal_of(d: DiskModel, before: Option<bool>) -> Option<JournalView> {
    match d.journal {
        Some((phase, had_previous)) => Some((phase, had_previous, before)),
        None => None,
    }
}

/// What one step does to the disk.
pub open spec fn apply(d: DiskModel, s: RecoveryStep) -> DiskModel {
    match s {
        RecoveryStep::RemoveTxnDir => DiskModel { dir: false, journal: None, backup: false, reject: false, ..d },
        RecoveryStep::SaveRollingBack => match d.journal {
            Some((_, h)) => DiskModel { journal: Some((TransactionPhase::RollingBack, h)), ..d },
            None => d,
        },
        RecoveryStep::ClearReject => DiskModel { reject: false, ..d },
        RecoveryStep::MoveDestToReject => DiskModel { reject: true, dest: PackageCopy::Absent, ..d },
        RecoveryStep::RestoreBackup => DiskModel { backup: false, dest: PackageCopy::Previous, ..d },
        RecoveryStep::RemoveDest => DiskModel { dest: PackageCopy::Absent, ..d },
        RecoveryStep::RestoreRegistration(_) => d,
        RecoveryStep::Finish => DiskModel { dir: false, journal: None, backup: false, reject: false, ..d },
    }
}

/// The disk after running steps in order.
pub open spec fn run(d: DiskModel, steps: Seq<RecoveryStep>) -> DiskModel
    decreases steps.len(),
{
    if steps.len() == 0 {
        d
    } else {
        run(apply(d, steps[0]), steps.drop_first())
    }
}

/// An unfinished transaction in a state an install or a rollback leaves
/// behind: with a previous copy, exactly one of the backup and the
/// destination holds it; without one, there is no backup and the
/// destination holds at most the uncommitted copy.
pub open spec fn pending(d: DiskModel, had_previous: bool) -> bool {
    &&& d.dir
    &&& d.journal matches Some((phase, h)) && phase != TransactionPhase::Committed && h == had_previous
    &&& if had_previous {
        d.backup == !(d.dest is Previous)
    } else {
        !d.backup && !(d.dest is Previous)
    }
}

/// Where a rolled-back package ends up: the previous copy, or none.
pub open spec fn rolled_back(had_previous: bool) -> PackageCopy {
    if had_previous {
        PackageCopy::Previous
    } else {
        PackageCopy::Absent
    }
}

proof fn lemma_run_one(d: DiskModel, s: RecoveryStep)
    ensures
        run(d, seq![s]) == apply(d, s),
{
    reveal_with_fuel(run, 2);
    assert(seq![s].drop_first() =~= Seq::<RecoveryStep>::empty());
}

proof fn lemma_run_append(d: DiskModel, a: Seq<RecoveryStep>, b: Seq<RecoveryStep>)
    ensures
        run(d, a + b) == run(run(d, a), b),
    decreases a.len(),
{
    if a.len() == 0 {
        assert(a + b =~= b);
    } else {
        assert((a + b).drop_first() =~= a.drop_first() + b);
        assert((a + b)[0] == a[0]);
        lemma_run_append(apply(d, a[0]), a.drop_first(), b);
    }
}

proof fn lemma_run_push(d: DiskModel, a: Seq<RecoveryStep>, s: RecoveryStep)
    ensures
        run(d, a.push(s)) == apply(run(d, a), s),
{
    assert(a.push(s) =~= a + seq![s]);
    lemma_run_append(d, a, seq![s]);
    lemma_run_one(run(d, a), s);
}

/// Rolling back an unfinished transaction succeeds and leaves the previous
/// copy in place (or no copy when there was none), with the transaction
/// directory gone.
pub proof fn lemma_rollback_restores_the_previous_state(d: DiskModel, had_previous: bool, before: Option<bool>, dir: Seq<char>)
    requires
        pending(d, had_previous),
    ensures
        plan_spec(probe_of(d), journal_of(d, before), dir).failure is None,
        run(d, plan_spec(probe_of(d), journal_of(d, before), dir).steps).dest == rolled_back(had_previous),
        run(d, plan_spec(probe_of(d), journal_of(d, before), dir).steps).journal is None,
        !run(d, plan_spec(probe_of(d), journal_of(d, before), dir).steps).dir,
{
    let p = plan_spec(probe_of(d), journal_of(d, before), dir);
    let (phase, _) = d.journal->0;
    let m = mark_steps(phase);
    let k = package_steps(had_previous, d.backup, !(d.dest is Absent));
    assert(p.steps =~= m + k + seq![RecoveryStep::RestoreRegistration(before), RecoveryStep::Finish]);
    let d1 = run(d, m);
    if phase != TransactionPhase::RollingBack {
        lemma_run_one(d, RecoveryStep::SaveRollingBack);
    } else {
        assert(run(d, m) == d);
    }
    assert(pending(d1, had_previous));
    assert(d1.dest == d.dest && d1.backup == d.backup);
    let d2 = run(d1, k);
    if had_previous {
        if d.backup {
            if !(d.dest is Absent) {
                assert(k =~= seq![RecoveryStep::ClearReject, RecoveryStep::MoveDestToReject].push(RecoveryStep::RestoreBackup));
                lemma_run_push(d1, seq![RecoveryStep::ClearReject, RecoveryStep::MoveDestToReject], RecoveryStep::RestoreBackup);
                assert(seq![RecoveryStep::ClearReject, RecoveryStep::MoveDestToReject] =~= seq![RecoveryStep::ClearReject].push(RecoveryStep::MoveDestToReject));
                lemma_run_push(d1, seq![RecoveryStep::ClearReject], RecoveryStep::MoveDestToReject);
                lemma_run_one(d1, RecoveryStep::ClearReject);
            } else {
                assert(k =~= seq![RecoveryStep::RestoreBackup]);
                lemma_run_one(d1, RecoveryStep::RestoreBackup);
            }
        } else {
            assert(k =~= Seq::<RecoveryStep>::empty());
        }
    } else {
        lemma_run_one(d1, RecoveryStep::RemoveDest);
    }
    assert(d2.dest == rolled_back(had_previous));
    let tail = seq![RecoveryStep::RestoreRegistration(before), RecoveryStep::Finish];
    assert(tail =~= seq![RecoveryStep::RestoreRegistration(before)].push(RecoveryStep::Finish));
    lemma_run_push(d2, seq![RecoveryStep::RestoreRegistration(before)], RecoveryStep::Finish);
    lemma_run_one(d2, RecoveryStep::RestoreRegistration(before));
    lemma_run_append(d, m, k);
    lemma_run_append(d, m + k, tail);
}

/// A crash part-way through a rollback leaves a disk that the next
/// recovery rolls back to the same result: after any prefix of the steps,
/// either the rollback had already finished, or the transaction is still
/// pending and recovering it again yields the same package.
#[verifier::spinoff_prover]
#[verifier::rlimit(40)]
pub proof fn lemma_recovery_survives_a_crash(d: DiskModel, had_previous: bool, before: Option<bool>, dir: Seq<char>, k: int)
    requires
        pending(d, had_previous),
        0 <= k <= plan_spec(probe_of(d), journal_of(d, before), dir).steps.len(),
    ensures
        ({
            let d2 = run(d, plan_spec(probe_of(d), journal_of(d, before), dir).steps.take(k));
            ||| d2.journal is None && !d2.dir && d2.dest == rolled_back(had_previous)
            ||| pending(d2, had_previous) && run(d2, plan_spec(probe_of(d2), journal_of(d2, before), dir).steps).dest
                == rolled_back(had_previous)
        }),
{
    let steps = plan_spec(probe_of(d), journal_of(d, before), dir).steps;
    let d2 = run(d, steps.take(k));
    reveal_with_fuel(run, 8);
    assert(steps.len() <= 6);
    if pending(d2, had_previous) {
        lemma_rollback_restores_the_previous_state(d2, had_previous, before, dir);
    }
}

/// A committed transaction is only cleaned up: recovery never moves or
/// removes its package.
pub proof fn lemma_committed_is_never_rolled_back(p: TxnProbe, had_previous: bool, before: Option<bool>, dir: Seq<char>)
    ensures
        ({
            let steps = plan_spec(p, Some((TransactionPhase::Committed, had_previous, before)), dir).steps;
            forall|i: int| 0 <= i < steps.len() ==> steps[i] == RecoveryStep::Finish
        }),
{
}

/// An unfinished transaction's journal is marked `RollingBack` before any
/// copy moves, a previous copy is never deleted, and the journal goes only
/// in the last step.
pub proof fn lemma_rollback_order(p: TxnProbe, phase: TransactionPhase, had_previous: bool, before: Option<bool>, dir: Seq<char>)
    requires
        phase != TransactionPhase::Committed,
    ensures
        ({
            let r = plan_spec(p, Some((phase, had_previous, before)), dir);
            &&& (p.dir_exists && phase != TransactionPhase::RollingBack) ==> r.steps.len() > 0 && r.steps[0]
                == RecoveryStep::SaveRollingBack
            &&& had_previous ==> !r.steps.contains(RecoveryStep::RemoveDest)
            &&& forall|i: int| 0 <= i < r.steps.len() - 1 ==> r.steps[i] != RecoveryStep::Finish
            &&& (p.dir_exists && r.failure is None) ==> r.steps.len() > 0 && r.steps.last() == RecoveryStep::Finish
        }),
{
    let r = plan_spec(p, Some((phase, had_previous, before)), dir);
    if had_previous && r.steps.contains(RecoveryStep::RemoveDest) {
        let i = choose|i: int| 0 <= i < r.steps.len() && r.steps[i] == RecoveryStep::RemoveDest;
        assert(false);
    }
}

/// Recovering twice is recovering once: a recovery that ran all its steps
/// leaves no transaction directory, so the next recovery finds nothing to
/// do and changes nothing.
pub proof fn lemma_recovery_twice_is_a_no_op(d: DiskModel, before: Option<bool>, dir: Seq<char>)
    requires
        plan_spec(probe_of(d), journal_of(d, before), dir).failure is None,
    ensures
        ({
            let d2 = run(d, plan_spec(probe_of(d), journal_of(d, before), dir).steps);
            &&& !d2.dir
            &&& plan_spec(probe_of(d2), journal_of(d2, before), dir) == (PlanView {
                steps: Seq::empty(),
                failure: None,
            })
            &&& run(d2, plan_spec(probe_of(d2), journal_of(d2, before), dir).steps) == d2
        }),
{
    let steps = plan_spec(probe_of(d), journal_of(d, before), dir).steps;
    if steps.len() == 0 {
        assert(!d.dir);
    } else {
        let last = steps.last();
        assert(last == RecoveryStep::Finish || last == RecoveryStep::RemoveTxnDir);
        assert(steps =~= steps.drop_last().push(last));
        lemma_run_push(d, steps.drop_last(), last);
    }
    let d2 = run(d, steps);
    assert(plan_spec(probe_of(d2), journal_of(d2, before), dir).steps =~= Seq::<RecoveryStep>::empty());
}

/* ---------------------------- legacy backups ---------------------------- */

/// What an interrupted swap of the old install format leaves to do.
#[derive(PartialEq, Eq, Structural, Clone, Copy, Debug)]
pub enum SwapRecovery {
    /// No backup: nothing was interrupted.
    Nothing,
    /// The destination is gone: move the backup back.
    PutBack,
    /// An uncommitted copy sits at the destination: set it aside, move the
    /// backup back (putting the aside copy back if that fails), then drop it.
    SetAsideThenPutBack,
}

/// A backup always wins over a landing copy: the old format's package
/// marker was written before dependencies and registration, so it cannot
/// prove a commit.
pub fn swap_recovery(backup_exists: bool, dest_exists: bool) -> (r: SwapRecovery)
    ensures
        r == (if !backup_exists {
            SwapRecovery::Nothing
        } else if !dest_exists {
            SwapRecovery::PutBack
        } else {
            SwapRecovery::SetAsideThenPutBack
        }),
{
    if !backup_exists {
        SwapRecovery::Nothing
    } else if !dest_exists {
        SwapRecovery::PutBack
    } else {
        SwapRecovery::SetAsideThenPutBack
    }
}

pub open spec fn legacy_prefix() -> Seq<char> {
    ".phl-old-"@
}

/// The flattened id a legacy backup directory name carries after
/// `.phl-old-`, when it is one.
pub fn legacy_backup_flat(name: &str) -> (r: Option<String>)
    ensures
        opt_view(r) == (if starts_with(name@, legacy_prefix()) {
            Some(name@.skip(legacy_prefix().len() as int))
        } else {
            None
        }),
{
    let n = chars_of(name);
    let p = chars_of(".phl-old-");
    if starts_with_exec(&n, &p) {
        let rest = crate::text::slice_range(&n, p.len(), n.len());
        assert(rest@ =~= name@.skip(legacy_prefix().len() as int));
        Some(string_of(&rest))
    } else {
        None
    }
}

/// The string value of a top-level field among parsed fields.
pub open spec fn str_field(fields: Seq<(Seq<char>, JsonScalarView)>, key: Seq<char>) -> Option<Seq<char>>
    decreases fields.len(),
{
    if fields.len() == 0 {
        None
    } else if fields[0].0 == key {
        match fields[0].1 {
            JsonScalarView::Str(s) => Some(s),
            _ => None,
        }
    } else {
        str_field(fields.drop_first(), key)
    }
}

/// A JSON document's top-level string field, as `serde_json` reads the raw
/// bytes of a file: nothing when the bytes are not UTF-8, not a JSON
/// object, or the field is missing or not a string.
pub open spec fn string_field_spec(raw: Seq<u8>, key: Seq<char>) -> Option<Seq<char>> {
    if !valid_utf8(raw) {
        None
    } else {
        match json_object_fields(decode_utf8(raw)) {
            Ok(Some(fields)) => str_field(fields, key),
            _ => None,
        }
    }
}

/// Reads a top-level string field from a JSON file's bytes.
pub fn string_field(raw: &[u8], key: &str) -> (r: Option<String>)
    ensures
        opt_view(r) == string_field_spec(raw@, key@),
{
    let text = match text_from_utf8(raw) {
        Ok(t) => t,
        Err(_) => {
            return None;
        },
    };
    let fields = match parse_json_object(text.as_str()) {
        Ok(Some(f)) => f,
        _ => {
            return None;
        },
    };
    let ghost fv = crate::json::fields_view(fields@);
    let k = chars_of(key);
    let mut i: usize = 0;
    assert(fv.skip(0) =~= fv);
    while i < fields.len()
        invariant
            i <= fields.len(),
            fv == crate::json::fields_view(fields@),
            fv.len() == fields.len(),
            k@ == key@,
            str_field(fv, key@) == str_field(fv.skip(i as int), key@),
            string_field_spec(raw@, key@) == str_field(fv, key@),
        decreases fields.len() - i,
    {
        assert(fv.skip(i as int)[0] == fv[i as int]);
        assert(fv.skip(i as int).drop_first() =~= fv.skip(i + 1));
        assert(fv[i as int] == (fields@[i as int].0@, fields@[i as int].1.view()));
        if chars_eq(&chars_of(fields[i].0.as_str()), &k) {
            return match &fields[i].1 {
                JsonScalar::Str(s) => Some(s.clone()),
                _ => None,
            };
        }
        i += 1;
    }
    assert(fv.skip(i as int).len() == 0);
    None
}

/// An id that owns a legacy backup: a valid package path whose cache name
/// is the backup's flattened name.
pub open spec fn owns_backup(id: Option<Seq<char>>, flat: Seq<char>) -> bool {
    match id {
        Some(i) => valid_pkg_path(i) && cache_name(i) == flat,
        None => false,
    }
}

pub open spec fn owner_spec(flat: Seq<char>, marker: Option<Seq<u8>>, package: Option<Seq<u8>>) -> Option<Seq<char>> {
    let a = match marker {
        Some(m) => string_field_spec(m, "registryId"@),
        None => None,
    };
    let b = match package {
        Some(p) => string_field_spec(p, "name"@),
        None => None,
    };
    if owns_backup(a, flat) {
        a
    } else if owns_backup(b, flat) {
        b
    } else {
        None
    }
}

pub open spec fn opt_bytes(o: Option<&[u8]>) -> Option<Seq<u8>> {
    match o {
        Some(b) => Some(b@),
        None => None,
    }
}

fn owning_id(id: Option<String>, flat: &str) -> (r: Option<String>)
    ensures
        opt_view(r) == (if owns_backup(opt_view(id), flat@) {
            opt_view(id)
        } else {
            None
        }),
{
    match id {
        Some(i) => {
            if sanitize_pkg_path(i.as_str()).is_ok() && chars_eq(&chars_of(sanitize_cache_name(i.as_str()).as_str()), &chars_of(flat)) {
                Some(i)
            } else {
                None
            }
        },
        None => None,
    }
}

/// Who a legacy backup belongs to: the `registryId` of its install marker,
/// else the `name` of its `package.json` (the raw bytes of each file that
/// could be read), whichever is a valid package path that flattens to the
/// backup's name. `None` means the backup is kept and reported.
pub fn legacy_backup_owner(flat: &str, marker: Option<&[u8]>, package: Option<&[u8]>) -> (r: Option<String>)
    ensures
        opt_view(r) == owner_spec(flat@, opt_bytes(marker), opt_bytes(package)),
{
    let a = match marker {
        Some(m) => string_field(m, "registryId"),
        None => None,
    };
    match owning_id(a, flat) {
        Some(id) => {
            return Some(id);
        },
        None => {},
    }
    let b = match package {
        Some(p) => string_field(p, "name"),
        None => None,
    };
    owning_id(b, flat)
}

} // verus!
