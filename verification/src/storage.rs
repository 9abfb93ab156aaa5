//! Moving the data root between drives: the resumable migration journal
//! and the decisions a migration, its undo and its finish step make.
//!
//! A journal records every data directory: pending, moving, moved, with
//! byte counts. A crash or a cancel between rows is the normal case: a
//! restart finds the journal and either resumes from where it says or rolls
//! the half-moved directories back. The root pointer moves only after a
//! fully committed migration.

use vstd::prelude::*;
use crate::text::{chars_of, concat_chars, lemma_views_push, string_of, views};

verus! {

/* ------------------------------ summaries ------------------------------ */

/// One data directory of a root, looked at one level deep.
#[derive(Debug)]
pub struct DirSummary {
    pub exists: bool,
    pub entries: usize,
}

/// What a root still holds, directory by directory.
#[derive(Debug)]
pub struct RootDataSummary {
    pub instances: DirSummary,
    pub versions: DirSummary,
    pub runtimes: DirSummary,
    pub config: DirSummary,
    pub cache: DirSummary,
    pub has_data: bool,
}

impl RootDataSummary {
    /// The summary of the five data directories; a root has data when any
    /// of them has an entry.
    pub fn of(
        instances: DirSummary,
        versions: DirSummary,
        runtimes: DirSummary,
        config: DirSummary,
        cache: DirSummary,
    ) -> (r: Self)
        ensures
            r.has_data == (instances.entries > 0 || versions.entries > 0 || runtimes.entries > 0
                || config.entries > 0 || cache.entries > 0),
            r.instances == instances,
            r.versions == versions,
            r.runtimes == runtimes,
            r.config == config,
            r.cache == cache,
    {
        let has_data = instances.entries > 0 || versions.entries > 0 || runtimes.entries > 0
            || config.entries > 0 || cache.entries > 0;
        RootDataSummary { instances, versions, runtimes, config, cache, has_data }
    }
}

/// What a migration (or an undo) moved.
#[derive(Debug)]
pub struct MoveSummary {
    pub moved: Vec<String>,
    pub bytes: u64,
    pub cancelled: bool,
}

/// A migration's result; `root` only once the pointer was committed.
#[derive(Debug)]
pub struct MoveOutcome {
    pub summary: MoveSummary,
    pub root: Option<String>,
}

/* ------------------------------- journal ------------------------------- */

/// Where one data directory stands.
#[derive(PartialEq, Eq, Structural, Clone, Copy, Debug)]
pub enum EntryState {
    /// Not started.
    Pending,
    /// Copy or rename was in flight.
    Moving,
    /// Fully relocated to the destination (or confirmed absent from source).
    Moved,
}

/// One data directory's row.
#[derive(Debug)]
pub struct JournalEntry {
    pub kind: String,
    pub state: EntryState,
    pub bytes: u64,
}

/// The record of one migration, kept beside the root pointer.
#[derive(Debug)]
pub struct MigrationJournal {
    pub from: String,
    pub to: String,
    pub entries: Vec<JournalEntry>,
    pub committed: bool,
    pub started_at: String,
}

/// A row as plain values.
pub type Row = (Seq<char>, EntryState, nat);

pub open spec fn rows_view(v: Seq<JournalEntry>) -> Seq<Row> {
    v.map_values(|e: JournalEntry| (e.kind@, e.state, e.bytes as nat))
}

/// Every data directory of a root, in migration order.
pub open spec fn data_dirs() -> Seq<Seq<char>> {
    seq!["instances"@, "versions"@, "runtimes"@, "config"@, "cache"@]
}

/// The state of the first row for `kind` from index `k` on; a kind without
/// a row is pending.
pub open spec fn entry_from(rows: Seq<Row>, kind: Seq<char>, k: int) -> EntryState
    decreases rows.len() - k,
{
    if k < 0 || k >= rows.len() {
        EntryState::Pending
    } else if rows[k].0 == kind {
        rows[k].1
    } else {
        entry_from(rows, kind, k + 1)
    }
}

/// The index of the first row for `kind` from `k` on.
pub open spec fn row_index(rows: Seq<Row>, kind: Seq<char>, k: int) -> Option<int>
    decreases rows.len() - k,
{
    if k < 0 || k >= rows.len() {
        None
    } else if rows[k].0 == kind {
        Some(k)
    } else {
        row_index(rows, kind, k + 1)
    }
}

/// The rows after writing `state` and `bytes` into the first row for `kind`.
pub open spec fn set_spec(rows: Seq<Row>, kind: Seq<char>, state: EntryState, bytes: nat) -> Seq<Row> {
    match row_index(rows, kind, 0) {
        Some(i) => rows.update(i, (kind, state, bytes)),
        None => rows,
    }
}

/// The kinds of moved rows, in order.
pub open spec fn moved_kinds_spec(rows: Seq<Row>) -> Seq<Seq<char>>
    decreases rows.len(),
{
    if rows.len() == 0 {
        Seq::empty()
    } else if rows.last().1 == EntryState::Moved {
        moved_kinds_spec(rows.drop_last()).push(rows.last().0)
    } else {
        moved_kinds_spec(rows.drop_last())
    }
}

/// The bytes of moved rows.
pub open spec fn moved_bytes_spec(rows: Seq<Row>) -> nat
    decreases rows.len(),
{
    if rows.len() == 0 {
        0
    } else if rows.last().1 == EntryState::Moved {
        moved_bytes_spec(rows.drop_last()) + rows.last().2
    } else {
        moved_bytes_spec(rows.drop_last())
    }
}

/// Whether any row has progressed past pending.
pub open spec fn started_spec(rows: Seq<Row>) -> bool {
    exists|i: int| 0 <= i < rows.len() && rows[i].1 != EntryState::Pending
}

impl MigrationJournal {
    pub open spec fn rows(&self) -> Seq<Row> {
        rows_view(self.entries@)
    }

    /// A new journal for a move `from` → `to`: every data directory pending.
    pub fn fresh(from: String, to: String, started_at: String) -> (r: Self)
        ensures
            r.from@ == from@,
            r.to@ == to@,
            r.started_at@ == started_at@,
            !r.committed,
            r.rows() == data_dirs().map_values(|k: Seq<char>| (k, EntryState::Pending, 0nat)),
    {
        let names = ["instances", "versions", "runtimes", "config", "cache"];
        let mut entries: Vec<JournalEntry> = Vec::new();
        let mut i: usize = 0;
        while i < 5
            invariant
                i <= 5,
                names@ == seq!["instances", "versions", "runtimes", "config", "cache"],
                rows_view(entries@) == data_dirs().map_values(|k: Seq<char>| (k, EntryState::Pending, 0nat)).take(
                    i as int,
                ),
            decreases 5 - i,
        {
            let ghost before = entries@;
            entries.push(JournalEntry { kind: names[i].to_owned(), state: EntryState::Pending, bytes: 0 });
            assert(rows_view(entries@) =~= rows_view(before).push((names@[i as int]@, EntryState::Pending, 0nat)));
            assert(data_dirs().map_values(|k: Seq<char>| (k, EntryState::Pending, 0nat)).take(i + 1)
                =~= data_dirs().map_values(|k: Seq<char>| (k, EntryState::Pending, 0nat)).take(i as int).push(
                (names@[i as int]@, EntryState::Pending, 0nat),
            ));
            i += 1;
        }
        assert(data_dirs().map_values(|k: Seq<char>| (k, EntryState::Pending, 0nat)).take(5)
            =~= data_dirs().map_values(|k: Seq<char>| (k, EntryState::Pending, 0nat)));
        MigrationJournal { from, to, entries, committed: false, started_at }
    }

    fn find(&self, kind: &str) -> (r: Option<usize>)
        ensures
            match r {
                Some(i) => row_index(self.rows(), kind@, 0) == Some(i as int) && i < self.entries@.len(),
                None => row_index(self.rows(), kind@, 0).is_none(),
            },
    {
        let ghost rv = self.rows();
        let k = chars_of(kind);
        let mut i: usize = 0;
        while i < self.entries.len()
            invariant
                i <= self.entries.len(),
                rv == self.rows(),
                rv.len() == self.entries.len(),
                k@ == kind@,
                row_index(rv, kind@, 0) == row_index(rv, kind@, i as int),
            decreases self.entries.len() - i,
        {
            assert(rv[i as int].0 == self.entries@[i as int].kind@);
            if crate::text::chars_eq(&chars_of(self.entries[i].kind.as_str()), &k) {
                return Some(i);
            }
            i += 1;
        }
        None
    }

    /// The state of a data directory's row; pending when it has none.
    pub fn entry(&self, kind: &str) -> (r: EntryState)
        ensures
            r == entry_from(self.rows(), kind@, 0),
    {
        proof {
            lemma_entry_is_row(self.rows(), kind@, 0);
        }
        match self.find(kind) {
            Some(i) => self.entries[i].state,
            None => EntryState::Pending,
        }
    }

    /// Writes a data directory's state and byte count; a kind without a row
    /// changes nothing.
    pub fn set(&mut self, kind: &str, state: EntryState, bytes: u64)
        ensures
            final(self).rows() == set_spec(old(self).rows(), kind@, state, bytes as nat),
            final(self).from == old(self).from,
            final(self).to == old(self).to,
            final(self).committed == old(self).committed,
            final(self).started_at == old(self).started_at,
    {
        match self.find(kind) {
            Some(i) => {
                let ghost before = self.entries@;
                let k = self.entries[i].kind.clone();
                self.entries.set(i, JournalEntry { kind: k, state, bytes });
                proof {
                    lemma_row_index_found(rows_view(before), kind@, 0);
                    assert(rows_view(self.entries@) =~= rows_view(before).update(i as int, (kind@, state, bytes as nat)));
                }
            },
            None => {},
        }
    }

    /// The kinds already moved, in order, and their bytes.
    pub fn moved_kinds(&self) -> (r: (Vec<String>, u64))
        requires
            moved_bytes_spec(self.rows()) <= u64::MAX,
        ensures
            views(r.0@) == moved_kinds_spec(self.rows()),
            r.1 == moved_bytes_spec(self.rows()),
    {
        let ghost rv = self.rows();
        let mut kinds: Vec<String> = Vec::new();
        let mut bytes: u64 = 0;
        let mut i: usize = 0;
        while i < self.entries.len()
            invariant
                i <= self.entries.len(),
                rv == self.rows(),
                rv.len() == self.entries.len(),
                moved_bytes_spec(rv) <= u64::MAX,
                views(kinds@) == moved_kinds_spec(rv.take(i as int)),
                bytes == moved_bytes_spec(rv.take(i as int)),
            decreases self.entries.len() - i,
        {
            assert(rv.take(i + 1).drop_last() =~= rv.take(i as int));
            assert(rv[i as int] == (self.entries@[i as int].kind@, self.entries@[i as int].state, self.entries@[i as int].bytes as nat));
            proof {
                lemma_moved_bytes_prefix(rv, i + 1);
            }
            if self.entries[i].state == EntryState::Moved {
                let ghost before = kinds@;
                let k = self.entries[i].kind.clone();
                kinds.push(k);
                proof {
                    lemma_views_push(before, k);
                }
                bytes = bytes + self.entries[i].bytes;
            }
            i += 1;
        }
        assert(rv.take(i as int) =~= rv);
        (kinds, bytes)
    }

    /// True once any row has progressed past pending.
    pub fn started(&self) -> (r: bool)
        ensures
            r == started_spec(self.rows()),
    {
        let ghost rv = self.rows();
        let mut i: usize = 0;
        while i < self.entries.len()
            invariant
                i <= self.entries.len(),
                rv == self.rows(),
                rv.len() == self.entries.len(),
                forall|j: int| 0 <= j < i ==> rv[j].1 == EntryState::Pending,
            decreases self.entries.len() - i,
        {
            assert(rv[i as int].1 == self.entries@[i as int].state);
            if self.entries[i].state != EntryState::Pending {
                return true;
            }
            i += 1;
        }
        false
    }
}

proof fn lemma_entry_is_row(rows: Seq<Row>, kind: Seq<char>, k: int)
    requires
        0 <= k,
    ensures
        entry_from(rows, kind, k) == match row_index(rows, kind, k) {
            Some(i) => rows[i].1,
            None => EntryState::Pending,
        },
    decreases rows.len() - k,
{
    if k < rows.len() && rows[k].0 != kind {
        lemma_entry_is_row(rows, kind, k + 1);
    }
}

proof fn lemma_row_index_found(rows: Seq<Row>, kind: Seq<char>, k: int)
    requires
        0 <= k,
    ensures
        match row_index(rows, kind, k) {
            Some(i) => k <= i < rows.len() && rows[i].0 == kind && forall|j: int| k <= j < i ==> rows[j].0 != kind,
            None => forall|j: int| k <= j < rows.len() ==> rows[j].0 != kind,
        },
    decreases rows.len() - k,
{
    if k < rows.len() && rows[k].0 != kind {
        lemma_row_index_found(rows, kind, k + 1);
    }
}

proof fn lemma_moved_bytes_prefix(rows: Seq<Row>, n: int)
    requires
        0 <= n <= rows.len(),
    ensures
        moved_bytes_spec(rows.take(n)) <= moved_bytes_spec(rows),
    decreases rows.len() - n,
{
    if n < rows.len() {
        lemma_moved_bytes_prefix(rows, n + 1);
        assert(rows.take(n + 1).drop_last() =~= rows.take(n));
    } else {
        assert(rows.take(n) =~= rows);
    }
}

/* -------------------------------- laws -------------------------------- */

/// What is written into a row reads back: after `set`, the kind's state is
/// the one written, and every other kind's state is unchanged.
pub proof fn lemma_set_then_entry(rows: Seq<Row>, kind: Seq<char>, other: Seq<char>, state: EntryState, bytes: nat)
    requires
        row_index(rows, kind, 0).is_some(),
    ensures
        entry_from(set_spec(rows, kind, state, bytes), kind, 0) == state,
        other != kind ==> entry_from(set_spec(rows, kind, state, bytes), other, 0) == entry_from(rows, other, 0),
{
    let i = row_index(rows, kind, 0).unwrap();
    lemma_row_index_found(rows, kind, 0);
    let s = set_spec(rows, kind, state, bytes);
    lemma_row_index_found(s, kind, 0);
    lemma_entry_is_row(s, kind, 0);
    assert(s[i].0 == kind);
    assert forall|j: int| 0 <= j < i implies s[j].0 != kind by {
        assert(s[j] == rows[j]);
    }
    if row_index(s, kind, 0) != Some(i) {
        let m = row_index(s, kind, 0);
        if m.is_some() {
            let mm = m.unwrap();
            if mm < i {
                assert(s[mm] == rows[mm]);
            }
        }
    }
    if other != kind {
        lemma_entry_is_row(s, other, 0);
        lemma_entry_is_row(rows, other, 0);
        lemma_row_index_found(s, other, 0);
        lemma_row_index_found(rows, other, 0);
        assert forall|j: int| 0 <= j < rows.len() implies #[trigger] s[j].0 == rows[j].0 by {
            if j != i {
                assert(s[j] == rows[j]);
            }
        }
        assert forall|j: int| 0 <= j < rows.len() && j != i implies #[trigger] s[j] == rows[j] by {}
        match row_index(rows, other, 0) {
            Some(p) => {
                assert(s[p].0 == other);
                assert(p != i);
                if row_index(s, other, 0) != Some(p) {
                    match row_index(s, other, 0) {
                        Some(q) => {
                            if q < p {
                                assert(rows[q].0 == other);
                            } else {
                                assert(s[p].0 == other);
                            }
                        },
                        None => {
                            assert(s[p].0 == other);
                        },
                    }
                }
                assert(s[p] == rows[p]);
            },
            None => {
                match row_index(s, other, 0) {
                    Some(q) => {
                        assert(rows[q].0 == other);
                    },
                    None => {},
                }
            },
        }
    }
}

/// A fresh journal has not started and has moved nothing.
pub proof fn lemma_fresh_journal_is_untouched()
    ensures
        ({
            let rows = data_dirs().map_values(|k: Seq<char>| (k, EntryState::Pending, 0nat));
            &&& !started_spec(rows)
            &&& moved_kinds_spec(rows).len() == 0
            &&& moved_bytes_spec(rows) == 0
        }),
{
    let rows = data_dirs().map_values(|k: Seq<char>| (k, EntryState::Pending, 0nat));
    assert forall|i: int| 0 <= i < rows.len() implies rows[i].1 == EntryState::Pending by {}
    lemma_no_moved_rows(rows);
}

proof fn lemma_no_moved_rows(rows: Seq<Row>)
    requires
        forall|i: int| 0 <= i < rows.len() ==> rows[i].1 == EntryState::Pending,
    ensures
        moved_kinds_spec(rows).len() == 0,
        moved_bytes_spec(rows) == 0,
    decreases rows.len(),
{
    if rows.len() > 0 {
        assert(rows.last().1 == EntryState::Pending);
        lemma_no_moved_rows(rows.drop_last());
    }
}

/* ------------------------------ decisions ------------------------------ */

fn cat(parts: &[&str]) -> (r: String)
    ensures
        r@ == concat_strs(parts@.map_values(|p: &str| p@)),
{
    let ghost pv = parts@.map_values(|p: &str| p@);
    let mut out: Vec<char> = Vec::new();
    let mut i: usize = 0;
    while i < parts.len()
        invariant
            i <= parts.len(),
            pv == parts@.map_values(|p: &str| p@),
            out@ == concat_strs(pv.take(i as int)),
        decreases parts.len() - i,
    {
        assert(pv.take(i + 1).drop_last() =~= pv.take(i as int));
        out = concat_chars(&out, &chars_of(parts[i]));
        i += 1;
    }
    assert(pv.take(i as int) =~= pv);
    string_of(&out)
}

/// The concatenation of texts.
pub open spec fn concat_strs(parts: Seq<Seq<char>>) -> Seq<char>
    decreases parts.len(),
{
    if parts.len() == 0 {
        Seq::empty()
    } else {
        concat_strs(parts.drop_last()) + parts.last()
    }
}

pub open spec fn ambiguous_message(src: Seq<char>, dst: Seq<char>) -> Seq<char> {
    "迁移在目录落位时中断，无法确认 "@ + src + " 与 "@ + dst
        + " 哪一侧完整；已保留两侧数据和迁移记录，请核对后恢复"@
}

/// A row caught mid-move whose final destination exists cannot be resolved
/// automatically: which side is complete is unknown.
pub fn ensure_recovery_is_unambiguous(state: EntryState, src: &str, dst: &str, dst_exists: bool) -> (r: Result<(), String>)
    ensures
        match r {
            Ok(()) => !(state == EntryState::Moving && dst_exists),
            Err(e) => state == EntryState::Moving && dst_exists && e@ == ambiguous_message(src@, dst@),
        },
{
    if state == EntryState::Moving && dst_exists {
        let e = cat(&["迁移在目录落位时中断，无法确认 ", src, " 与 ", dst, " 哪一侧完整；已保留两侧数据和迁移记录，请核对后恢复"]);
        proof {
            reveal_with_fuel(concat_strs, 6);
        }
        assert(e@ =~= ambiguous_message(src@, dst@));
        return Err(e);
    }
    Ok(())
}

/// What the filesystem shows for one row's source and destination.
#[derive(Debug)]
pub struct EntryProbe {
    pub src: String,
    pub dst: String,
    pub src_exists: bool,
    pub dst_exists: bool,
}

pub open spec fn both_sides_message(kind: Seq<char>) -> Seq<char> {
    "源和目标都保留了 "@ + kind + "，无法确认源目录是否完整；已保留两侧数据和迁移记录，请核对后恢复"@
}

/// The first row, from `k` on, that makes an undo unsafe, with its message.
pub open spec fn undo_blocker(rows: Seq<Row>, probes: Seq<(Seq<char>, Seq<char>, bool, bool)>, k: int) -> Option<Seq<char>>
    decreases rows.len() - k,
{
    if k < 0 || k >= rows.len() || k >= probes.len() {
        None
    } else if rows[k].1 == EntryState::Moving && probes[k].3 {
        Some(ambiguous_message(probes[k].0, probes[k].1))
    } else if rows[k].1 == EntryState::Moved && probes[k].2 && probes[k].3 {
        Some(both_sides_message(rows[k].0))
    } else {
        undo_blocker(rows, probes, k + 1)
    }
}

pub open spec fn probes_view(v: Seq<EntryProbe>) -> Seq<(Seq<char>, Seq<char>, bool, bool)> {
    v.map_values(|p: EntryProbe| (p.src@, p.dst@, p.src_exists, p.dst_exists))
}

/// Whether an undo may start: never for a committed migration, and not
/// while any row is ambiguous. Checked for every row before the first
/// directory is touched.
pub fn undo_preflight(journal: &MigrationJournal, probes: &Vec<EntryProbe>) -> (r: Result<(), String>)
    requires
        probes@.len() == journal.entries@.len(),
    ensures
        match r {
            Ok(()) => !journal.committed && undo_blocker(journal.rows(), probes_view(probes@), 0).is_none(),
            Err(e) => if journal.committed {
                e@ == "迁移已完成提交，不能整体撤销"@
            } else {
                undo_blocker(journal.rows(), probes_view(probes@), 0) == Some(e@)
            },
        },
{
    if journal.committed {
        return Err("迁移已完成提交，不能整体撤销".to_owned());
    }
    let ghost rv = journal.rows();
    let ghost pv = probes_view(probes@);
    let mut i: usize = 0;
    while i < journal.entries.len()
        invariant
            i <= journal.entries.len(),
            rv == journal.rows(),
            pv == probes_view(probes@),
            rv.len() == journal.entries.len(),
            pv.len() == probes@.len(),
            probes@.len() == journal.entries@.len(),
            !journal.committed,
            undo_blocker(rv, pv, 0) == undo_blocker(rv, pv, i as int),
        decreases journal.entries.len() - i,
    {
        let e = &journal.entries[i];
        let p = &probes[i];
        assert(rv[i as int] == (e.kind@, e.state, e.bytes as nat));
        assert(pv[i as int] == (p.src@, p.dst@, p.src_exists, p.dst_exists));
        ensure_recovery_is_unambiguous(e.state, p.src.as_str(), p.dst.as_str(), p.dst_exists)?;
        if e.state == EntryState::Moved && p.src_exists && p.dst_exists {
            let m = cat(&["源和目标都保留了 ", e.kind.as_str(), "，无法确认源目录是否完整；已保留两侧数据和迁移记录，请核对后恢复"]);
            proof {
                reveal_with_fuel(concat_strs, 4);
            }
            assert(m@ =~= both_sides_message(e.kind@));
            return Err(m);
        }
        i += 1;
    }
    Ok(())
}

/// What a migration does with the journal it finds.
#[derive(Debug)]
pub enum ResumePlan {
    /// The same move already committed: report what it moved.
    Finished,
    /// The same move, interrupted: continue it.
    Resume,
    /// Another move is unfinished: it must be resolved first.
    Refuse(String),
    /// No journal: start a fresh one.
    Fresh,
}

pub open spec fn other_move_message(from: Seq<char>, to: Seq<char>) -> Seq<char> {
    "存在未完成的迁移 "@ + from + " → "@ + to + "，请先在设置中继续或撤销它"@
}

/// Resume or start: a committed journal of the same pair is finished
/// business, an open one of the same pair resumes, a journal of any other
/// pair is refused, and no journal starts fresh. `same_from` and `same_to`
/// say whether the journal's ends are the requested ones.
pub fn resume_plan(existing: Option<&MigrationJournal>, same_from: bool, same_to: bool) -> (r: ResumePlan)
    ensures
        match existing {
            None => r is Fresh,
            Some(j) => if same_from && same_to {
                if j.committed {
                    r is Finished
                } else {
                    r is Resume
                }
            } else {
                r matches ResumePlan::Refuse(m) && m@ == other_move_message(j.from@, j.to@)
            },
        },
{
    match existing {
        None => ResumePlan::Fresh,
        Some(j) => {
            if same_from && same_to {
                if j.committed {
                    ResumePlan::Finished
                } else {
                    ResumePlan::Resume
                }
            } else {
                let m = cat(&["存在未完成的迁移 ", j.from.as_str(), " → ", j.to.as_str(), "，请先在设置中继续或撤销它"]);
                proof {
                    reveal_with_fuel(concat_strs, 6);
                }
                assert(m@ =~= other_move_message(j.from@, j.to@));
                ResumePlan::Refuse(m)
            }
        },
    }
}

pub open spec fn nonempty_target_message(dst: Seq<char>) -> Seq<char> {
    "目标已存在非空目录 "@ + dst + " —— 请改用一个空目录"@
}

/// The destination check for one data directory before anything moves: an
/// ambiguous row is refused; a row already moved or mid-move, or a
/// directory the source does not have, passes; otherwise its destination
/// must be absent or empty.
pub fn destination_preflight(
    state: EntryState,
    src: &str,
    dst: &str,
    src_exists: bool,
    dst_exists: bool,
    dst_nonempty: bool,
) -> (r: Result<(), String>)
    ensures
        match r {
            Ok(()) => !(state == EntryState::Moving && dst_exists) && (state == EntryState::Pending && src_exists
                ==> !(dst_exists && dst_nonempty)),
            Err(e) => if state == EntryState::Moving && dst_exists {
                e@ == ambiguous_message(src@, dst@)
            } else {
                state == EntryState::Pending && src_exists && dst_exists && dst_nonempty && e@
                    == nonempty_target_message(dst@)
            },
        },
{
    ensure_recovery_is_unambiguous(state, src, dst, dst_exists)?;
    if state == EntryState::Moved || state == EntryState::Moving || !src_exists {
        return Ok(());
    }
    if dst_exists && dst_nonempty {
        let m = cat(&["目标已存在非空目录 ", dst, " —— 请改用一个空目录"]);
        proof {
            reveal_with_fuel(concat_strs, 4);
        }
        assert(m@ =~= nonempty_target_message(dst@));
        return Err(m);
    }
    Ok(())
}

/// What is known of one data directory's two sides before a move.
#[derive(Debug)]
pub struct DestProbe {
    pub kind: String,
    pub src: String,
    pub dst: String,
    pub src_exists: bool,
    pub dst_exists: bool,
    pub dst_nonempty: bool,
}

/// Why one directory's destination refuses the move, if it does (the
/// refusals of [`destination_preflight`]).
pub open spec fn dest_refusal(state: EntryState, p: DestProbe) -> Option<Seq<char>> {
    if state == EntryState::Moving && p.dst_exists {
        Some(ambiguous_message(p.src@, p.dst@))
    } else if state == EntryState::Pending && p.src_exists && p.dst_exists && p.dst_nonempty {
        Some(nonempty_target_message(p.dst@))
    } else {
        None
    }
}

/// The first refusing directory from `k` on.
pub open spec fn first_dest_refusal(rows: Seq<Row>, probes: Seq<DestProbe>, k: int) -> Option<Seq<char>>
    decreases probes.len() - k,
{
    if k < 0 || k >= probes.len() {
        None
    } else {
        match dest_refusal(entry_from(rows, probes[k].kind@, 0), probes[k]) {
            Some(m) => Some(m),
            None => first_dest_refusal(rows, probes, k + 1),
        }
    }
}

/// Every destination is checked before the first directory moves: the
/// move starts only when no directory refuses, and otherwise stops on the
/// first that does, before anything is touched.
pub fn destinations_preflight(journal: &MigrationJournal, probes: &Vec<DestProbe>) -> (r: Result<(), String>)
    ensures
        match r {
            Ok(()) => first_dest_refusal(journal.rows(), probes@, 0).is_none(),
            Err(e) => first_dest_refusal(journal.rows(), probes@, 0) == Some(e@),
        },
{
    let mut k: usize = 0;
    while k < probes.len()
        invariant
            k <= probes.len(),
            first_dest_refusal(journal.rows(), probes@, 0) == first_dest_refusal(journal.rows(), probes@, k as int),
        decreases probes.len() - k,
    {
        let p = &probes[k];
        let state = journal.entry(p.kind.as_str());
        match destination_preflight(state, p.src.as_str(), p.dst.as_str(), p.src_exists, p.dst_exists, p.dst_nonempty) {
            Err(e) => {
                assert(dest_refusal(state, *p) == Some(e@));
                return Err(e);
            },
            Ok(()) => {
                assert(dest_refusal(state, *p).is_none());
            },
        }
        k += 1;
    }
    Ok(())
}

/// Records a directory's arrival: its row becomes moved with the bytes it
/// carried. A directory the old root never had is recorded as moved with
/// no bytes but is not listed among the moved ones; one that did move is
/// listed and its bytes are counted.
pub fn record_arrival(
    journal: &mut MigrationJournal,
    moved: &mut Vec<String>,
    total: &mut u64,
    kind: &str,
    src_existed: bool,
    bytes: u64,
)
    requires
        src_existed ==> *old(total) + bytes <= u64::MAX,
    ensures
        final(journal).rows() == set_spec(
            old(journal).rows(),
            kind@,
            EntryState::Moved,
            if src_existed {
                bytes as nat
            } else {
                0
            },
        ),
        final(journal).from == old(journal).from,
        final(journal).to == old(journal).to,
        final(journal).committed == old(journal).committed,
        final(journal).started_at == old(journal).started_at,
        views(final(moved)@) == (if src_existed {
            views(old(moved)@).push(kind@)
        } else {
            views(old(moved)@)
        }),
        *final(total) == (if src_existed {
            *old(total) + bytes
        } else {
            *old(total) as int
        }),
{
    if src_existed {
        let ghost before = moved@;
        let k = kind.to_owned();
        let ghost kg = k;
        moved.push(k);
        proof {
            crate::text::lemma_views_push(before, kg);
        }
        *total = *total + bytes;
        journal.set(kind, EntryState::Moved, bytes);
    } else {
        journal.set(kind, EntryState::Moved, 0);
    }
}

/// Whether a committed journal left behind may be retired before a new
/// move: only when the current root is that journal's destination, the new
/// move starts from it, and it is not the same move again.
pub fn should_retire(committed: bool, root_is_its_to: bool, from_is_root: bool, from_is_its_from: bool, to_is_its_to: bool) -> (r: bool)
    ensures
        r == (committed && root_is_its_to && from_is_root && !(from_is_its_from && to_is_its_to)),
{
    committed && root_is_its_to && from_is_root && !(from_is_its_from && to_is_its_to)
}

/// Where the root pointer goes after a migration: nowhere for a cancelled
/// one; the journal's destination when the journal is committed and names
/// this destination; with no journal kept, the requested destination.
pub fn commit_target(cancelled: bool, journal: Option<&MigrationJournal>, journal_kept: bool, same_to: bool, to: &str) -> (r: Result<Option<String>, String>)
    ensures
        match r {
            Ok(None) => cancelled,
            Ok(Some(t)) => !cancelled && if journal_kept {
                journal.is_some() && journal.unwrap().committed && same_to && t@ == journal.unwrap().to@
            } else {
                t@ == to@
            },
            Err(e) => !cancelled && journal_kept && if journal.is_none() {
                e@ == "迁移记录缺失，无法确认目标目录"@
            } else {
                !(journal.unwrap().committed && same_to) && e@ == "迁移记录与目标不一致，未切换数据目录"@
            },
        },
{
    if cancelled {
        return Ok(None);
    }
    if !journal_kept {
        return Ok(Some(to.to_owned()));
    }
    match journal {
        None => Err("迁移记录缺失，无法确认目标目录".to_owned()),
        Some(j) => {
            if !j.committed || !same_to {
                Err("迁移记录与目标不一致，未切换数据目录".to_owned())
            } else {
                Ok(Some(j.to.clone()))
            }
        },
    }
}

/// The finish step: only a committed journal's destination is adopted.
pub fn finish_target(journal: Option<&MigrationJournal>) -> (r: Result<String, String>)
    ensures
        match r {
            Ok(t) => journal.is_some() && journal.unwrap().committed && t@ == journal.unwrap().to@,
            Err(e) => if journal.is_none() {
                e@ == "迁移记录不存在，无法确认"@
            } else {
                !journal.unwrap().committed && e@ == "迁移尚未完成数据搬运，请继续迁移或撤销"@
            },
        },
{
    match journal {
        None => Err("迁移记录不存在，无法确认".to_owned()),
        Some(j) => {
            if !j.committed {
                Err("迁移尚未完成数据搬运，请继续迁移或撤销".to_owned())
            } else {
                Ok(j.to.clone())
            }
        },
    }
}

/* ---------------------------- the move loop ---------------------------- */

/// What a migration run does next.
#[derive(Debug)]
pub enum MoveAction {
    /// The cancel flag is set: stop and report what has arrived so far.
    Stop,
    /// Move this data directory; `redo` when it was caught mid-move, so an
    /// interrupted staging copy of it may be left to discard first.
    Move { kind: String, redo: bool },
    /// Every data directory has arrived: commit the journal.
    Commit,
}

/// The first data directory, from position `k` of the migration order on,
/// that has not arrived yet.
pub open spec fn first_unmoved(rows: Seq<Row>, k: int) -> Option<int>
    decreases 5 - k,
{
    if k < 0 || k >= 5 {
        None
    } else if entry_from(rows, data_dirs()[k], 0) != EntryState::Moved {
        Some(k)
    } else {
        first_unmoved(rows, k + 1)
    }
}

/// How many data directories, from position `k` on, have not arrived.
pub open spec fn unmoved_count(rows: Seq<Row>, k: int) -> nat
    decreases 5 - k,
{
    if k < 0 || k >= 5 {
        0
    } else {
        unmoved_count(rows, k + 1) + if entry_from(rows, data_dirs()[k], 0) != EntryState::Moved {
            1nat
        } else {
            0nat
        }
    }
}

/// Decides a migration run's next step from its journal.
pub fn next_move_action(journal: &MigrationJournal, cancelled: bool) -> (r: MoveAction)
    ensures
        cancelled ==> r is Stop,
        !cancelled ==> match first_unmoved(journal.rows(), 0) {
            Some(i) => r matches MoveAction::Move { kind, redo } && kind@ == data_dirs()[i] && redo == (entry_from(
                journal.rows(),
                data_dirs()[i],
                0,
            ) == EntryState::Moving),
            None => r is Commit,
        },
{
    if cancelled {
        return MoveAction::Stop;
    }
    let names = ["instances", "versions", "runtimes", "config", "cache"];
    let mut k: usize = 0;
    while k < 5
        invariant
            k <= 5,
            names@ == seq!["instances", "versions", "runtimes", "config", "cache"],
            first_unmoved(journal.rows(), 0) == first_unmoved(journal.rows(), k as int),
            !cancelled,
        decreases 5 - k,
    {
        assert(names@[k as int]@ == data_dirs()[k as int]);
        let state = journal.entry(names[k]);
        if state != EntryState::Moved {
            return MoveAction::Move { kind: names[k].to_owned(), redo: state == EntryState::Moving };
        }
        k += 1;
    }
    MoveAction::Commit
}

/// A run commits only once every data directory has arrived.
pub proof fn lemma_commit_means_everything_arrived(rows: Seq<Row>)
    requires
        first_unmoved(rows, 0).is_none(),
    ensures
        forall|i: int| 0 <= i < 5 ==> entry_from(rows, #[trigger] data_dirs()[i], 0) == EntryState::Moved,
{
    assert forall|i: int| 0 <= i < 5 implies entry_from(rows, #[trigger] data_dirs()[i], 0) == EntryState::Moved by {
        lemma_first_unmoved_none(rows, 0, i);
    }
}

proof fn lemma_first_unmoved_none(rows: Seq<Row>, k: int, i: int)
    requires
        0 <= k <= i < 5,
        first_unmoved(rows, k).is_none(),
    ensures
        entry_from(rows, data_dirs()[i], 0) == EntryState::Moved,
    decreases i - k,
{
    if k < i {
        lemma_first_unmoved_none(rows, k + 1, i);
    }
}

proof fn lemma_unmoved_count_after_set(rows: Seq<Row>, kind: Seq<char>, bytes: nat, k: int)
    requires
        row_index(rows, kind, 0).is_some(),
        0 <= k <= 5,
    ensures
        unmoved_count(set_spec(rows, kind, EntryState::Moved, bytes), k) <= unmoved_count(rows, k),
        (exists|i: int| k <= i < 5 && data_dirs()[i] == kind && entry_from(rows, kind, 0) != EntryState::Moved)
            ==> unmoved_count(set_spec(rows, kind, EntryState::Moved, bytes), k) < unmoved_count(rows, k),
    decreases 5 - k,
{
    if k < 5 {
        lemma_unmoved_count_after_set(rows, kind, bytes, k + 1);
        lemma_set_then_entry(rows, kind, data_dirs()[k], EntryState::Moved, bytes);
        if exists|i: int| k <= i < 5 && data_dirs()[i] == kind && entry_from(rows, kind, 0) != EntryState::Moved {
            let i = choose|i: int| k <= i < 5 && data_dirs()[i] == kind && entry_from(rows, kind, 0) != EntryState::Moved;
            if i > k {
                assert(exists|i2: int| k + 1 <= i2 < 5 && data_dirs()[i2] == kind && entry_from(rows, kind, 0) != EntryState::Moved);
            }
        }
    }
}

/// Every step makes progress: the directory a run moves has not arrived,
/// and recording its arrival leaves one fewer directory to move, so a run
/// reaches its commit after at most five moves.
pub proof fn lemma_each_move_makes_progress(rows: Seq<Row>, bytes: nat)
    requires
        first_unmoved(rows, 0).is_some(),
        forall|i: int| 0 <= i < 5 ==> row_index(rows, #[trigger] data_dirs()[i], 0).is_some(),
    ensures
        ({
            let kind = data_dirs()[first_unmoved(rows, 0).unwrap()];
            &&& entry_from(rows, kind, 0) != EntryState::Moved
            &&& unmoved_count(set_spec(rows, kind, EntryState::Moved, bytes), 0) < unmoved_count(rows, 0)
        }),
{
    let i = first_unmoved(rows, 0).unwrap();
    lemma_first_unmoved_some(rows, 0);
    let kind = data_dirs()[i];
    assert(row_index(rows, kind, 0).is_some());
    lemma_unmoved_count_after_set(rows, kind, bytes, 0);
}

proof fn lemma_first_unmoved_some(rows: Seq<Row>, k: int)
    requires
        0 <= k,
        first_unmoved(rows, k).is_some(),
    ensures
        k <= first_unmoved(rows, k).unwrap() < 5,
        entry_from(rows, data_dirs()[first_unmoved(rows, k).unwrap()], 0) != EntryState::Moved,
    decreases 5 - k,
{
    if k < 5 && entry_from(rows, data_dirs()[k], 0) == EntryState::Moved {
        lemma_first_unmoved_some(rows, k + 1);
    }
}

/// The data directories from position `k` of the migration order on that
/// have not arrived and satisfy `keep`, in that order.
pub open spec fn unmoved_where(rows: Seq<Row>, keep: spec_fn(Seq<char>) -> bool, k: int) -> Seq<Seq<char>>
    decreases 5 - k,
{
    if k < 0 || k >= 5 {
        Seq::empty()
    } else if entry_from(rows, data_dirs()[k], 0) != EntryState::Moved && keep(data_dirs()[k]) {
        seq![data_dirs()[k]] + unmoved_where(rows, keep, k + 1)
    } else {
        unmoved_where(rows, keep, k + 1)
    }
}

/// Every directory name.
pub open spec fn any_dir() -> spec_fn(Seq<char>) -> bool {
    |kind: Seq<char>| true
}

/// A migration run in which every move goes through, for at most `fuel`
/// steps, as [`next_move_action`] picks the next directory and
/// [`record_arrival`] records it: the directories moved, in order; those
/// of them the old root had (`present`), which the summary lists; and the
/// rows it ends with. `bytes` gives what each move carried.
pub open spec fn move_run(
    rows: Seq<Row>,
    present: spec_fn(Seq<char>) -> bool,
    bytes: spec_fn(Seq<char>) -> nat,
    fuel: nat,
) -> (Seq<Seq<char>>, Seq<Seq<char>>, Seq<Row>)
    decreases fuel,
{
    if fuel == 0 {
        (Seq::empty(), Seq::empty(), rows)
    } else {
        match first_unmoved(rows, 0) {
            None => (Seq::empty(), Seq::empty(), rows),
            Some(i) => {
                let kind = data_dirs()[i];
                let next = set_spec(rows, kind, EntryState::Moved, if present(kind) { bytes(kind) } else { 0 });
                let rest = move_run(next, present, bytes, (fuel - 1) as nat);
                (
                    seq![kind] + rest.0,
                    if present(kind) { seq![kind] + rest.1 } else { rest.1 },
                    rest.2,
                )
            },
        }
    }
}

proof fn lemma_row_index_same_kinds(a: Seq<Row>, b: Seq<Row>, kind: Seq<char>, k: int)
    requires
        a.len() == b.len(),
        forall|j: int| 0 <= j < a.len() ==> a[j].0 == b[j].0,
    ensures
        row_index(a, kind, k) == row_index(b, kind, k),
    decreases a.len() - k,
{
    if 0 <= k < a.len() {
        lemma_row_index_same_kinds(a, b, kind, k + 1);
    }
}

proof fn lemma_data_dirs_distinct(i: int, j: int)
    requires
        0 <= i < 5,
        0 <= j < 5,
        i != j,
    ensures
        data_dirs()[i] != data_dirs()[j],
{
    reveal_strlit("instances");
    reveal_strlit("versions");
    reveal_strlit("runtimes");
    reveal_strlit("config");
    reveal_strlit("cache");
    assert(data_dirs()[i][0] != data_dirs()[j][0] || data_dirs()[i].len() != data_dirs()[j].len());
}

proof fn lemma_unmoved_after_set(rows: Seq<Row>, keep: spec_fn(Seq<char>) -> bool, i: int, b: nat, k: int)
    requires
        0 <= i < 5,
        row_index(rows, data_dirs()[i], 0).is_some(),
        i < k,
    ensures
        unmoved_where(set_spec(rows, data_dirs()[i], EntryState::Moved, b), keep, k) == unmoved_where(rows, keep, k),
    decreases 5 - k,
{
    if k < 5 {
        lemma_unmoved_after_set(rows, keep, i, b, k + 1);
        lemma_data_dirs_distinct(i, k);
        lemma_set_then_entry(rows, data_dirs()[i], data_dirs()[k], EntryState::Moved, b);
    }
}

proof fn lemma_unmoved_first(rows: Seq<Row>, keep: spec_fn(Seq<char>) -> bool, k: int)
    requires
        0 <= k <= 5,
    ensures
        match first_unmoved(rows, k) {
            None => unmoved_where(rows, keep, k) == Seq::<Seq<char>>::empty(),
            Some(i) => unmoved_where(rows, keep, k) == (if keep(data_dirs()[i]) {
                seq![data_dirs()[i]] + unmoved_where(rows, keep, i + 1)
            } else {
                unmoved_where(rows, keep, i + 1)
            }) && forall|j: int| k <= j < i ==> entry_from(rows, #[trigger] data_dirs()[j], 0) == EntryState::Moved,
        },
    decreases 5 - k,
{
    if k < 5 {
        lemma_unmoved_first(rows, keep, k + 1);
    }
}

proof fn lemma_unmoved_moved_prefix(rows: Seq<Row>, keep: spec_fn(Seq<char>) -> bool, i: int, b: nat, k: int)
    requires
        0 <= k <= i < 5,
        row_index(rows, data_dirs()[i], 0).is_some(),
        forall|j: int| k <= j < i ==> entry_from(rows, #[trigger] data_dirs()[j], 0) == EntryState::Moved,
    ensures
        unmoved_where(set_spec(rows, data_dirs()[i], EntryState::Moved, b), keep, k) == unmoved_where(rows, keep, i + 1),
    decreases i - k,
{
    lemma_set_then_entry(rows, data_dirs()[i], data_dirs()[k], EntryState::Moved, b);
    if k < i {
        lemma_data_dirs_distinct(i, k);
        assert(entry_from(rows, data_dirs()[k], 0) == EntryState::Moved);
        lemma_unmoved_moved_prefix(rows, keep, i, b, k + 1);
    } else {
        lemma_unmoved_after_set(rows, keep, i, b, i + 1);
    }
}

/// Resuming a migration moves exactly the data directories the journal
/// does not record as arrived, each once and in the migration order, lists
/// among them exactly those the old root had, and then commits with every
/// directory arrived: a directory that arrived before the interruption is
/// never moved again. The run is the one [`next_move_action`] and
/// [`record_arrival`] drive, every move going through.
pub proof fn lemma_resumed_run_moves_the_rest(
    rows: Seq<Row>,
    present: spec_fn(Seq<char>) -> bool,
    bytes: spec_fn(Seq<char>) -> nat,
    fuel: nat,
)
    requires
        forall|i: int| 0 <= i < 5 ==> row_index(rows, #[trigger] data_dirs()[i], 0).is_some(),
        unmoved_count(rows, 0) <= fuel,
    ensures
        move_run(rows, present, bytes, fuel).0 == unmoved_where(rows, any_dir(), 0),
        move_run(rows, present, bytes, fuel).1 == unmoved_where(rows, present, 0),
        first_unmoved(move_run(rows, present, bytes, fuel).2, 0) is None,
    decreases fuel,
{
    lemma_unmoved_first(rows, any_dir(), 0);
    lemma_unmoved_first(rows, present, 0);
    match first_unmoved(rows, 0) {
        None => {},
        Some(i) => {
            lemma_first_unmoved_some(rows, 0);
            let kind = data_dirs()[i];
            let b = if present(kind) { bytes(kind) } else { 0 };
            let next = set_spec(rows, kind, EntryState::Moved, b);
            lemma_each_move_makes_progress(rows, b);
            lemma_row_index_found(rows, kind, 0);
            assert forall|j: int| 0 <= j < rows.len() implies rows[j].0 == next[j].0 by {}
            assert forall|m: int| 0 <= m < 5 implies row_index(next, #[trigger] data_dirs()[m], 0).is_some() by {
                lemma_row_index_same_kinds(rows, next, data_dirs()[m], 0);
            }
            lemma_unmoved_moved_prefix(rows, any_dir(), i, b, 0);
            lemma_unmoved_moved_prefix(rows, present, i, b, 0);
            lemma_resumed_run_moves_the_rest(next, present, bytes, (fuel - 1) as nat);
        },
    }
}

pub open spec fn staged_mismatch_message(src: Seq<char>, bytes: nat, staged: nat) -> Seq<char> {
    src + " 的暂存副本校验不一致（源 "@ + crate::decimal::dec_digits(bytes) + " 字节，暂存 "@
        + crate::decimal::dec_digits(staged) + " 字节），已中止"@
}

/// A staged copy is placed only when its size equals the source's.
pub fn staged_size_check(src: &str, bytes: u64, staged: u64) -> (r: Result<(), String>)
    ensures
        match r {
            Ok(()) => staged == bytes,
            Err(e) => staged != bytes && e@ == staged_mismatch_message(src@, bytes as nat, staged as nat),
        },
{
    if staged == bytes {
        return Ok(());
    }
    let a = concat_chars(&chars_of(src), &chars_of(" 的暂存副本校验不一致（源 "));
    let b = concat_chars(&concat_chars(&a, &crate::decimal::decimal_chars(bytes)), &chars_of(" 字节，暂存 "));
    let c = concat_chars(&concat_chars(&b, &crate::decimal::decimal_chars(staged)), &chars_of(" 字节），已中止"));
    Err(string_of(&c))
}

/* ------------------------------ the undo loop ------------------------------ */

/// The kinds an undo moves back, in journal order: every row that left the
/// source and whose data is at the destination.
pub open spec fn returned_kinds(rows: Seq<Row>, probes: Seq<(Seq<char>, Seq<char>, bool, bool)>) -> Seq<Seq<char>>
    decreases rows.len(),
{
    if rows.len() == 0 || probes.len() < rows.len() {
        Seq::empty()
    } else {
        let n = rows.len() - 1;
        let p = returned_kinds(rows.drop_last(), probes);
        if rows[n].1 != EntryState::Pending && probes[n].3 {
            p.push(rows[n].0)
        } else {
            p
        }
    }
}

/// An undo's plan: refused as [`undo_preflight`] refuses, otherwise the
/// kinds to move back, in journal order.
pub fn undo_plan(journal: &MigrationJournal, probes: &Vec<EntryProbe>) -> (r: Result<Vec<String>, String>)
    requires
        probes@.len() == journal.entries@.len(),
    ensures
        match r {
            Ok(k) => !journal.committed && undo_blocker(journal.rows(), probes_view(probes@), 0).is_none() && views(k@)
                == returned_kinds(journal.rows(), probes_view(probes@)),
            Err(e) => if journal.committed {
                e@ == "迁移已完成提交，不能整体撤销"@
            } else {
                undo_blocker(journal.rows(), probes_view(probes@), 0) == Some(e@)
            },
        },
{
    undo_preflight(journal, probes)?;
    let ghost rv = journal.rows();
    let ghost pv = probes_view(probes@);
    let mut out: Vec<String> = Vec::new();
    let mut i: usize = 0;
    while i < journal.entries.len()
        invariant
            i <= journal.entries.len(),
            rv == journal.rows(),
            pv == probes_view(probes@),
            rv.len() == journal.entries.len(),
            pv.len() == probes@.len(),
            probes@.len() == journal.entries@.len(),
            views(out@) == returned_kinds(rv.take(i as int), pv),
        decreases journal.entries.len() - i,
    {
        let e = &journal.entries[i];
        assert(rv[i as int] == (e.kind@, e.state, e.bytes as nat));
        assert(rv.take(i + 1).drop_last() =~= rv.take(i as int));
        let ghost before = out@;
        if e.state != EntryState::Pending && probes[i].dst_exists {
            let k = e.kind.clone();
            let ghost kg = k;
            out.push(k);
            proof {
                crate::text::lemma_views_push(before, kg);
            }
        }
        i += 1;
    }
    assert(rv.take(i as int) =~= rv);
    Ok(out)
}

proof fn lemma_no_blocker_at(rows: Seq<Row>, probes: Seq<(Seq<char>, Seq<char>, bool, bool)>, j: int, k: int)
    requires
        0 <= j <= k,
        k < rows.len(),
        k < probes.len(),
        undo_blocker(rows, probes, j).is_none(),
    ensures
        !(rows[k].1 == EntryState::Moving && probes[k].3),
        !(rows[k].1 == EntryState::Moved && probes[k].2 && probes[k].3),
    decreases k - j,
{
    if j < k {
        lemma_no_blocker_at(rows, probes, j + 1, k);
    }
}

proof fn lemma_returned_is_moved(rows: Seq<Row>, probes: Seq<(Seq<char>, Seq<char>, bool, bool)>)
    requires
        probes.len() >= rows.len(),
        forall|i: int| 0 <= i < rows.len() ==> !(#[trigger] rows[i].1 == EntryState::Moving && probes[i].3),
        forall|i: int| 0 <= i < rows.len() && #[trigger] rows[i].1 == EntryState::Moved ==> probes[i].3,
    ensures
        returned_kinds(rows, probes) == moved_kinds_spec(rows),
    decreases rows.len(),
{
    if rows.len() > 0 {
        let r2 = rows.drop_last();
        assert forall|i: int| 0 <= i < r2.len() implies !(#[trigger] r2[i].1 == EntryState::Moving && probes[i].3) by {
            assert(r2[i] == rows[i]);
        }
        assert forall|i: int| 0 <= i < r2.len() && #[trigger] r2[i].1 == EntryState::Moved implies probes[i].3 by {
            assert(r2[i] == rows[i]);
        }
        lemma_returned_is_moved(r2, probes);
        let n = rows.len() - 1;
        assert(rows.last() == rows[n]);
    }
}

/// An undo gives back everything the migration moved: when no row blocks
/// it and every row recorded as moved still has its data at the
/// destination, the kinds it moves back are exactly the moved ones.
pub proof fn lemma_undo_returns_everything_moved(rows: Seq<Row>, probes: Seq<(Seq<char>, Seq<char>, bool, bool)>)
    requires
        probes.len() == rows.len(),
        undo_blocker(rows, probes, 0).is_none(),
        forall|i: int| 0 <= i < rows.len() && #[trigger] rows[i].1 == EntryState::Moved ==> probes[i].3,
    ensures
        returned_kinds(rows, probes) == moved_kinds_spec(rows),
{
    assert forall|i: int| 0 <= i < rows.len() implies !(#[trigger] rows[i].1 == EntryState::Moving && probes[i].3) by {
        lemma_no_blocker_at(rows, probes, 0, i);
    }
    lemma_returned_is_moved(rows, probes);
}

/// An undo that passed its preflight runs to its end on an unchanged disk:
/// no row stops it (the source of an arrived row is never found back in
/// place), and every row it moves back, one that left the source and whose
/// data arrived, is one the journal records as fully moved.
pub proof fn lemma_undo_after_preflight(rows: Seq<Row>, probes: Seq<(Seq<char>, Seq<char>, bool, bool)>, k: int)
    requires
        undo_blocker(rows, probes, 0).is_none(),
        0 <= k < rows.len(),
        k < probes.len(),
    ensures
        !(rows[k].1 != EntryState::Pending && probes[k].3 && probes[k].2),
        (rows[k].1 != EntryState::Pending && probes[k].3) ==> rows[k].1 == EntryState::Moved,
{
    lemma_no_blocker_at(rows, probes, 0, k);
}



pub open spec fn source_exists_message(back: Seq<char>) -> Seq<char> {
    "源目录 "@ + back + " 已存在，已保留目标副本"@
}

/// One row of an undo: a pending row never left the source and is skipped;
/// otherwise whatever arrived in the destination goes back, unless the
/// source directory has meanwhile reappeared, which stops the undo with
/// both copies kept. `Ok(true)` means move it back.
pub fn undo_row(state: EntryState, arrived: bool, back_exists: bool, back: &str) -> (r: Result<bool, String>)
    ensures
        match r {
            Ok(go) => go == (state != EntryState::Pending && arrived) && !(state != EntryState::Pending && arrived
                && back_exists),
            Err(e) => state != EntryState::Pending && arrived && back_exists && e@ == source_exists_message(back@),
        },
{
    if state == EntryState::Pending || !arrived {
        return Ok(false);
    }
    if back_exists {
        return Err(string_of(&concat_chars(&concat_chars(&chars_of("源目录 "), &chars_of(back)), &chars_of(" 已存在，已保留目标副本"))));
    }
    Ok(true)
}

/* ----------------------------- nested roots ----------------------------- */

/// The segments of a path that name something: empty segments (doubled or
/// trailing separators) and `.` segments drop out.
pub open spec fn kept_segments(segs: Seq<Seq<char>>) -> Seq<Seq<char>>
    decreases segs.len(),
{
    if segs.len() == 0 {
        Seq::empty()
    } else {
        let p = kept_segments(segs.drop_last());
        let g = segs.last();
        if g.len() > 0 && g != seq!['.'] {
            p.push(g)
        } else {
            p
        }
    }
}

/// A path's components as `std::path::Path` reads them with separator
/// `sep`: a root when the path starts with the separator, a leading `.`
/// when a relative path starts with one, then the named segments.
pub open spec fn path_components(p: Seq<char>, sep: char) -> Seq<Seq<char>> {
    let segs = crate::plugins::market::split_on(p, sep);
    if p.len() > 0 && p[0] == sep {
        seq![seq![sep]] + kept_segments(segs)
    } else if segs.len() > 0 && segs[0] == seq!['.'] {
        seq![seq!['.']] + kept_segments(segs.drop_first())
    } else {
        kept_segments(segs)
    }
}

/// Whether one of two data roots lies inside the other (or they are the
/// same), component by component.
pub open spec fn roots_nested_spec(from: Seq<char>, to: Seq<char>, sep: char) -> bool {
    path_components(to, sep).is_prefix_of(path_components(from, sep)) || path_components(from, sep).is_prefix_of(
        path_components(to, sep),
    )
}

pub(crate) fn kept_segments_exec(segs: &Vec<Vec<char>>, from: usize) -> (r: Vec<Vec<char>>)
    requires
        from <= segs.len(),
    ensures
        crate::sessions::codec::cviews(r@) == kept_segments(crate::sessions::codec::cviews(segs@).skip(from as int)),
{
    let ghost sv = crate::sessions::codec::cviews(segs@).skip(from as int);
    let mut out: Vec<Vec<char>> = Vec::new();
    let mut i: usize = from;
    assert(sv.take(0) =~= Seq::<Seq<char>>::empty());
    while i < segs.len()
        invariant
            from <= i <= segs.len(),
            sv == crate::sessions::codec::cviews(segs@).skip(from as int),
            crate::sessions::codec::cviews(out@) == kept_segments(sv.take(i - from)),
        decreases segs.len() - i,
    {
        assert(sv.take(i - from + 1).drop_last() =~= sv.take(i - from));
        assert(sv[i - from] == segs@[i as int]@);
        let g = &segs[i];
        let dot = g.len() == 1 && g[0] == '.';
        if g.len() > 0 && !dot {
            let ghost before = crate::sessions::codec::cviews(out@);
            out.push(crate::text::slice_prefix(g, g.len()));
            assert(g@.take(g@.len() as int) =~= g@);
            assert(crate::sessions::codec::cviews(out@) =~= before.push(g@));
        } else {
            assert(dot ==> g@ =~= seq!['.']);
        }
        i += 1;
    }
    assert(sv.take(i - from) =~= sv);
    out
}

fn components_exec(p: &str, sep: char) -> (r: Vec<Vec<char>>)
    ensures
        crate::sessions::codec::cviews(r@) == path_components(p@, sep),
{
    let c = chars_of(p);
    let segs = crate::plugins::market::split_on_exec(&c, sep);
    let ghost sv = crate::sessions::codec::cviews(segs@);
    assert(sv.skip(0) =~= sv);
    if c.len() > 0 && c[0] == sep {
        let rest = kept_segments_exec(&segs, 0);
        let head: Vec<char> = vec![sep];
        assert(head@ =~= seq![sep]);
        let mut out: Vec<Vec<char>> = Vec::new();
        out.push(head);
        assert(crate::sessions::codec::cviews(out@) =~= seq![seq![sep]]);
        let mut j: usize = 0;
        while j < rest.len()
            invariant
                j <= rest.len(),
                crate::sessions::codec::cviews(out@) == seq![seq![sep]] + crate::sessions::codec::cviews(rest@).take(j as int),
            decreases rest.len() - j,
        {
            let ghost before = crate::sessions::codec::cviews(out@);
            out.push(crate::text::slice_prefix(&rest[j], rest[j].len()));
            assert(rest@[j as int]@.take(rest@[j as int]@.len() as int) =~= rest@[j as int]@);
            assert(crate::sessions::codec::cviews(out@) =~= before.push(rest@[j as int]@));
            assert(crate::sessions::codec::cviews(rest@).take(j + 1) =~= crate::sessions::codec::cviews(rest@).take(j as int).push(rest@[j as int]@));
            j += 1;
        }
        assert(crate::sessions::codec::cviews(rest@).take(j as int) =~= crate::sessions::codec::cviews(rest@));
        out
    } else if segs.len() > 0 && segs[0].len() == 1 && segs[0][0] == '.' {
        assert(sv[0] =~= seq!['.']);
        assert(sv.skip(1) =~= sv.drop_first());
        let rest = kept_segments_exec(&segs, 1);
        let head: Vec<char> = vec!['.'];
        assert(head@ =~= seq!['.']);
        let mut out: Vec<Vec<char>> = Vec::new();
        out.push(head);
        assert(crate::sessions::codec::cviews(out@) =~= seq![seq!['.']]);
        let mut j: usize = 0;
        while j < rest.len()
            invariant
                j <= rest.len(),
                crate::sessions::codec::cviews(out@) == seq![seq!['.']] + crate::sessions::codec::cviews(rest@).take(j as int),
            decreases rest.len() - j,
        {
            let ghost before = crate::sessions::codec::cviews(out@);
            out.push(crate::text::slice_prefix(&rest[j], rest[j].len()));
            assert(rest@[j as int]@.take(rest@[j as int]@.len() as int) =~= rest@[j as int]@);
            assert(crate::sessions::codec::cviews(out@) =~= before.push(rest@[j as int]@));
            assert(crate::sessions::codec::cviews(rest@).take(j + 1) =~= crate::sessions::codec::cviews(rest@).take(j as int).push(rest@[j as int]@));
            j += 1;
        }
        assert(crate::sessions::codec::cviews(rest@).take(j as int) =~= crate::sessions::codec::cviews(rest@));
        out
    } else {
        proof {
            if segs.len() > 0 {
                if sv[0] == seq!['.'] {
                    assert(segs@[0]@.len() == 1);
                }
            }
        }
        kept_segments_exec(&segs, 0)
    }
}

fn is_prefix_exec(a: &Vec<Vec<char>>, b: &Vec<Vec<char>>) -> (r: bool)
    ensures
        r == crate::sessions::codec::cviews(a@).is_prefix_of(crate::sessions::codec::cviews(b@)),
{
    let ghost av = crate::sessions::codec::cviews(a@);
    let ghost bv = crate::sessions::codec::cviews(b@);
    if a.len() > b.len() {
        return false;
    }
    let mut i: usize = 0;
    while i < a.len()
        invariant
            i <= a.len() <= b.len(),
            av == crate::sessions::codec::cviews(a@),
            bv == crate::sessions::codec::cviews(b@),
            forall|k: int| 0 <= k < i ==> av[k] == bv[k],
        decreases a.len() - i,
    {
        if !crate::text::chars_eq(&a[i], &b[i]) {
            assert(av[i as int] != bv.subrange(0, av.len() as int)[i as int]);
            return false;
        }
        i += 1;
    }
    assert(av =~= bv.subrange(0, av.len() as int));
    true
}

/// Refuses a migration between two roots of which one contains the other:
/// true when, component by component with separator `sep`, either path
/// is a prefix of the other.
pub fn roots_nested(from: &str, to: &str, sep: char) -> (r: bool)
    ensures
        r == roots_nested_spec(from@, to@, sep),
{
    let f = components_exec(from, sep);
    let t = components_exec(to, sep);
    is_prefix_exec(&t, &f) || is_prefix_exec(&f, &t)
}

} // verus!
