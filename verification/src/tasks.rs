//! The task registry: one row per long operation, keyed by id, so the task
//! centre can show what is running and what recently finished. A live id is
//! never shared, every finished row records its outcome, and the finished
//! history is trimmed to the newest [`HISTORY_LIMIT`] rows whenever a task
//! begins.

use vstd::prelude::*;
use crate::resources::{keys_of, settle, settle_spec, Resource, TaskState};
use crate::text::{chars_eq, chars_of, concat_chars, lemma_lex_order, lemma_views_push, lex_lt, lex_lt_exec, string_of, views};

verus! {

/// How many finished rows the history keeps.
pub const HISTORY_LIMIT: usize = 50;

/// One registry row. The progress ratio of the running phase is not kept
/// here; the caller holds it beside the row.
#[derive(Debug)]
pub struct TaskInfo {
    pub id: String,
    pub kind: String,
    pub label: String,
    /// The lock keys the operation holds.
    pub resources: Vec<String>,
    pub phase: String,
    pub state: TaskState,
    pub cancel_requested: bool,
    pub error: Option<String>,
    /// Milliseconds since the Unix epoch.
    pub started_at: i64,
    pub finished_at: Option<i64>,
}

/// A row as plain values.
pub struct TaskView {
    pub id: Seq<char>,
    pub kind: Seq<char>,
    pub label: Seq<char>,
    pub resources: Seq<Seq<char>>,
    pub phase: Seq<char>,
    pub state: TaskState,
    pub cancel_requested: bool,
    pub error: Option<Seq<char>>,
    pub started_at: int,
    pub finished_at: Option<int>,
}

impl TaskInfo {
    pub open spec fn view(&self) -> TaskView {
        TaskView {
            id: self.id@,
            kind: self.kind@,
            label: self.label@,
            resources: views(self.resources@),
            phase: self.phase@,
            state: self.state,
            cancel_requested: self.cancel_requested,
            error: match self.error {
                Some(e) => Some(e@),
                None => None,
            },
            started_at: self.started_at as int,
            finished_at: match self.finished_at {
                Some(t) => Some(t as int),
                None => None,
            },
        }
    }

    /// A fresh running row for an operation on `resources`, started `now`.
    pub fn new(id: String, kind: &str, label: String, resources: &[Resource], now: i64) -> (r: Self)
        ensures
            r@ == (TaskView {
                id: id@,
                kind: kind@,
                label: label@,
                resources: keys_of(resources@),
                phase: "started"@,
                state: TaskState::Running,
                cancel_requested: false,
                error: None,
                started_at: now as int,
                finished_at: None,
            }),
    {
        let mut keys: Vec<String> = Vec::new();
        let mut i: usize = 0;
        while i < resources.len()
            invariant
                i <= resources.len(),
                views(keys@) == keys_of(resources@).take(i as int),
            decreases resources.len() - i,
        {
            let ghost before = keys@;
            let k = resources[i].key();
            keys.push(k);
            proof {
                lemma_views_push(before, k);
            }
            assert(keys_of(resources@).take(i + 1) =~= keys_of(resources@).take(i as int).push(k@));
            i += 1;
        }
        assert(keys_of(resources@).take(i as int) =~= keys_of(resources@));
        TaskInfo {
            id,
            kind: kind.to_owned(),
            label,
            resources: keys,
            phase: "started".to_owned(),
            state: TaskState::Running,
            cancel_requested: false,
            error: None,
            started_at: now,
            finished_at: None,
        }
    }

    /// A copy of the row.
    pub fn copy(&self) -> (r: Self)
        ensures
            r@ == self@,
    {
        let mut keys: Vec<String> = Vec::new();
        let mut i: usize = 0;
        while i < self.resources.len()
            invariant
                i <= self.resources.len(),
                views(keys@) == views(self.resources@).take(i as int),
            decreases self.resources.len() - i,
        {
            let ghost before = keys@;
            let k = self.resources[i].clone();
            keys.push(k);
            proof {
                lemma_views_push(before, k);
            }
            assert(views(self.resources@).take(i + 1) =~= views(self.resources@).take(i as int).push(k@));
            i += 1;
        }
        assert(views(self.resources@).take(i as int) =~= views(self.resources@));
        TaskInfo {
            id: self.id.clone(),
            kind: self.kind.clone(),
            label: self.label.clone(),
            resources: keys,
            phase: self.phase.clone(),
            state: self.state,
            cancel_requested: self.cancel_requested,
            error: match &self.error {
                Some(e) => Some(e.clone()),
                None => None,
            },
            started_at: self.started_at,
            finished_at: self.finished_at,
        }
    }
}

/* ------------------------------ the model ------------------------------ */

pub open spec fn rows_view(v: Seq<TaskInfo>) -> Seq<TaskView> {
    v.map_values(|t: TaskInfo| t@)
}

/// The first row for `id` from `k` on.
pub open spec fn index_of(rows: Seq<TaskView>, id: Seq<char>, k: int) -> Option<int>
    decreases rows.len() - k,
{
    if k < 0 || k >= rows.len() {
        None
    } else if rows[k].id == id {
        Some(k)
    } else {
        index_of(rows, id, k + 1)
    }
}

/// No id has two rows.
pub open spec fn ids_distinct(rows: Seq<TaskView>) -> bool {
    forall|i: int, j: int| 0 <= i < j < rows.len() ==> #[trigger] rows[i].id != #[trigger] rows[j].id
}

/// Whether the row for `id` is still running.
pub open spec fn is_running(rows: Seq<TaskView>, id: Seq<char>) -> bool {
    match index_of(rows, id, 0) {
        Some(i) => rows[i].state == TaskState::Running,
        None => false,
    }
}

/// The rows with `t` recorded under its id, replacing an earlier row.
pub open spec fn upsert(rows: Seq<TaskView>, t: TaskView) -> Seq<TaskView> {
    match index_of(rows, t.id, 0) {
        Some(i) => rows.update(i, t),
        None => rows.push(t),
    }
}

pub open spec fn finished(t: TaskView) -> bool {
    t.state != TaskState::Running
}

/// History order: started earlier, then the smaller id.
pub open spec fn older(a: TaskView, b: TaskView) -> bool {
    a.started_at < b.started_at || (a.started_at == b.started_at && lex_lt(a.id, b.id))
}

pub open spec fn finished_count(rows: Seq<TaskView>) -> nat
    decreases rows.len(),
{
    if rows.len() == 0 {
        0
    } else {
        finished_count(rows.drop_last()) + if finished(rows.last()) {
            1nat
        } else {
            0nat
        }
    }
}

/// How many finished rows are older than `t`.
pub open spec fn older_finished(rows: Seq<TaskView>, t: TaskView) -> nat
    decreases rows.len(),
{
    if rows.len() == 0 {
        0
    } else {
        older_finished(rows.drop_last(), t) + if finished(rows.last()) && older(rows.last(), t) {
            1nat
        } else {
            0nat
        }
    }
}

/// How many finished rows are over the limit.
pub open spec fn excess(rows: Seq<TaskView>) -> nat {
    if finished_count(rows) > HISTORY_LIMIT {
        (finished_count(rows) - HISTORY_LIMIT) as nat
    } else {
        0
    }
}

/// A finished row among the `excess` oldest is trimmed.
pub open spec fn trimmed(rows: Seq<TaskView>, t: TaskView) -> bool {
    finished(t) && older_finished(rows, t) < excess(rows)
}

/// The rows of `s` that trimming `all` keeps, in order.
pub open spec fn kept(all: Seq<TaskView>, s: Seq<TaskView>) -> Seq<TaskView>
    decreases s.len(),
{
    if s.len() == 0 {
        s
    } else if trimmed(all, s.last()) {
        kept(all, s.drop_last())
    } else {
        kept(all, s.drop_last()).push(s.last())
    }
}

/// The registry after trimming its history.
pub open spec fn trim_spec(rows: Seq<TaskView>) -> Seq<TaskView> {
    kept(rows, rows)
}

pub open spec fn duplicate_message(id: Seq<char>) -> Seq<char> {
    "任务 "@ + id + " 正在进行中"@
}

pub open spec fn abandoned_message() -> Seq<char> {
    "任务在执行中被中断（进程退出或 panic）"@
}

/* ------------------------------ the registry ------------------------------ */

/// The task registry.
pub struct Tasks {
    rows: Vec<TaskInfo>,
}

impl Tasks {
    pub closed spec fn view(&self) -> Seq<TaskView> {
        rows_view(self.rows@)
    }

    /// No id has two rows.
    pub closed spec fn wf(&self) -> bool {
        ids_distinct(rows_view(self.rows@))
    }

    /// An empty registry.
    pub fn new() -> (r: Self)
        ensures
            r@ == Seq::<TaskView>::empty(),
            r.wf(),
    {
        let r = Tasks { rows: Vec::new() };
        assert(rows_view(r.rows@) =~= Seq::<TaskView>::empty());
        r
    }

    fn find(&self, id: &str) -> (r: Option<usize>)
        ensures
            match r {
                Some(i) => index_of(self@, id@, 0) == Some(i as int) && i < self.rows@.len(),
                None => index_of(self@, id@, 0).is_none(),
            },
    {
        let ghost rv = self@;
        let k = chars_of(id);
        let mut i: usize = 0;
        while i < self.rows.len()
            invariant
                i <= self.rows.len(),
                rv == rows_view(self.rows@),
                rv.len() == self.rows.len(),
                k@ == id@,
                index_of(rv, id@, 0) == index_of(rv, id@, i as int),
            decreases self.rows.len() - i,
        {
            assert(rv[i as int] == self.rows@[i as int]@);
            if chars_eq(&chars_of(self.rows[i].id.as_str()), &k) {
                return Some(i);
            }
            i += 1;
        }
        None
    }
}

/* ------------------------------ row updates ------------------------------ */

pub open spec fn with_cancel(t: TaskView) -> TaskView {
    TaskView { cancel_requested: true, ..t }
}

pub open spec fn with_phase(t: TaskView, phase: Seq<char>) -> TaskView {
    TaskView { phase, ..t }
}

/// A finished row: its state and error as [`settle_spec`] decides them,
/// where a cancellation requested through the registry counts too.
pub open spec fn with_outcome(t: TaskView, ok: bool, err: Seq<char>, flag_cancelled: bool, now: int) -> TaskView {
    let s = settle_spec(ok, err, flag_cancelled || t.cancel_requested);
    TaskView { state: s.0, error: s.1, finished_at: Some(now), ..t }
}

/// A row that vanished while running is recorded as failed.
pub open spec fn with_abandon(t: TaskView, now: int) -> TaskView {
    if t.state == TaskState::Running {
        TaskView { state: TaskState::Failed, error: Some(abandoned_message()), finished_at: Some(now), ..t }
    } else {
        t
    }
}

pub open spec fn at_id(rows: Seq<TaskView>, id: Seq<char>, t: spec_fn(TaskView) -> TaskView) -> Seq<TaskView> {
    match index_of(rows, id, 0) {
        Some(i) => rows.update(i, t(rows[i])),
        None => rows,
    }
}

pub open spec fn outcome_ok(o: Result<(), String>) -> bool {
    o is Ok
}

pub open spec fn outcome_err(o: Result<(), String>) -> Seq<char> {
    match o {
        Ok(()) => Seq::empty(),
        Err(e) => e@,
    }
}

proof fn lemma_index_of(rows: Seq<TaskView>, id: Seq<char>, k: int)
    requires
        0 <= k,
    ensures
        match index_of(rows, id, k) {
            Some(i) => k <= i < rows.len() && rows[i].id == id && forall|j: int| k <= j < i ==> rows[j].id != id,
            None => forall|j: int| k <= j < rows.len() ==> rows[j].id != id,
        },
    decreases rows.len() - k,
{
    if k < rows.len() && rows[k].id != id {
        lemma_index_of(rows, id, k + 1);
    }
}

proof fn lemma_update_keeps_ids(rows: Seq<TaskView>, i: int, t: TaskView)
    requires
        ids_distinct(rows),
        0 <= i < rows.len(),
        t.id == rows[i].id,
    ensures
        ids_distinct(rows.update(i, t)),
{
    let r2 = rows.update(i, t);
    assert forall|a: int, b: int| 0 <= a < b < r2.len() implies #[trigger] r2[a].id != #[trigger] r2[b].id by {
        assert(r2[a].id == rows[a].id);
        assert(r2[b].id == rows[b].id);
    }
}

impl Tasks {
    /// Replaces the row at `i` by one with the same id.
    fn replace_row(&mut self, i: usize, row: TaskInfo)
        requires
            old(self).wf(),
            i < old(self).rows@.len(),
            row.id@ == old(self)@[i as int].id,
        ensures
            final(self).wf(),
            final(self)@ == old(self)@.update(i as int, row@),
            final(self).rows@.len() == old(self).rows@.len(),
    {
        proof {
            lemma_update_keeps_ids(self@, i as int, row@);
        }
        let ghost before = self.rows@;
        self.rows.set(i, row);
        assert(rows_view(self.rows@) =~= rows_view(before).update(i as int, row@));
    }

    /// Marks a cancellation request on the row for `id`.
    pub fn request_cancel(&mut self, id: &str)
        requires
            old(self).wf(),
        ensures
            final(self).wf(),
            final(self)@ == at_id(old(self)@, id@, |t: TaskView| with_cancel(t)),
    {
        match self.find(id) {
            Some(i) => {
                let mut row = self.rows[i].copy();
                row.cancel_requested = true;
                assert(row@ == with_cancel(self@[i as int]));
                self.replace_row(i, row);
            },
            None => {},
        }
    }

    /// Records the phase the operation for `id` is in.
    pub fn set_phase(&mut self, id: &str, phase: &str)
        requires
            old(self).wf(),
        ensures
            final(self).wf(),
            final(self)@ == at_id(old(self)@, id@, |t: TaskView| with_phase(t, phase@)),
    {
        match self.find(id) {
            Some(i) => {
                let mut row = self.rows[i].copy();
                row.phase = phase.to_owned();
                assert(row@ == with_phase(self@[i as int], phase@));
                self.replace_row(i, row);
            },
            None => {},
        }
    }

    /// Whether an abort was requested: through the shared flag, or on the
    /// row.
    pub fn cancel_observed(&self, id: &str, flag: bool) -> (r: bool)
        ensures
            r == (flag || match index_of(self@, id@, 0) {
                Some(i) => self@[i].cancel_requested,
                None => false,
            }),
    {
        if flag {
            return true;
        }
        match self.find(id) {
            Some(i) => {
                assert(self@[i as int] == self.rows@[i as int]@);
                self.rows[i].cancel_requested
            },
            None => false,
        }
    }

    /// Records the outcome of the operation for `id` at `now`: cancelled
    /// when an abort was requested (the shared flag, the row, or a body
    /// that reported `cancelled`), else done, or failed with its error.
    pub fn finish(&mut self, id: &str, outcome: Result<(), String>, flag_cancelled: bool, now: i64)
        requires
            old(self).wf(),
        ensures
            final(self).wf(),
            final(self)@ == at_id(
                old(self)@,
                id@,
                |t: TaskView| with_outcome(t, outcome_ok(outcome), outcome_err(outcome), flag_cancelled, now as int),
            ),
    {
        match self.find(id) {
            Some(i) => {
                let mut row = self.rows[i].copy();
                let (state, error) = settle(outcome, flag_cancelled, row.cancel_requested);
                row.state = state;
                row.error = error;
                row.finished_at = Some(now);
                assert(row@ == with_outcome(self@[i as int], outcome_ok(outcome), outcome_err(outcome), flag_cancelled, now as int));
                self.replace_row(i, row);
            },
            None => {},
        }
    }

    /// Records an operation for `id` that ended without an outcome (its
    /// handle went away while it was running) as failed.
    pub fn abandon(&mut self, id: &str, now: i64)
        requires
            old(self).wf(),
        ensures
            final(self).wf(),
            final(self)@ == at_id(old(self)@, id@, |t: TaskView| with_abandon(t, now as int)),
    {
        match self.find(id) {
            Some(i) => {
                assert(self@[i as int] == self.rows@[i as int]@);
                if self.rows[i].state == TaskState::Running {
                    let mut row = self.rows[i].copy();
                    row.state = TaskState::Failed;
                    row.error = Some("任务在执行中被中断（进程退出或 panic）".to_owned());
                    row.finished_at = Some(now);
                    assert(row@ == with_abandon(self@[i as int], now as int));
                    self.replace_row(i, row);
                } else {
                    assert(self@.update(i as int, with_abandon(self@[i as int], now as int)) =~= self@);
                }
            },
            None => {},
        }
    }
}

/* ------------------------------- trimming ------------------------------- */

proof fn lemma_kept_all(all: Seq<TaskView>, s: Seq<TaskView>)
    requires
        excess(all) == 0,
    ensures
        kept(all, s) == s,
    decreases s.len(),
{
    if s.len() > 0 {
        lemma_kept_all(all, s.drop_last());
        assert(s.drop_last().push(s.last()) =~= s);
    }
}

proof fn lemma_kept_from(all: Seq<TaskView>, s: Seq<TaskView>)
    ensures
        kept(all, s).len() <= s.len(),
        forall|i: int| 0 <= i < kept(all, s).len() ==> s.contains(#[trigger] kept(all, s)[i]),
    decreases s.len(),
{
    if s.len() > 0 {
        lemma_kept_from(all, s.drop_last());
        let k = kept(all, s.drop_last());
        assert forall|i: int| 0 <= i < kept(all, s).len() implies s.contains(#[trigger] kept(all, s)[i]) by {
            if i < k.len() {
                assert(s.drop_last().contains(k[i]));
                let j = choose|j: int| 0 <= j < s.drop_last().len() && s.drop_last()[j] == k[i];
                assert(s[j] == k[i]);
            } else {
                assert(kept(all, s)[i] == s.last());
                assert(s[s.len() - 1] == s.last());
            }
        }
    }
}

proof fn lemma_kept_distinct(all: Seq<TaskView>, s: Seq<TaskView>)
    requires
        ids_distinct(s),
    ensures
        ids_distinct(kept(all, s)),
    decreases s.len(),
{
    if s.len() > 0 {
        let d = s.drop_last();
        assert(ids_distinct(d));
        lemma_kept_distinct(all, d);
        lemma_kept_from(all, d);
        let k = kept(all, d);
        if !trimmed(all, s.last()) {
            let k2 = k.push(s.last());
            assert forall|a: int, b: int| 0 <= a < b < k2.len() implies #[trigger] k2[a].id != #[trigger] k2[b].id by {
                if b == k.len() {
                    assert(d.contains(k[a]));
                    let j = choose|j: int| 0 <= j < d.len() && d[j] == k[a];
                    assert(s[j] == d[j]);
                    assert(s[s.len() - 1] == s.last());
                } else {
                    assert(k2[a] == k[a] && k2[b] == k[b]);
                }
            }
        }
    }
}

fn older_exec(a: &TaskInfo, b: &TaskInfo) -> (r: bool)
    ensures
        r == older(a@, b@),
{
    a.started_at < b.started_at || (a.started_at == b.started_at && lex_lt_exec(&chars_of(a.id.as_str()), &chars_of(b.id.as_str())))
}

impl Tasks {
    fn finished_count_exec(&self) -> (r: usize)
        ensures
            r == finished_count(self@),
            r <= self@.len(),
    {
        let ghost rv = self@;
        let mut n: usize = 0;
        let mut i: usize = 0;
        while i < self.rows.len()
            invariant
                i <= self.rows.len(),
                rv == rows_view(self.rows@),
                rv.len() == self.rows.len(),
                n == finished_count(rv.take(i as int)),
                n <= i,
            decreases self.rows.len() - i,
        {
            assert(rv.take(i + 1).drop_last() =~= rv.take(i as int));
            assert(rv[i as int] == self.rows@[i as int]@);
            if self.rows[i].state != TaskState::Running {
                n += 1;
            }
            i += 1;
        }
        assert(rv.take(i as int) =~= rv);
        n
    }

    fn older_finished_exec(&self, t: &TaskInfo) -> (r: usize)
        ensures
            r == older_finished(self@, t@),
    {
        let ghost rv = self@;
        let mut n: usize = 0;
        let mut i: usize = 0;
        while i < self.rows.len()
            invariant
                i <= self.rows.len(),
                rv == rows_view(self.rows@),
                rv.len() == self.rows.len(),
                n == older_finished(rv.take(i as int), t@),
                n <= i,
            decreases self.rows.len() - i,
        {
            assert(rv.take(i + 1).drop_last() =~= rv.take(i as int));
            assert(rv[i as int] == self.rows@[i as int]@);
            if self.rows[i].state != TaskState::Running && older_exec(&self.rows[i], t) {
                n += 1;
            }
            i += 1;
        }
        assert(rv.take(i as int) =~= rv);
        n
    }

    /// Drops the oldest finished rows beyond the history limit.
    fn trim_history(&mut self)
        requires
            old(self).wf(),
        ensures
            final(self).wf(),
            final(self)@ == trim_spec(old(self)@),
    {
        let ghost all = self@;
        let f = self.finished_count_exec();
        if f <= HISTORY_LIMIT {
            proof {
                lemma_kept_all(all, all);
            }
            return;
        }
        let ex = f - HISTORY_LIMIT;
        let mut out: Vec<TaskInfo> = Vec::new();
        let mut k: usize = 0;
        assert(rows_view(out@) =~= kept(all, all.take(0)));
        while k < self.rows.len()
            invariant
                k <= self.rows.len(),
                all == self@,
                all.len() == self.rows.len(),
                ex == excess(all),
                rows_view(out@) == kept(all, all.take(k as int)),
            decreases self.rows.len() - k,
        {
            assert(all.take(k + 1).drop_last() =~= all.take(k as int));
            assert(all.take(k + 1).last() == all[k as int]);
            assert(all[k as int] == self.rows@[k as int]@);
            let keep = if self.rows[k].state == TaskState::Running {
                true
            } else {
                self.older_finished_exec(&self.rows[k]) >= ex
            };
            if keep {
                let ghost before = out@;
                let row = self.rows[k].copy();
                out.push(row);
                assert(rows_view(out@) =~= rows_view(before).push(row@));
            }
            k += 1;
        }
        assert(all.take(k as int) =~= all);
        proof {
            lemma_kept_distinct(all, all);
        }
        self.rows = out;
    }

    /// Registers a running operation. A live row with the same id refuses
    /// it; otherwise the row replaces any finished row of that id, marked
    /// cancelled when the abort flag is already set, and the history is
    /// trimmed.
    pub fn begin(&mut self, info: TaskInfo, flag_cancelled: bool) -> (r: Result<(), String>)
        requires
            old(self).wf(),
        ensures
            final(self).wf(),
            match r {
                Ok(()) => !is_running(old(self)@, info.id@) && final(self)@ == trim_spec(
                    upsert(old(self)@, (TaskView { cancel_requested: flag_cancelled, ..info@ })),
                ),
                Err(e) => is_running(old(self)@, info.id@) && e@ == duplicate_message(info.id@) && final(self)@
                    == old(self)@,
            },
    {
        let mut info = info;
        info.cancel_requested = flag_cancelled;
        match self.find(info.id.as_str()) {
            Some(i) => {
                assert(self@[i as int] == self.rows@[i as int]@);
                if self.rows[i].state == TaskState::Running {
                    let m = concat_chars(&concat_chars(&chars_of("任务 "), &chars_of(info.id.as_str())), &chars_of(" 正在进行中"));
                    return Err(string_of(&m));
                }
                proof {
                    lemma_index_of(self@, info.id@, 0);
                }
                self.replace_row(i, info);
            },
            None => {
                proof {
                    lemma_index_of(self@, info.id@, 0);
                }
                let ghost before = self.rows@;
                let ghost t = info@;
                self.rows.push(info);
                assert(rows_view(self.rows@) =~= rows_view(before).push(t));
                assert(ids_distinct(self@)) by {
                    let r2 = self@;
                    assert forall|a: int, b: int| 0 <= a < b < r2.len() implies #[trigger] r2[a].id != #[trigger] r2[b].id by {
                        if b == r2.len() - 1 {
                            assert(r2[a] == rows_view(before)[a]);
                        } else {
                            assert(r2[a] == rows_view(before)[a] && r2[b] == rows_view(before)[b]);
                        }
                    }
                }
            },
        }
        self.trim_history();
        Ok(())
    }
}

/* -------------------------------- listing -------------------------------- */

/// Newest first: no row started after the one before it.
pub open spec fn newest_first(s: Seq<TaskView>) -> bool {
    forall|i: int, j: int| 0 <= i < j < s.len() ==> #[trigger] s[i].started_at >= #[trigger] s[j].started_at
}

impl Tasks {
    /// Every recorded row, newest first.
    pub fn list(&self) -> (r: Vec<TaskInfo>)
        ensures
            rows_view(r@).to_multiset() == self@.to_multiset(),
            newest_first(rows_view(r@)),
    {
        broadcast use vstd::seq_lib::group_to_multiset_ensures;

        let ghost all = self@;
        let mut out: Vec<TaskInfo> = Vec::new();
        let mut k: usize = 0;
        assert(rows_view(out@) =~= Seq::<TaskView>::empty());
        assert(all.take(0) =~= Seq::<TaskView>::empty());
        while k < self.rows.len()
            invariant
                k <= self.rows.len(),
                all == self@,
                all.len() == self.rows.len(),
                rows_view(out@).to_multiset() == all.take(k as int).to_multiset(),
                newest_first(rows_view(out@)),
            decreases self.rows.len() - k,
        {
            let ghost ov = rows_view(out@);
            let x = self.rows[k].copy();
            assert(all[k as int] == x@);
            let mut p: usize = 0;
            while p < out.len() && out[p].started_at >= x.started_at
                invariant
                    p <= out.len(),
                    ov == rows_view(out@),
                    ov.len() == out.len(),
                    forall|i: int| 0 <= i < p ==> #[trigger] ov[i].started_at >= x.started_at,
                decreases out.len() - p,
            {
                assert(ov[p as int] == out@[p as int]@);
                p += 1;
            }
            proof {
                if p < out.len() {
                    assert(ov[p as int] == out@[p as int]@);
                }
            }
            let ghost xv = x@;
            out.insert(p, x);
            let ghost nv = rows_view(out@);
            assert(nv =~= ov.insert(p as int, xv));
            proof {
                vstd::seq_lib::to_multiset_insert(ov, p as int, xv);
                assert(all.take(k + 1) =~= all.take(k as int).push(xv));
                vstd::seq_lib::to_multiset_build(all.take(k as int), xv);
                assert forall|i: int, j: int| 0 <= i < j < nv.len() implies #[trigger] nv[i].started_at >= #[trigger] nv[j].started_at by {
                    if j == p {
                        assert(nv[i] == ov[i]);
                    } else if i == p {
                        assert(nv[j] == ov[j - 1]);
                        assert(ov[p as int].started_at < xv.started_at);
                        if j - 1 > p {
                            assert(ov[p as int].started_at >= ov[j - 1].started_at);
                        }
                    } else if i < p && j > p {
                        assert(nv[i] == ov[i] && nv[j] == ov[j - 1]);
                    } else if j < p {
                        assert(nv[i] == ov[i] && nv[j] == ov[j]);
                    } else {
                        assert(nv[i] == ov[i - 1] && nv[j] == ov[j - 1]);
                    }
                }
            }
            k += 1;
        }
        assert(all.take(k as int) =~= all);
        out
    }
}

/* -------------------------------- the laws -------------------------------- */

/// `older` is a strict total order on rows with distinct ids.
proof fn lemma_older_order(a: TaskView, b: TaskView, c: TaskView)
    ensures
        !older(a, a),
        older(a, b) ==> !older(b, a),
        a.id != b.id ==> older(a, b) || older(b, a),
        older(a, b) && older(b, c) ==> older(a, c),
{
    lemma_lex_order(a.id, b.id, c.id);
    lemma_lex_order(b.id, a.id, c.id);
}

/// A row kept by trimming is in the result.
proof fn lemma_kept_contains(all: Seq<TaskView>, s: Seq<TaskView>, i: int)
    requires
        0 <= i < s.len(),
        !trimmed(all, s[i]),
    ensures
        kept(all, s).contains(s[i]),
    decreases s.len(),
{
    let k = kept(all, s.drop_last());
    if i == s.len() - 1 {
        assert(kept(all, s) == k.push(s.last()));
        assert(kept(all, s)[k.len() as int] == s[i]);
    } else {
        lemma_kept_contains(all, s.drop_last(), i);
        assert(s.drop_last()[i] == s[i]);
        let j = choose|j: int| 0 <= j < k.len() && k[j] == s[i];
        if trimmed(all, s.last()) {
        } else {
            assert(kept(all, s)[j] == s[i]);
        }
    }
}

/// Trimming never drops a running task.
pub proof fn lemma_running_rows_survive_trimming(rows: Seq<TaskView>, i: int)
    requires
        0 <= i < rows.len(),
        !finished(rows[i]),
    ensures
        trim_spec(rows).contains(rows[i]),
{
    lemma_kept_contains(rows, rows, i);
}

/// Counting rows older than a younger row counts at least as many, and
/// strictly more when the older row itself is a finished row of `s`.
proof fn lemma_older_finished_mono(s: Seq<TaskView>, y: TaskView, x: TaskView)
    requires
        older(y, x),
    ensures
        older_finished(s, y) <= older_finished(s, x),
        (s.contains(y) && finished(y)) ==> older_finished(s, y) < older_finished(s, x),
    decreases s.len(),
{
    if s.len() > 0 {
        let d = s.drop_last();
        lemma_older_finished_mono(d, y, x);
        lemma_older_order(s.last(), y, x);
        lemma_older_order(y, y, x);
        if s.contains(y) && finished(y) {
            let j = choose|j: int| 0 <= j < s.len() && s[j] == y;
            if j < s.len() - 1 {
                assert(d[j] == y);
                assert(d.contains(y));
            }
        }
    }
}

/// Trimming drops the oldest finished rows: every trimmed row is older
/// than every finished row that stays.
pub proof fn lemma_trimmed_rows_are_older_than_kept_ones(rows: Seq<TaskView>, a: int, b: int)
    requires
        ids_distinct(rows),
        0 <= a < rows.len(),
        0 <= b < rows.len(),
        trimmed(rows, rows[a]),
        finished(rows[b]),
        !trimmed(rows, rows[b]),
    ensures
        older(rows[a], rows[b]),
{
    lemma_older_order(rows[a], rows[b], rows[a]);
    if !older(rows[a], rows[b]) {
        assert(a != b);
        if a < b {
            assert(rows[a].id != rows[b].id);
        } else {
            assert(rows[b].id != rows[a].id);
        }
        assert(older(rows[b], rows[a]));
        assert(rows.contains(rows[b]));
        lemma_older_finished_mono(rows, rows[b], rows[a]);
    }
}

/// How many rows of `s` trimming `all` drops.
pub open spec fn trimmed_count(all: Seq<TaskView>, s: Seq<TaskView>) -> nat
    decreases s.len(),
{
    if s.len() == 0 {
        0
    } else {
        trimmed_count(all, s.drop_last()) + if trimmed(all, s.last()) {
            1nat
        } else {
            0nat
        }
    }
}

proof fn lemma_kept_finished_count(all: Seq<TaskView>, s: Seq<TaskView>)
    ensures
        finished_count(kept(all, s)) + trimmed_count(all, s) == finished_count(s),
    decreases s.len(),
{
    if s.len() > 0 {
        lemma_kept_finished_count(all, s.drop_last());
        let k = kept(all, s.drop_last());
        if !trimmed(all, s.last()) {
            assert(k.push(s.last()).drop_last() =~= k);
        }
    }
}

/// A finished row kept by trimming, with no kept finished row older.
pub open spec fn oldest_kept(all: Seq<TaskView>, s: Seq<TaskView>, j: int) -> bool {
    &&& 0 <= j < s.len()
    &&& finished(s[j]) && !trimmed(all, s[j])
    &&& forall|i: int| 0 <= i < s.len() && finished(#[trigger] s[i]) && !trimmed(all, s[i]) ==> !older(s[i], s[j])
}

proof fn lemma_oldest_kept_exists(all: Seq<TaskView>, s: Seq<TaskView>, w: int)
    requires
        0 <= w < s.len(),
        finished(s[w]) && !trimmed(all, s[w]),
    ensures
        exists|j: int| oldest_kept(all, s, j),
    decreases s.len(),
{
    let d = s.drop_last();
    let l = s.len() - 1;
    lemma_older_order(s[l], s[l], s[l]);
    if w == l && !(exists|i: int| 0 <= i < d.len() && finished(#[trigger] d[i]) && !trimmed(all, d[i])) {
        assert forall|i: int| 0 <= i < s.len() && finished(#[trigger] s[i]) && !trimmed(all, s[i]) implies !older(s[i], s[l]) by {
            if i < l {
                assert(d[i] == s[i]);
            }
        }
        assert(oldest_kept(all, s, l));
    } else {
        let w2 = if w < l {
            w
        } else {
            choose|i: int| 0 <= i < d.len() && finished(#[trigger] d[i]) && !trimmed(all, d[i])
        };
        assert(d[w2] == s[w2]);
        lemma_oldest_kept_exists(all, d, w2);
        let j0 = choose|j: int| oldest_kept(all, d, j);
        assert(d[j0] == s[j0]);
        if finished(s[l]) && !trimmed(all, s[l]) && older(s[l], s[j0]) {
            assert forall|i: int| 0 <= i < s.len() && finished(#[trigger] s[i]) && !trimmed(all, s[i]) implies !older(s[i], s[l]) by {
                if i < l {
                    assert(d[i] == s[i]);
                    lemma_older_order(s[i], s[l], s[j0]);
                }
            }
            assert(oldest_kept(all, s, l));
        } else {
            assert forall|i: int| 0 <= i < s.len() && finished(#[trigger] s[i]) && !trimmed(all, s[i]) implies !older(s[i], s[j0]) by {
                if i < l {
                    assert(d[i] == s[i]);
                }
            }
            assert(oldest_kept(all, s, j0));
        }
    }
}

/// Counts that agree row by row are equal.
proof fn lemma_count_agree(all: Seq<TaskView>, s: Seq<TaskView>, q: TaskView)
    requires
        forall|i: int| 0 <= i < s.len() ==> (finished(#[trigger] s[i]) && older(s[i], q)) == trimmed(all, s[i]),
    ensures
        older_finished(s, q) == trimmed_count(all, s),
    decreases s.len(),
{
    if s.len() > 0 {
        let d = s.drop_last();
        assert forall|i: int| 0 <= i < d.len() implies (finished(#[trigger] d[i]) && older(d[i], q)) == trimmed(all, d[i]) by {
            assert(d[i] == s[i]);
        }
        lemma_count_agree(all, d, q);
        assert(s[s.len() - 1] == s.last());
    }
}

/// The finished history a registry keeps is capped: after trimming, at
/// most [`HISTORY_LIMIT`] finished rows remain.
pub proof fn lemma_history_is_capped(rows: Seq<TaskView>)
    requires
        ids_distinct(rows),
    ensures
        finished_count(trim_spec(rows)) <= HISTORY_LIMIT,
{
    lemma_kept_finished_count(rows, rows);
    if excess(rows) > 0 {
        if exists|w: int| 0 <= w < rows.len() && finished(#[trigger] rows[w]) && !trimmed(rows, rows[w]) {
            let w = choose|w: int| 0 <= w < rows.len() && finished(#[trigger] rows[w]) && !trimmed(rows, rows[w]);
            lemma_oldest_kept_exists(rows, rows, w);
            let q = choose|j: int| oldest_kept(rows, rows, j);
            assert forall|i: int| 0 <= i < rows.len() implies (finished(#[trigger] rows[i]) && older(rows[i], rows[q]))
                == trimmed(rows, rows[i]) by {
                if trimmed(rows, rows[i]) {
                    lemma_trimmed_rows_are_older_than_kept_ones(rows, i, q);
                }
            }
            lemma_count_agree(rows, rows, rows[q]);
        } else {
            lemma_all_finished_trimmed(rows, rows);
        }
    }
}

proof fn lemma_all_finished_trimmed(all: Seq<TaskView>, s: Seq<TaskView>)
    requires
        forall|i: int| 0 <= i < s.len() ==> !(finished(#[trigger] s[i]) && !trimmed(all, s[i])),
    ensures
        trimmed_count(all, s) == finished_count(s),
    decreases s.len(),
{
    if s.len() > 0 {
        let d = s.drop_last();
        assert forall|i: int| 0 <= i < d.len() implies !(finished(#[trigger] d[i]) && !trimmed(all, d[i])) by {
            assert(d[i] == s[i]);
        }
        lemma_all_finished_trimmed(all, d);
        assert(s[s.len() - 1] == s.last());
    }
}

proof fn lemma_upsert_distinct(rows: Seq<TaskView>, t: TaskView)
    requires
        ids_distinct(rows),
    ensures
        ids_distinct(upsert(rows, t)),
        upsert(rows, t).contains(t),
{
    lemma_index_of(rows, t.id, 0);
    match index_of(rows, t.id, 0) {
        Some(i) => {
            lemma_update_keeps_ids(rows, i, t);
            assert(upsert(rows, t)[i] == t);
        },
        None => {
            let r2 = rows.push(t);
            assert forall|a: int, b: int| 0 <= a < b < r2.len() implies #[trigger] r2[a].id != #[trigger] r2[b].id by {
                assert(r2[a] == rows[a]);
                if b < rows.len() {
                    assert(r2[b] == rows[b]);
                }
            }
            assert(r2[rows.len() as int] == t);
        },
    }
}

/// A task that begins is listed, running, and the finished history stays
/// within [`HISTORY_LIMIT`].
pub proof fn lemma_begun_task_is_listed_and_history_capped(rows: Seq<TaskView>, t: TaskView)
    requires
        ids_distinct(rows),
        t.state == TaskState::Running,
    ensures
        trim_spec(upsert(rows, t)).contains(t),
        finished_count(trim_spec(upsert(rows, t))) <= HISTORY_LIMIT,
{
    lemma_upsert_distinct(rows, t);
    let u = upsert(rows, t);
    let i = choose|i: int| 0 <= i < u.len() && u[i] == t;
    lemma_running_rows_survive_trimming(u, i);
    lemma_history_is_capped(u);
}

} // verus!
