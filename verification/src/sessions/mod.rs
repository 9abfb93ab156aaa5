//! DSH session logs: the on-disk codec rules and the decisions a copy makes
//! between instances.

pub mod codec;
pub mod copy;
pub mod zstd_copy;

use vstd::prelude::*;
use crate::sessions::codec::SessionHeaderRecord;

verus! {

/// One discovered session, from its header only: the list view.
#[derive(Debug)]
pub struct SessionInfo {
    /// Opaque handle: the encoded session directory name.
    pub session_dir: String,
    /// The project group directory this session lives under.
    pub project: String,
    pub id: String,
    /// Unix ms from the header.
    pub created_at_ms: u64,
    /// The absolute working directory.
    pub cwd: Option<String>,
    /// Lineage: the id this forked from, if any.
    pub parent: Option<String>,
    /// Whether this is a subagent child.
    pub origin_subagent: bool,
}

/// A session plus its stored event count: the inspect view.
#[derive(Debug)]
pub struct SessionDetail {
    pub info: SessionInfo,
    /// Event records after the header.
    pub event_count: usize,
}

/// What one copy produced, per target.
#[derive(Debug)]
pub struct CopyOutcome {
    pub target_id: String,
    pub target_name: String,
    pub new_session_dir: String,
    pub new_id: String,
}

/// Streaming progress for a fan-out copy.
#[derive(Debug)]
pub struct SessionProgress {
    /// 0-based index of the (session x target) unit now completing.
    pub done: usize,
    /// Total units in this operation.
    pub total: usize,
    pub target_id: String,
    pub new_session_dir: String,
}

/// The list entry of a session directory whose header was read.
pub fn info_from(header: &SessionHeaderRecord, session_dir: &str, project: &str) -> (r: SessionInfo)
    ensures
        r.session_dir@ == session_dir@,
        r.project@ == project@,
        r.id@ == header.id@,
        r.created_at_ms == header.created_at,
        crate::sessions::codec::opt_view(r.cwd) == crate::sessions::codec::opt_view(header.cwd),
        crate::sessions::codec::opt_view(r.parent) == crate::sessions::codec::opt_view(header.parent),
        r.origin_subagent == header.origin_subagent,
{
    SessionInfo {
        session_dir: session_dir.to_owned(),
        project: project.to_owned(),
        id: header.id.clone(),
        created_at_ms: header.created_at,
        cwd: clone_opt(&header.cwd),
        parent: clone_opt(&header.parent),
        origin_subagent: header.origin_subagent,
    }
}

fn clone_opt(o: &Option<String>) -> (r: Option<String>)
    ensures
        r == *o,
{
    match o {
        Some(s) => Some(s.clone()),
        None => None,
    }
}

/* -------------------------------- listing -------------------------------- */

/// The list order: newest session first, then by directory name.
pub open spec fn listed_before(a: SessionInfo, b: SessionInfo) -> bool {
    a.created_at_ms > b.created_at_ms || (a.created_at_ms == b.created_at_ms && crate::text::lex_lt(
        a.session_dir@,
        b.session_dir@,
    ))
}

/// A session's list key as plain values.
pub open spec fn list_key(a: SessionInfo) -> (nat, Seq<char>) {
    (a.created_at_ms as nat, a.session_dir@)
}

/// No entry comes strictly before the one ahead of it.
pub open spec fn in_list_order(v: Seq<SessionInfo>) -> bool {
    forall|i: int, j: int| 0 <= i < j < v.len() ==> !listed_before(#[trigger] v[j], #[trigger] v[i])
}

proof fn lemma_listed_before_order(a: SessionInfo, b: SessionInfo, c: SessionInfo)
    ensures
        !listed_before(a, a),
        listed_before(a, b) ==> !listed_before(b, a),
        listed_before(a, b) && listed_before(b, c) ==> listed_before(a, c),
        list_key(a) != list_key(b) ==> listed_before(a, b) || listed_before(b, a),
{
    crate::text::lemma_lex_order(a.session_dir@, b.session_dir@, c.session_dir@);
    crate::text::lemma_lex_order(b.session_dir@, a.session_dir@, c.session_dir@);
}

fn listed_before_exec(a: &SessionInfo, b: &SessionInfo) -> (r: bool)
    ensures
        r == listed_before(*a, *b),
{
    a.created_at_ms > b.created_at_ms || (a.created_at_ms == b.created_at_ms && crate::text::lex_lt_exec(
        &crate::text::chars_of(a.session_dir.as_str()),
        &crate::text::chars_of(b.session_dir.as_str()),
    ))
}

/// The sessions of a home in list order: newest first, then by directory.
pub fn sort_sessions(found: Vec<SessionInfo>) -> (r: Vec<SessionInfo>)
    ensures
        in_list_order(r@),
        r@.to_multiset() == found@.to_multiset(),
{
    broadcast use vstd::seq_lib::group_to_multiset_ensures;

    let mut out: Vec<SessionInfo> = Vec::new();
    let rest = found;
    let ghost all = rest@;
    let n = rest.len();
    assert(all.take(0) =~= Seq::<SessionInfo>::empty());
    assert(out@ =~= Seq::<SessionInfo>::empty());
    let mut k: usize = 0;
    while k < n
        invariant
            k <= n,
            n == all.len(),
            rest@ == all,
            in_list_order(out@),
            out@.to_multiset() == all.take(k as int).to_multiset(),
        decreases n - k,
    {
        let x = SessionInfo {
            session_dir: rest[k].session_dir.clone(),
            project: rest[k].project.clone(),
            id: rest[k].id.clone(),
            created_at_ms: rest[k].created_at_ms,
            cwd: clone_opt(&rest[k].cwd),
            parent: clone_opt(&rest[k].parent),
            origin_subagent: rest[k].origin_subagent,
        };
        let ghost xv = all[k as int];
        assert(x == xv);
        let ghost ov = out@;
        let mut p: usize = 0;
        while p < out.len() && !listed_before_exec(&x, &out[p])
            invariant
                p <= out.len(),
                ov == out@,
                forall|i: int| 0 <= i < p ==> !listed_before(x, #[trigger] ov[i]),
            decreases out.len() - p,
        {
            p += 1;
        }
        out.insert(p, x);
        let ghost nv = out@;
        assert(nv =~= ov.insert(p as int, x));
        proof {
            vstd::seq_lib::to_multiset_insert(ov, p as int, x);
            assert(all.take(k + 1) =~= all.take(k as int).push(xv));
            vstd::seq_lib::to_multiset_build(all.take(k as int), xv);
            assert forall|i: int, j: int| 0 <= i < j < nv.len() implies !listed_before(#[trigger] nv[j], #[trigger] nv[i]) by {
                if i < p && j == p {
                    lemma_listed_before_order(x, ov[i], x);
                    lemma_listed_before_order(ov[i], x, x);
                } else if i == p && j > p {
                    lemma_listed_before_order(ov[j - 1], x, ov[p as int]);
                    lemma_listed_before_order(ov[p as int], ov[j - 1], x);
                    lemma_listed_before_order(ov[j - 1], ov[p as int], x);
                } else if i < p && j > p {
                    assert(nv[i] == ov[i] && nv[j] == ov[j - 1]);
                } else if j < p {
                    assert(nv[i] == ov[i] && nv[j] == ov[j]);
                } else {
                    assert(nv[i] == ov[i - 1] && nv[j] == ov[j - 1]);
                }
            }
        }
        k += 1;
    }
    assert(all.take(k as int) =~= all);
    out
}

/* ------------------------------- fan-out ------------------------------- */

/// A copy needs at least one selected session and one target.
pub fn fan_out_selection(n_sessions: usize, n_targets: usize) -> (r: Result<(), String>)
    ensures
        match r {
            Ok(()) => n_sessions > 0 && n_targets > 0,
            Err(e) => if n_sessions == 0 {
                e@ == "未选择任何会话"@
            } else {
                n_targets == 0 && e@ == "未选择任何目标实例"@
            },
        },
{
    if n_sessions == 0 {
        return Err("未选择任何会话".to_owned());
    }
    if n_targets == 0 {
        return Err("未选择任何目标实例".to_owned());
    }
    Ok(())
}

/// A target may not be the source instance itself.
pub fn self_target_refusal(source_id: &str, target_id: &str) -> (r: Result<(), String>)
    ensures
        match r {
            Ok(()) => source_id@ != target_id@,
            Err(e) => source_id@ == target_id@ && e@ == "目标实例不能与源实例相同"@,
        },
{
    if crate::text::chars_eq(&crate::text::chars_of(source_id), &crate::text::chars_of(target_id)) {
        return Err("目标实例不能与源实例相同".to_owned());
    }
    Ok(())
}

pub open spec fn external_target_message(target_id: Seq<char>) -> Seq<char> {
    "目标「"@ + target_id + "」是原地接入实例，其 DSH_HOME 由你自行管理，PHL 不向其写入会话"@
}

/// An in-place (external) instance manages its own home: no session is
/// ever written into it.
pub fn external_target_refusal(target_id: &str, external: bool) -> (r: Result<(), String>)
    ensures
        match r {
            Ok(()) => !external,
            Err(e) => external && e@ == external_target_message(target_id@),
        },
{
    if external {
        let a = crate::text::concat_chars(&crate::text::chars_of("目标「"), &crate::text::chars_of(target_id));
        let b = crate::text::concat_chars(&a, &crate::text::chars_of("」是原地接入实例，其 DSH_HOME 由你自行管理，PHL 不向其写入会话"));
        return Err(crate::text::string_of(&b));
    }
    Ok(())
}

/// What a copy needs to know of a target before anything is written.
#[derive(Debug)]
pub struct TargetGate {
    pub id: String,
    /// An in-place instance whose home the user manages.
    pub external: bool,
    /// Its DSH is running.
    pub running: bool,
}

pub open spec fn gate_view(t: TargetGate) -> (Seq<char>, bool, bool) {
    (t.id@, t.external, t.running)
}

/// A running instance's sessions are live: none is read from or written
/// into it.
pub open spec fn running_message(id: Seq<char>) -> Seq<char> {
    "实例「"@ + id + "」正在运行，请先停止它再复制会话"@
}

/// Why a target refuses a copy, if it does: it is the source, it is an
/// in-place instance, or it is running.
pub open spec fn target_refusal_spec(source_id: Seq<char>, t: (Seq<char>, bool, bool)) -> Option<Seq<char>> {
    if t.0 == source_id {
        Some("目标实例不能与源实例相同"@)
    } else if t.1 {
        Some(external_target_message(t.0))
    } else if t.2 {
        Some(running_message(t.0))
    } else {
        None
    }
}

/// The first refusing target from `k` on.
pub open spec fn first_target_refusal(source_id: Seq<char>, ts: Seq<(Seq<char>, bool, bool)>, k: int) -> Option<Seq<char>>
    decreases ts.len() - k,
{
    if k < 0 || k >= ts.len() {
        None
    } else {
        match target_refusal_spec(source_id, ts[k]) {
            Some(m) => Some(m),
            None => first_target_refusal(source_id, ts, k + 1),
        }
    }
}

/// Everything a copy checks before the first file is written: something
/// selected on both sides, a source that is not running, and then each
/// target in order, the first refusal winning.
pub open spec fn copy_gate_spec(
    n_sessions: nat,
    source_id: Seq<char>,
    source_running: bool,
    ts: Seq<(Seq<char>, bool, bool)>,
) -> Result<(), Seq<char>> {
    if n_sessions == 0 {
        Err("未选择任何会话"@)
    } else if ts.len() == 0 {
        Err("未选择任何目标实例"@)
    } else if source_running {
        Err(running_message(source_id))
    } else {
        match first_target_refusal(source_id, ts, 0) {
            Some(m) => Err(m),
            None => Ok(()),
        }
    }
}

fn running_refusal(id: &str) -> (r: String)
    ensures
        r@ == running_message(id@),
{
    let a = crate::text::concat_chars(&crate::text::chars_of("实例「"), &crate::text::chars_of(id));
    crate::text::string_of(&crate::text::concat_chars(&a, &crate::text::chars_of("」正在运行，请先停止它再复制会话")))
}

/// The checks of a copy before anything is written.
pub fn copy_gate(n_sessions: usize, source_id: &str, source_running: bool, targets: &Vec<TargetGate>) -> (r: Result<
    (),
    String,
>)
    ensures
        match r {
            Ok(()) => copy_gate_spec(n_sessions as nat, source_id@, source_running, targets@.map_values(|t: TargetGate| gate_view(t))) == Ok::<(), Seq<char>>(()),
            Err(e) => copy_gate_spec(n_sessions as nat, source_id@, source_running, targets@.map_values(|t: TargetGate| gate_view(t))) == Err::<(), Seq<char>>(e@),
        },
{
    let ghost ts = targets@.map_values(|t: TargetGate| gate_view(t));
    match fan_out_selection(n_sessions, targets.len()) {
        Err(e) => return Err(e),
        Ok(()) => {},
    }
    if source_running {
        return Err(running_refusal(source_id));
    }
    let mut k: usize = 0;
    while k < targets.len()
        invariant
            k <= targets.len(),
            n_sessions > 0,
            targets.len() > 0,
            !source_running,
            ts == targets@.map_values(|t: TargetGate| gate_view(t)),
            first_target_refusal(source_id@, ts, 0) == first_target_refusal(source_id@, ts, k as int),
        decreases targets.len() - k,
    {
        let t = &targets[k];
        assert(ts[k as int] == gate_view(*t));
        match self_target_refusal(source_id, t.id.as_str()) {
            Err(e) => {
                assert(first_target_refusal(source_id@, ts, k as int) == Some(e@));
                return Err(e);
            },
            Ok(()) => {},
        }
        match external_target_refusal(t.id.as_str(), t.external) {
            Err(e) => {
                assert(first_target_refusal(source_id@, ts, k as int) == Some(e@));
                return Err(e);
            },
            Ok(()) => {},
        }
        if t.running {
            let e = running_refusal(t.id.as_str());
            assert(first_target_refusal(source_id@, ts, k as int) == Some(e@));
            return Err(e);
        }
        k += 1;
    }
    Ok(())
}

} // verus!
