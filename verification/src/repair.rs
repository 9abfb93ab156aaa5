//! Environment repair and residue cleanup: which requested actions run
//! here, which are routed back to the user, which are refused, and which
//! leftovers count as residue.
//!
//! Repair only executes derivable actions (recreating directories the
//! manifest implies, sweeping stale transaction leftovers); anything that
//! needs a download is reported as requiring the user.

use vstd::prelude::*;
use crate::text::{chars_of, concat_chars, ends_with, ends_with_exec, lemma_views_push, starts_with, starts_with_exec, string_of, views};

verus! {

/// One leftover an installer can leave behind.
#[derive(Debug)]
pub struct ResidueItem {
    /// `versions` | `runtimes` | `cache`.
    pub kind: String,
    pub path: String,
    /// Bytes, best-effort.
    pub size: u64,
    /// False while the leftover is younger than the grace period.
    pub stale: bool,
}

/// What a repair did with the requested actions.
#[derive(Debug)]
pub struct RepairOutcome {
    pub applied: Vec<String>,
    /// Recognized but run by the user through the normal flows.
    pub requires_user: Vec<String>,
    /// Unknown action names, rejected outright.
    pub rejected: Vec<String>,
}

/// A repair action this module runs itself.
#[derive(PartialEq, Eq, Structural, Clone, Copy, Debug)]
pub enum LocalAction {
    RecreateWorkspace,
    RecreateSkeleton,
    CleanupTxn,
}

pub open spec fn local_action_spec(a: Seq<char>) -> Option<LocalAction> {
    if a == "recreate-workspace"@ {
        Some(LocalAction::RecreateWorkspace)
    } else if a == "recreate-skeleton"@ {
        Some(LocalAction::RecreateSkeleton)
    } else if a == "cleanup-txn"@ {
        Some(LocalAction::CleanupTxn)
    } else {
        None
    }
}

/// Actions verify can flag that need a download or user judgement.
pub open spec fn is_known_remote_spec(a: Seq<char>) -> bool {
    a == "install-version"@ || a == "reinstall-version"@ || a == "install-runtime"@ || a == "reinstall-runtime"@
}

fn is(a: &str, w: &str) -> (r: bool)
    ensures
        r == (a@ == w@),
{
    a.to_owned() == w.to_owned()
}

/// The local action an action name names, if it is one.
pub fn local_action(action: &str) -> (r: Option<LocalAction>)
    ensures
        r == local_action_spec(action@),
{
    if is(action, "recreate-workspace") {
        Some(LocalAction::RecreateWorkspace)
    } else if is(action, "recreate-skeleton") {
        Some(LocalAction::RecreateSkeleton)
    } else if is(action, "cleanup-txn") {
        Some(LocalAction::CleanupTxn)
    } else {
        None
    }
}

/// Whether an action is known but needs the user (a download).
pub fn is_known_remote_action(action: &str) -> (r: bool)
    ensures
        r == is_known_remote_spec(action@),
{
    is(action, "install-version") || is(action, "reinstall-version") || is(action, "install-runtime") || is(
        action,
        "reinstall-runtime",
    )
}

/// Whether routing an action runs it here or hands it to the user, rather
/// than rejecting it as unknown.
pub open spec fn routable(a: Seq<char>) -> bool {
    local_action_spec(a) is Some || is_known_remote_spec(a)
}

/// Every repair a verification offers can be carried out: each repair
/// action a check of the runtime, the runtime binary, the DSH version and
/// tree, or the workspace can carry is routed either to a local repair or
/// to the user (a download), never rejected as unknown.
pub proof fn lemma_offered_repairs_are_routable(
    runtime_id: Seq<char>,
    recorded: Option<Seq<char>>,
    binary_version: Seq<char>,
    probe: crate::verify::NodeProbe,
    name: Result<Seq<char>, Seq<char>>,
    installed: bool,
    entry_ok: bool,
    bin_ok: bool,
    deps_ok: bool,
    install_health: Seq<char>,
    skipped: Seq<Seq<char>>,
    workspace_exists: bool,
)
    ensures
        crate::verify::runtime_check_spec(runtime_id, recorded).repair_action is Some ==> routable(
            crate::verify::runtime_check_spec(runtime_id, recorded).repair_action->0,
        ),
        crate::verify::runtime_binary_spec(binary_version, probe).repair_action is Some ==> routable(
            crate::verify::runtime_binary_spec(binary_version, probe).repair_action->0,
        ),
        crate::verify::workspace_spec(workspace_exists).repair_action is Some ==> routable(
            crate::verify::workspace_spec(workspace_exists).repair_action->0,
        ),
        forall|k: int|
            0 <= k < crate::verify::dsh_checks_spec(name, installed, entry_ok, bin_ok, deps_ok, install_health, skipped).len()
                && (#[trigger] crate::verify::dsh_checks_spec(name, installed, entry_ok, bin_ok, deps_ok, install_health, skipped)[k]).repair_action is Some
                ==> routable(
                crate::verify::dsh_checks_spec(name, installed, entry_ok, bin_ok, deps_ok, install_health, skipped)[k].repair_action->0,
            ),
{
    reveal_strlit("install-version");
    reveal_strlit("reinstall-version");
    reveal_strlit("install-runtime");
    reveal_strlit("reinstall-runtime");
    reveal_strlit("recreate-workspace");
    reveal_strlit("recreate-skeleton");
    reveal_strlit("cleanup-txn");
}

/// A list with `x` added unless it is already there.
pub open spec fn add_once(s: Seq<Seq<char>>, x: Seq<char>) -> Seq<Seq<char>> {
    if s.contains(x) {
        s
    } else {
        s.push(x)
    }
}

fn push_once(v: &mut Vec<String>, x: &str)
    ensures
        views(final(v)@) == add_once(views(old(v)@), x@),
{
    let s = x.to_owned();
    if !crate::resources::contains_string(v, &s) {
        let ghost before = v@;
        v.push(s);
        proof {
            lemma_views_push(before, s);
        }
    }
}

impl RepairOutcome {
    pub open spec fn view(&self) -> (Seq<Seq<char>>, Seq<Seq<char>>, Seq<Seq<char>>) {
        (views(self.applied@), views(self.requires_user@), views(self.rejected@))
    }

    /// Nothing done yet.
    pub fn new() -> (r: Self)
        ensures
            r.view() == (Seq::<Seq<char>>::empty(), Seq::<Seq<char>>::empty(), Seq::<Seq<char>>::empty()),
    {
        let r = RepairOutcome { applied: Vec::new(), requires_user: Vec::new(), rejected: Vec::new() };
        assert(views(r.applied@) =~= Seq::<Seq<char>>::empty());
        assert(views(r.requires_user@) =~= Seq::<Seq<char>>::empty());
        assert(views(r.rejected@) =~= Seq::<Seq<char>>::empty());
        r
    }

    /// Routes one requested action: a local action is returned to be run;
    /// a known download-needing action is recorded once as requiring the
    /// user; anything else is rejected.
    pub fn route(&mut self, action: &str) -> (r: Option<LocalAction>)
        ensures
            r == local_action_spec(action@),
            match r {
                Some(_) => final(self).view() == old(self).view(),
                None => if is_known_remote_spec(action@) {
                    final(self).view() == (old(self).view().0, add_once(old(self).view().1, action@), old(self).view().2)
                } else {
                    final(self).view() == (old(self).view().0, old(self).view().1, old(self).view().2.push(action@))
                },
            },
    {
        match local_action(action) {
            Some(a) => Some(a),
            None => {
                if is_known_remote_action(action) {
                    push_once(&mut self.requires_user, action);
                } else {
                    let ghost before = self.rejected@;
                    let s = action.to_owned();
                    self.rejected.push(s);
                    proof {
                        lemma_views_push(before, s);
                    }
                }
                None
            },
        }
    }

    /// Records a local action that ran, once.
    pub fn record_applied(&mut self, action: &str)
        ensures
            final(self).view() == (add_once(old(self).view().0, action@), old(self).view().1, old(self).view().2),
    {
        push_once(&mut self.applied, action);
    }
}

/// The error a failed local action ends the repair with.
pub fn repair_failure(action: &str, error: &str) -> (r: String)
    ensures
        r@ == "修复动作 "@ + action@ + " 失败: "@ + error@,
{
    let a = concat_chars(&chars_of("修复动作 "), &chars_of(action));
    let b = concat_chars(&a, &chars_of(" 失败: "));
    string_of(&concat_chars(&b, &chars_of(error)))
}

/// Routing never runs an unknown action and never reports one twice as
/// requiring the user.
pub proof fn lemma_route_is_a_whitelist(action: Seq<char>)
    ensures
        local_action_spec(action).is_some() ==> (action == "recreate-workspace"@ || action == "recreate-skeleton"@
            || action == "cleanup-txn"@),
        forall|s: Seq<Seq<char>>| #[trigger] add_once(add_once(s, action), action) == add_once(s, action),
{
    assert forall|s: Seq<Seq<char>>| #[trigger] add_once(add_once(s, action), action) == add_once(s, action) by {
        if !s.contains(action) {
            assert(s.push(action)[s.len() as int] == action);
        }
    }
}

/* -------------------------------- residue -------------------------------- */

/// A leftover is stale when it was last modified before the cutoff, or
/// when its modification time cannot be read.
pub fn is_stale(modified: Option<u128>, cutoff: u128) -> (r: bool)
    ensures
        r == match modified {
            Some(m) => m < cutoff,
            None => true,
        },
{
    match modified {
        Some(m) => m < cutoff,
        None => true,
    }
}

/// A runtime-directory name left by the pre-transactional installers.
pub open spec fn is_legacy_staging_spec(name: Seq<char>) -> bool {
    starts_with(name, ".phl-new-"@) || starts_with(name, ".phl-old-"@)
}

/// Whether a runtime-directory name is a legacy staging leftover.
pub fn is_legacy_staging(name: &str) -> (r: bool)
    ensures
        r == is_legacy_staging_spec(name@),
{
    let n = chars_of(name);
    starts_with_exec(&n, &chars_of(".phl-new-")) || starts_with_exec(&n, &chars_of(".phl-old-"))
}

/// Whether a cache file name is an orphaned download fragment.
pub fn is_part_fragment(name: &str) -> (r: bool)
    ensures
        r == ends_with(name@, ".part"@),
{
    ends_with_exec(&chars_of(name), &chars_of(".part"))
}

} // verus!
