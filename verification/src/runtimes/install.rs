//! The runtime install pipeline: where the dist archive is fetched from, and
//! the decisions between the steps (download, SHASUMS256 check, extraction,
//! install record, health gate, archive keeping, promotion), as a state
//! machine that the host drives.

use vstd::prelude::*;

use crate::pipeline::{cancelled_word, StepEvent, StepEventView};
use crate::runtimes::{dist_platform, platform_spec};
use crate::text::{chars_of, concat_str, ends_with, ends_with_exec, slice_prefix, string_of};

verus! {

/// A base URL without its trailing slashes.
pub open spec fn trim_slashes(s: Seq<char>) -> Seq<char>
    decreases s.len(),
{
    if s.len() > 0 && s.last() == '/' {
        trim_slashes(s.drop_last())
    } else {
        s
    }
}

/// The dist archive of a version for a platform: `node-v<version>-<platform>`.
pub open spec fn archive_name(version: Seq<char>, platform: Seq<char>) -> Seq<char> {
    "node-v"@ + version + "-"@ + platform
}

/// Where the archive is published: `<base>/v<version>/<archive>`.
pub open spec fn archive_url(base: Seq<char>, version: Seq<char>, archive: Seq<char>) -> Seq<char> {
    trim_slashes(base) + "/v"@ + version + "/"@ + archive
}

fn trimmed_base(base: &str) -> (r: String)
    ensures
        r@ == trim_slashes(base@),
{
    let c = chars_of(base);
    let mut n: usize = c.len();
    proof {
        assert(c@.take(n as int) =~= c@);
    }
    while n > 0 && c[n - 1] == '/'
        invariant
            n <= c.len(),
            trim_slashes(c@.take(n as int)) == trim_slashes(c@),
        decreases n,
    {
        assert(c@.take(n as int).drop_last() =~= c@.take(n - 1));
        n -= 1;
    }
    string_of(&slice_prefix(&c, n))
}

/// Where an install stands between two steps.
#[derive(Clone, Copy, PartialEq, Eq, Debug, Structural)]
pub enum RuntimeInstallPhase {
    Downloading,
    Verifying,
    Extracting,
    WritingRecord,
    CheckingHealth,
    StoringArchive,
    Promoting,
    Done,
    Failed,
}

/// An install in progress.
#[derive(Debug)]
pub struct RuntimeInstallState {
    pub phase: RuntimeInstallPhase,
    /// `node-v<version>-<platform>`.
    pub archive: String,
    /// The archive is a `.zip` (Windows) rather than a `.tar.gz`.
    pub zip: bool,
    /// Keep the downloaded archive in the cache after the install.
    pub keep_archive: bool,
}

pub struct RuntimeInstallStateView {
    pub phase: RuntimeInstallPhase,
    pub archive: Seq<char>,
    pub zip: bool,
    pub keep_archive: bool,
}

impl RuntimeInstallState {
    pub open spec fn view(&self) -> RuntimeInstallStateView {
        RuntimeInstallStateView {
            phase: self.phase,
            archive: self.archive@,
            zip: self.zip,
            keep_archive: self.keep_archive,
        }
    }
}

/// What the host is asked to do next.
#[derive(Debug)]
pub enum RuntimeInstallAction {
    Download { url: String },
    /// Check the archive against the release's SHASUMS256 entry for it.
    VerifyArchive { archive: String },
    Extract { zip: bool },
    WriteRecord,
    CheckHealth,
    /// Move the archive into the cache, or delete it.
    StoreArchive { keep: bool },
    Promote,
    Succeed,
    /// Report the failure; remove the staging tree first when asked.
    Fail { message: String, remove_staging: bool },
    Nothing,
}

pub enum RuntimeInstallActionView {
    Download { url: Seq<char> },
    VerifyArchive { archive: Seq<char> },
    Extract { zip: bool },
    WriteRecord,
    CheckHealth,
    StoreArchive { keep: bool },
    Promote,
    Succeed,
    Fail { message: Seq<char>, remove_staging: bool },
    Nothing,
}

impl RuntimeInstallAction {
    pub open spec fn view(&self) -> RuntimeInstallActionView {
        match self {
            RuntimeInstallAction::Download { url } => RuntimeInstallActionView::Download { url: url@ },
            RuntimeInstallAction::VerifyArchive { archive } => RuntimeInstallActionView::VerifyArchive {
                archive: archive@,
            },
            RuntimeInstallAction::Extract { zip } => RuntimeInstallActionView::Extract { zip: *zip },
            RuntimeInstallAction::WriteRecord => RuntimeInstallActionView::WriteRecord,
            RuntimeInstallAction::CheckHealth => RuntimeInstallActionView::CheckHealth,
            RuntimeInstallAction::StoreArchive { keep } => RuntimeInstallActionView::StoreArchive { keep: *keep },
            RuntimeInstallAction::Promote => RuntimeInstallActionView::Promote,
            RuntimeInstallAction::Succeed => RuntimeInstallActionView::Succeed,
            RuntimeInstallAction::Fail { message, remove_staging } => RuntimeInstallActionView::Fail {
                message: message@,
                remove_staging: *remove_staging,
            },
            RuntimeInstallAction::Nothing => RuntimeInstallActionView::Nothing,
        }
    }
}

/// How an install starts: a cancel requested before it refuses it, an
/// unsupported host refuses it, else the archive for the host is
/// downloaded.
pub open spec fn runtime_install_begin_spec(
    dist_base: Seq<char>,
    version: Seq<char>,
    os: Seq<char>,
    arch: Seq<char>,
    keep_archive: bool,
    cancelled: bool,
) -> Result<(RuntimeInstallStateView, RuntimeInstallActionView), Seq<char>> {
    if cancelled {
        Err(cancelled_word())
    } else {
        match platform_spec(os, arch) {
            Err(e) => Err(e),
            Ok(p) => Ok(
                (
                    RuntimeInstallStateView {
                        phase: RuntimeInstallPhase::Downloading,
                        archive: archive_name(version, p),
                        zip: ends_with(p, ".zip"@),
                        keep_archive,
                    },
                    RuntimeInstallActionView::Download {
                        url: archive_url(dist_base, version, archive_name(version, p)),
                    },
                ),
            ),
        }
    }
}

pub open spec fn begin_view(r: Result<(RuntimeInstallState, RuntimeInstallAction), String>) -> Result<
    (RuntimeInstallStateView, RuntimeInstallActionView),
    Seq<char>,
> {
    match r {
        Ok((s, a)) => Ok((s@, a@)),
        Err(e) => Err(e@),
    }
}

/// Starts an install of `version` for the host `os`/`arch`.
pub fn runtime_install_begin(
    dist_base: &str,
    version: &str,
    os: &str,
    arch: &str,
    keep_archive: bool,
    cancelled: bool,
) -> (r: Result<(RuntimeInstallState, RuntimeInstallAction), String>)
    ensures
        begin_view(r) == runtime_install_begin_spec(dist_base@, version@, os@, arch@, keep_archive, cancelled),
{
    if cancelled {
        let m = "cancelled".to_string();
        proof {
            reveal_strlit("cancelled");
            assert(m@ =~= cancelled_word());
        }
        return Err(m);
    }
    let platform = match dist_platform(os, arch) {
        Ok(p) => p,
        Err(e) => return Err(e),
    };
    let a = concat_str("node-v", version);
    let a = concat_str(a.as_str(), "-");
    let archive = concat_str(a.as_str(), platform.as_str());
    let zip = ends_with_exec(&chars_of(platform.as_str()), &chars_of(".zip"));
    let base = trimmed_base(dist_base);
    let u = concat_str(base.as_str(), "/v");
    let u = concat_str(u.as_str(), version);
    let u = concat_str(u.as_str(), "/");
    let url = concat_str(u.as_str(), archive.as_str());
    Ok((
        RuntimeInstallState { phase: RuntimeInstallPhase::Downloading, archive, zip, keep_archive },
        RuntimeInstallAction::Download { url },
    ))
}

pub open spec fn runtime_moved(s: RuntimeInstallStateView, phase: RuntimeInstallPhase) -> RuntimeInstallStateView {
    RuntimeInstallStateView { phase, archive: s.archive, zip: s.zip, keep_archive: s.keep_archive }
}

/// The refusal of a runtime that failed its health gate.
pub open spec fn health_refusal(e: Seq<char>) -> Seq<char> {
    "Runtime 校验未通过，安装中止: "@ + e
}

/// The pipeline's decision on a step's outcome. Every step must go through;
/// a failed step's message is passed on unchanged, except that a failed
/// health gate also removes the staging tree and says why the install
/// stopped; promotion waits for a healthy runtime.
pub open spec fn runtime_install_spec(s: RuntimeInstallStateView, ev: StepEventView) -> (
    RuntimeInstallStateView,
    RuntimeInstallActionView,
) {
    match ev {
        StepEventView::Failed(e) => match s.phase {
            RuntimeInstallPhase::Done | RuntimeInstallPhase::Failed => (s, RuntimeInstallActionView::Nothing),
            RuntimeInstallPhase::CheckingHealth => (
                runtime_moved(s, RuntimeInstallPhase::Failed),
                RuntimeInstallActionView::Fail { message: health_refusal(e), remove_staging: true },
            ),
            _ => (
                runtime_moved(s, RuntimeInstallPhase::Failed),
                RuntimeInstallActionView::Fail { message: e, remove_staging: false },
            ),
        },
        StepEventView::Succeeded { .. } => match s.phase {
            RuntimeInstallPhase::Downloading => (
                runtime_moved(s, RuntimeInstallPhase::Verifying),
                RuntimeInstallActionView::VerifyArchive { archive: s.archive },
            ),
            RuntimeInstallPhase::Verifying => (
                runtime_moved(s, RuntimeInstallPhase::Extracting),
                RuntimeInstallActionView::Extract { zip: s.zip },
            ),
            RuntimeInstallPhase::Extracting => (
                runtime_moved(s, RuntimeInstallPhase::WritingRecord),
                RuntimeInstallActionView::WriteRecord,
            ),
            RuntimeInstallPhase::WritingRecord => (
                runtime_moved(s, RuntimeInstallPhase::CheckingHealth),
                RuntimeInstallActionView::CheckHealth,
            ),
            RuntimeInstallPhase::CheckingHealth => (
                runtime_moved(s, RuntimeInstallPhase::StoringArchive),
                RuntimeInstallActionView::StoreArchive { keep: s.keep_archive },
            ),
            RuntimeInstallPhase::StoringArchive => (
                runtime_moved(s, RuntimeInstallPhase::Promoting),
                RuntimeInstallActionView::Promote,
            ),
            RuntimeInstallPhase::Promoting => (
                runtime_moved(s, RuntimeInstallPhase::Done),
                RuntimeInstallActionView::Succeed,
            ),
            RuntimeInstallPhase::Done | RuntimeInstallPhase::Failed => (s, RuntimeInstallActionView::Nothing),
        },
    }
}

fn copy_str(s: &String) -> (r: String)
    ensures
        r@ == s@,
{
    s.clone()
}

fn runtime_to(s: &RuntimeInstallState, phase: RuntimeInstallPhase) -> (r: RuntimeInstallState)
    ensures
        r@ == runtime_moved(s@, phase),
{
    RuntimeInstallState { phase, archive: copy_str(&s.archive), zip: s.zip, keep_archive: s.keep_archive }
}

/// Decides what follows a step's outcome.
pub fn runtime_install_step(s: &RuntimeInstallState, ev: StepEvent) -> (r: (RuntimeInstallState, RuntimeInstallAction))
    ensures
        (r.0@, r.1@) == runtime_install_spec(s@, ev@),
{
    match ev {
        StepEvent::Failed(e) => match s.phase {
            RuntimeInstallPhase::Done | RuntimeInstallPhase::Failed => (runtime_to(s, s.phase), RuntimeInstallAction::Nothing),
            RuntimeInstallPhase::CheckingHealth => (
                runtime_to(s, RuntimeInstallPhase::Failed),
                RuntimeInstallAction::Fail {
                    message: concat_str("Runtime 校验未通过，安装中止: ", e.as_str()),
                    remove_staging: true,
                },
            ),
            _ => (runtime_to(s, RuntimeInstallPhase::Failed), RuntimeInstallAction::Fail { message: e, remove_staging: false }),
        },
        StepEvent::Succeeded { .. } => match s.phase {
            RuntimeInstallPhase::Downloading => (
                runtime_to(s, RuntimeInstallPhase::Verifying),
                RuntimeInstallAction::VerifyArchive { archive: copy_str(&s.archive) },
            ),
            RuntimeInstallPhase::Verifying => (
                runtime_to(s, RuntimeInstallPhase::Extracting),
                RuntimeInstallAction::Extract { zip: s.zip },
            ),
            RuntimeInstallPhase::Extracting => (runtime_to(s, RuntimeInstallPhase::WritingRecord), RuntimeInstallAction::WriteRecord),
            RuntimeInstallPhase::WritingRecord => (runtime_to(s, RuntimeInstallPhase::CheckingHealth), RuntimeInstallAction::CheckHealth),
            RuntimeInstallPhase::CheckingHealth => (
                runtime_to(s, RuntimeInstallPhase::StoringArchive),
                RuntimeInstallAction::StoreArchive { keep: s.keep_archive },
            ),
            RuntimeInstallPhase::StoringArchive => (runtime_to(s, RuntimeInstallPhase::Promoting), RuntimeInstallAction::Promote),
            RuntimeInstallPhase::Promoting => (runtime_to(s, RuntimeInstallPhase::Done), RuntimeInstallAction::Succeed),
            RuntimeInstallPhase::Done | RuntimeInstallPhase::Failed => (runtime_to(s, s.phase), RuntimeInstallAction::Nothing),
        },
    }
}

/* -------------------------------- laws --------------------------------- */

/// Whether a phase comes before the health gate has passed.
pub open spec fn before_gate(phase: RuntimeInstallPhase) -> bool {
    phase == RuntimeInstallPhase::Downloading || phase == RuntimeInstallPhase::Verifying || phase
        == RuntimeInstallPhase::Extracting || phase == RuntimeInstallPhase::WritingRecord || phase
        == RuntimeInstallPhase::CheckingHealth
}

/// The installed runtime is only replaced after the health gate passed: no
/// step before it asks for the promotion, and a failure on the way never
/// does either.
pub proof fn lemma_promote_only_after_gate(s: RuntimeInstallStateView, ev: StepEventView)
    ensures
        runtime_install_spec(s, ev).1 == RuntimeInstallActionView::Promote ==> s.phase
            == RuntimeInstallPhase::StoringArchive && ev is Succeeded,
        before_gate(s.phase) ==> before_gate(runtime_install_spec(s, ev).0.phase) || runtime_install_spec(s, ev).0.phase
            == RuntimeInstallPhase::Failed || (s.phase == RuntimeInstallPhase::CheckingHealth && ev is Succeeded),
{
}

/// No archive is extracted before it matched the release's SHASUMS256
/// entry: extraction follows only a verification that went through.
pub proof fn lemma_extract_only_after_checksum(s: RuntimeInstallStateView, ev: StepEventView)
    ensures
        runtime_install_spec(s, ev).1 is Extract ==> s.phase == RuntimeInstallPhase::Verifying && ev is Succeeded,
{
}

/// A failed step ends the install with the failure reported; only the
/// health gate's failure also clears the staging tree.
pub proof fn lemma_failure_ends_install(s: RuntimeInstallStateView, e: Seq<char>)
    requires
        s.phase != RuntimeInstallPhase::Done,
        s.phase != RuntimeInstallPhase::Failed,
    ensures
        runtime_install_spec(s, StepEventView::Failed(e)).0.phase == RuntimeInstallPhase::Failed,
        runtime_install_spec(s, StepEventView::Failed(e)).1 == (if s.phase == RuntimeInstallPhase::CheckingHealth {
            RuntimeInstallActionView::Fail { message: health_refusal(e), remove_staging: true }
        } else {
            RuntimeInstallActionView::Fail { message: e, remove_staging: false }
        }),
{
}

} // verus!
