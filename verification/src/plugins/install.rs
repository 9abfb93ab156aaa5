//! The plugin install pipeline: the integrity check of a downloaded package
//! and the decisions between the steps (recover, resolve, download, verify,
//! extract and swap, commit), as a state machine that the host drives.

use vstd::prelude::*;

use crate::pipeline::{cancelled_word, StepEvent, StepEventView};
use crate::plugins::market::{
    compute_trust, registry_id_of, registry_id_spec, sanitize_pkg_path, source_kind, trust_spec,
    valid_pkg_path, PluginInstallOutcome, PluginSourceWire, ResolvedSource,
};
use crate::text::{chars_eq, chars_of, concat_str};

verus! {

/* ------------------------------ integrity ------------------------------ */

/// A six-bit value in the standard base64 alphabet of RFC 4648.
pub open spec fn b64_digit(v: int) -> char {
    if v < 26 {
        (65 + v) as char
    } else if v < 52 {
        (97 + v - 26) as char
    } else if v < 62 {
        (48 + v - 52) as char
    } else if v == 62 {
        '+'
    } else {
        '/'
    }
}

/// Standard base64 with `=` padding: every three bytes become four digits,
/// and a last group of one or two bytes is padded to four.
pub open spec fn base64_standard(b: Seq<u8>) -> Seq<char>
    decreases b.len(),
{
    if b.len() == 0 {
        Seq::empty()
    } else if b.len() == 1 {
        seq![b64_digit(b[0] as int / 4), b64_digit((b[0] as int % 4) * 16), '=', '=']
    } else if b.len() == 2 {
        seq![
            b64_digit(b[0] as int / 4),
            b64_digit((b[0] as int % 4) * 16 + b[1] as int / 16),
            b64_digit((b[1] as int % 16) * 4),
            '=',
        ]
    } else {
        seq![
            b64_digit(b[0] as int / 4),
            b64_digit((b[0] as int % 4) * 16 + b[1] as int / 16),
            b64_digit((b[1] as int % 16) * 4 + b[2] as int / 64),
            b64_digit(b[2] as int % 64),
        ] + base64_standard(b.skip(3))
    }
}

/// The SHA-512 digest of some bytes, as `sha2::Sha512` computes it.
pub uninterp spec fn sha512_of(b: Seq<u8>) -> Seq<u8>;

/// Encodes bytes with `base64::engine::general_purpose::STANDARD`. Trusted:
/// that engine writes the RFC 4648 standard alphabet with `=` padding, as
/// [`base64_standard`] spells it out.
#[verifier::external_body]
fn base64_encode(bytes: &[u8]) -> (r: String)
    ensures
        r@ == base64_standard(bytes@),
{
    base64::Engine::encode(&base64::engine::general_purpose::STANDARD, bytes)
}

/// Hashes bytes with `sha2::Sha512::digest`. Trusted: the digest is a
/// function of the bytes ([`sha512_of`]) and is 64 bytes long, as the
/// `Sha512` type's output size fixes.
#[verifier::external_body]
fn sha512_digest(bytes: &[u8]) -> (r: Vec<u8>)
    ensures
        r@ == sha512_of(bytes@),
        r@.len() == 64,
{
    <sha2::Sha512 as sha2::Digest>::digest(bytes).to_vec()
}

/// npm's spelling of a SHA-512 digest: `sha512-` and its standard base64.
pub open spec fn integrity_text(digest: Seq<u8>) -> Seq<char> {
    "sha512-"@ + base64_standard(digest)
}

/// The integrity text of a digest, in npm's `sha512-<base64>` shape.
pub fn sha512_integrity(digest: &[u8]) -> (r: String)
    ensures
        r@ == integrity_text(digest@),
{
    let encoded = base64_encode(digest);
    concat_str("sha512-", encoded.as_str())
}

/// The refusal of a package whose digest is not the one the registry named.
pub open spec fn integrity_mismatch(expected: Seq<char>, actual: Seq<char>) -> Seq<char> {
    "校验失败：下载内容与 registry 声明的 integrity 不一致（声明 "@ + expected + "，实际 "@ + actual
        + "）"@
}

/// What the integrity check answers: a registry that names no integrity
/// skips the check; one that names it must name exactly the digest's.
pub open spec fn check_integrity_spec(expected: Option<Seq<char>>, digest: Seq<u8>) -> Result<(), Seq<char>> {
    match expected {
        None => Ok(()),
        Some(x) => if x == integrity_text(digest) {
            Ok(())
        } else {
            Err(integrity_mismatch(x, integrity_text(digest)))
        },
    }
}

pub open spec fn opt_str_view(o: Option<&str>) -> Option<Seq<char>> {
    match o {
        Some(s) => Some(s@),
        None => None,
    }
}

pub open spec fn unit_result_view(r: Result<(), String>) -> Result<(), Seq<char>> {
    match r {
        Ok(()) => Ok(()),
        Err(e) => Err(e@),
    }
}

/// Checks a package digest against the integrity the registry published.
pub fn check_integrity(expected: Option<&str>, digest: &[u8]) -> (r: Result<(), String>)
    ensures
        unit_result_view(r) == check_integrity_spec(opt_str_view(expected), digest@),
{
    match expected {
        None => Ok(()),
        Some(x) => {
            let actual = sha512_integrity(digest);
            if chars_eq(&chars_of(x), &chars_of(actual.as_str())) {
                Ok(())
            } else {
                let m = concat_str("校验失败：下载内容与 registry 声明的 integrity 不一致（声明 ", x);
                let m = concat_str(m.as_str(), "，实际 ");
                let m = concat_str(m.as_str(), actual.as_str());
                Err(concat_str(m.as_str(), "）"))
            }
        },
    }
}

/// Verifies a downloaded package: its SHA-512 digest is taken and checked
/// against the registry's integrity; on success the integrity text of what
/// actually landed is returned, for the install record.
pub fn verify_package(bytes: &[u8], expected: Option<&str>) -> (r: Result<String, String>)
    ensures
        match r {
            Ok(actual) => check_integrity_spec(opt_str_view(expected), sha512_of(bytes@)) == Ok::<(), Seq<char>>(())
                && actual@ == integrity_text(sha512_of(bytes@)),
            Err(e) => check_integrity_spec(opt_str_view(expected), sha512_of(bytes@)) == Err::<(), Seq<char>>(e@),
        },
{
    let digest = sha512_digest(bytes);
    match check_integrity(expected, &digest) {
        Ok(()) => Ok(sha512_integrity(&digest)),
        Err(e) => Err(e),
    }
}

/* ------------------------------ the result ------------------------------ */

/// The facts an install writes into its `phl-plugin.json` record, besides
/// the time, the catalog id and the source, which are written as given.
#[derive(Debug)]
pub struct InstallRecord {
    pub version: String,
    /// `npm`, `tarball` or `github`.
    pub kind: String,
    pub registry_id: String,
    /// The commit a GitHub install was pinned to.
    pub pinned_ref: Option<String>,
    /// The integrity the registry published; empty when it published none.
    pub integrity: String,
    /// The integrity of what was actually downloaded.
    pub actual_integrity: String,
    pub trust: String,
    pub bytes: u64,
}

pub open spec fn kind_spec(source: PluginSourceWire) -> Seq<char> {
    match source {
        PluginSourceWire::Npm { .. } => "npm"@,
        PluginSourceWire::Tarball { .. } => "tarball"@,
        PluginSourceWire::Github { .. } => "github"@,
    }
}

/// What a finished install reports and records, from the source, what
/// resolving it gave, and the digest and size of the downloaded package:
/// the registry id the source installs under (refused when it is no plain
/// package path), the resolved version, and the trust its facts earn.
pub fn install_result(source: &PluginSourceWire, resolved: &ResolvedSource, digest: &[u8], bytes: u64) -> (r: Result<
    (PluginInstallOutcome, InstallRecord),
    String,
>)
    ensures
        match r {
            Ok((o, m)) => {
                let id = registry_id_spec(*source);
                let trust = trust_spec(*source, resolved.integrity.is_some(), resolved.commit.is_some());
                &&& valid_pkg_path(id)
                &&& o.registry_id@ == id && o.version@ == resolved.version@ && o.trust@ == trust
                &&& m.version@ == resolved.version@ && m.kind@ == kind_spec(*source) && m.registry_id@ == id
                &&& crate::sessions::codec::opt_view(m.pinned_ref) == crate::sessions::codec::opt_view(
                    resolved.commit,
                )
                &&& m.integrity@ == (match resolved.integrity {
                    Some(i) => i@,
                    None => Seq::empty(),
                })
                &&& m.actual_integrity@ == integrity_text(digest@)
                &&& m.trust@ == trust
                &&& m.bytes == bytes
            },
            Err(e) => !valid_pkg_path(registry_id_spec(*source)) && e@ == "非法的插件标识: "@ + registry_id_spec(
                *source,
            ),
        },
{
    let raw = registry_id_of(source);
    let id = match sanitize_pkg_path(raw.as_str()) {
        Ok(id) => id,
        Err(e) => return Err(e),
    };
    let trust = compute_trust(source, resolved);
    let outcome = PluginInstallOutcome {
        version: resolved.version.clone(),
        registry_id: id.clone(),
        trust: trust.to_string(),
    };
    let record = InstallRecord {
        version: resolved.version.clone(),
        kind: source_kind(source).to_string(),
        registry_id: id,
        pinned_ref: match &resolved.commit {
            Some(c) => Some(c.clone()),
            None => None,
        },
        integrity: match &resolved.integrity {
            Some(i) => i.clone(),
            None => String::new(),
        },
        actual_integrity: sha512_integrity(digest),
        trust: trust.to_string(),
        bytes,
    };
    Ok((outcome, record))
}

/* ---------------------------- the pipeline ----------------------------- */

/// Where an install stands between two steps.
#[derive(Clone, Copy, PartialEq, Eq, Debug, Structural)]
pub enum PluginInstallPhase {
    /// Recovering an earlier interrupted transaction, before anything else.
    Recovering,
    Resolving,
    Downloading,
    Verifying,
    /// Extracting to staging, backing the old package up and swapping.
    Swapping,
    /// Rolling back after the swap failed; the failure waits in `pending`.
    RecoveringAfterSwap,
    /// Writing the record, installing dependencies, registering.
    Committing,
    /// Rolling back after the commit failed; the failure waits in `pending`.
    RecoveringAfterCommit,
    /// Clearing the committed transaction.
    Finishing,
    Done,
    Failed,
}

/// An install in progress.
#[derive(Debug)]
pub struct PluginInstallState {
    pub phase: PluginInstallPhase,
    /// The failure reported once a rollback has run.
    pub pending: String,
    /// Where the transaction keeps the backup, for the message of a rollback
    /// that did not complete.
    pub txn_dir: String,
}

pub struct PluginInstallStateView {
    pub phase: PluginInstallPhase,
    pub pending: Seq<char>,
    pub txn_dir: Seq<char>,
}

impl PluginInstallState {
    pub open spec fn view(&self) -> PluginInstallStateView {
        PluginInstallStateView { phase: self.phase, pending: self.pending@, txn_dir: self.txn_dir@ }
    }
}

/// What the host is asked to do next.
#[derive(Debug)]
pub enum PluginInstallAction {
    RecoverTransaction,
    Resolve,
    Download,
    CheckIntegrity,
    ExtractAndSwap,
    Commit,
    /// Remove the downloaded package and report the install.
    Succeed,
    /// Report the failure; remove the downloaded package first when asked.
    Fail { message: String, remove_part: bool },
    /// The install is over: nothing is left to do.
    Nothing,
}

pub enum PluginInstallActionView {
    RecoverTransaction,
    Resolve,
    Download,
    CheckIntegrity,
    ExtractAndSwap,
    Commit,
    Succeed,
    Fail { message: Seq<char>, remove_part: bool },
    Nothing,
}

impl PluginInstallAction {
    pub open spec fn view(&self) -> PluginInstallActionView {
        match self {
            PluginInstallAction::RecoverTransaction => PluginInstallActionView::RecoverTransaction,
            PluginInstallAction::Resolve => PluginInstallActionView::Resolve,
            PluginInstallAction::Download => PluginInstallActionView::Download,
            PluginInstallAction::CheckIntegrity => PluginInstallActionView::CheckIntegrity,
            PluginInstallAction::ExtractAndSwap => PluginInstallActionView::ExtractAndSwap,
            PluginInstallAction::Commit => PluginInstallActionView::Commit,
            PluginInstallAction::Succeed => PluginInstallActionView::Succeed,
            PluginInstallAction::Fail { message, remove_part } => PluginInstallActionView::Fail {
                message: message@,
                remove_part: *remove_part,
            },
            PluginInstallAction::Nothing => PluginInstallActionView::Nothing,
        }
    }
}

pub open spec fn moved_to(s: PluginInstallStateView, phase: PluginInstallPhase) -> PluginInstallStateView {
    PluginInstallStateView { phase, pending: s.pending, txn_dir: s.txn_dir }
}

pub open spec fn failing(s: PluginInstallStateView, message: Seq<char>, remove_part: bool) -> (
    PluginInstallStateView,
    PluginInstallActionView,
) {
    (moved_to(s, PluginInstallPhase::Failed), PluginInstallActionView::Fail { message, remove_part })
}

pub open spec fn rolling_back(s: PluginInstallStateView, phase: PluginInstallPhase, error: Seq<char>) -> (
    PluginInstallStateView,
    PluginInstallActionView,
) {
    (
        PluginInstallStateView { phase, pending: error, txn_dir: s.txn_dir },
        PluginInstallActionView::RecoverTransaction,
    )
}

/// A failed swap, rolled back (or not).
pub open spec fn swap_failure(pending: Seq<char>, recovery: Option<Seq<char>>) -> Seq<char> {
    match recovery {
        None => pending,
        Some(r) => pending + "；恢复未完成: "@ + r,
    }
}

/// A failed commit, rolled back (or not).
pub open spec fn commit_failure(pending: Seq<char>, txn_dir: Seq<char>, recovered: bool) -> Seq<char> {
    if recovered {
        "安装提交失败，已恢复原来的插件："@ + pending
    } else {
        "安装提交失败，恢复未完成，旧版本保留在 "@ + txn_dir + "，请重试或手动处理："@ + pending
    }
}

/// The pipeline's decision on a step's outcome. A cancel is honoured up to
/// the integrity check and never after the swap; every failure after the
/// swap rolls the transaction back before it is reported; the downloaded
/// package is removed when a download failed for another reason than a
/// cancel (which keeps it for a resumed download), when verification or a
/// commit failed, and on success.
pub open spec fn plugin_install_spec(s: PluginInstallStateView, ev: StepEventView) -> (
    PluginInstallStateView,
    PluginInstallActionView,
) {
    match s.phase {
        PluginInstallPhase::Recovering => match ev {
            StepEventView::Succeeded { .. } => (
                moved_to(s, PluginInstallPhase::Resolving),
                PluginInstallActionView::Resolve,
            ),
            StepEventView::Failed(e) => failing(s, e, false),
        },
        PluginInstallPhase::Resolving => match ev {
            StepEventView::Succeeded { cancelled } => if cancelled {
                failing(s, cancelled_word(), false)
            } else {
                (moved_to(s, PluginInstallPhase::Downloading), PluginInstallActionView::Download)
            },
            StepEventView::Failed(e) => failing(s, e, false),
        },
        PluginInstallPhase::Downloading => match ev {
            StepEventView::Succeeded { .. } => (
                moved_to(s, PluginInstallPhase::Verifying),
                PluginInstallActionView::CheckIntegrity,
            ),
            StepEventView::Failed(e) => failing(s, e, e != cancelled_word()),
        },
        PluginInstallPhase::Verifying => match ev {
            StepEventView::Succeeded { cancelled } => if cancelled {
                failing(s, cancelled_word(), true)
            } else {
                (moved_to(s, PluginInstallPhase::Swapping), PluginInstallActionView::ExtractAndSwap)
            },
            StepEventView::Failed(e) => failing(s, e, true),
        },
        PluginInstallPhase::Swapping => match ev {
            StepEventView::Succeeded { .. } => (
                moved_to(s, PluginInstallPhase::Committing),
                PluginInstallActionView::Commit,
            ),
            StepEventView::Failed(e) => rolling_back(s, PluginInstallPhase::RecoveringAfterSwap, e),
        },
        PluginInstallPhase::RecoveringAfterSwap => match ev {
            StepEventView::Succeeded { .. } => failing(s, swap_failure(s.pending, None), false),
            StepEventView::Failed(r) => failing(s, swap_failure(s.pending, Some(r)), false),
        },
        PluginInstallPhase::Committing => match ev {
            StepEventView::Succeeded { .. } => (
                moved_to(s, PluginInstallPhase::Finishing),
                PluginInstallActionView::RecoverTransaction,
            ),
            StepEventView::Failed(e) => rolling_back(s, PluginInstallPhase::RecoveringAfterCommit, e),
        },
        PluginInstallPhase::RecoveringAfterCommit => match ev {
            StepEventView::Succeeded { .. } => failing(s, commit_failure(s.pending, s.txn_dir, true), true),
            StepEventView::Failed(_) => failing(s, commit_failure(s.pending, s.txn_dir, false), true),
        },
        PluginInstallPhase::Finishing => match ev {
            StepEventView::Succeeded { .. } => (
                moved_to(s, PluginInstallPhase::Done),
                PluginInstallActionView::Succeed,
            ),
            StepEventView::Failed(e) => failing(s, e, false),
        },
        PluginInstallPhase::Done | PluginInstallPhase::Failed => (s, PluginInstallActionView::Nothing),
    }
}

fn copy_str(s: &String) -> (r: String)
    ensures
        r@ == s@,
{
    s.clone()
}

fn cancelled_message() -> (r: String)
    ensures
        r@ == cancelled_word(),
{
    let r = "cancelled".to_string();
    proof {
        reveal_strlit("cancelled");
    }
    r
}

fn fail_with(s: &PluginInstallState, message: String, remove_part: bool) -> (r: (PluginInstallState, PluginInstallAction))
    ensures
        (r.0@, r.1@) == failing(s@, message@, remove_part),
{
    (
        PluginInstallState { phase: PluginInstallPhase::Failed, pending: copy_str(&s.pending), txn_dir: copy_str(&s.txn_dir) },
        PluginInstallAction::Fail { message, remove_part },
    )
}

fn advance(s: &PluginInstallState, phase: PluginInstallPhase, action: PluginInstallAction) -> (r: (PluginInstallState, PluginInstallAction))
    ensures
        r.0@ == moved_to(s@, phase),
        r.1@ == action@,
{
    (PluginInstallState { phase, pending: copy_str(&s.pending), txn_dir: copy_str(&s.txn_dir) }, action)
}

/// Starts an install: the profile directory must be set and the registry
/// id a plain package path; the first step recovers any transaction an
/// earlier install left behind.
pub fn plugin_install_begin(profile_dir: &str, registry_id: &str, txn_dir: &str) -> (r: Result<
    (PluginInstallState, PluginInstallAction),
    String,
>)
    ensures
        match r {
            Ok((s, a)) => profile_dir@.len() > 0 && crate::plugins::market::valid_pkg_path(registry_id@)
                && s@ == (PluginInstallStateView {
                    phase: PluginInstallPhase::Recovering,
                    pending: Seq::empty(),
                    txn_dir: txn_dir@,
                }) && a@ == PluginInstallActionView::RecoverTransaction,
            Err(e) => if profile_dir@.len() == 0 {
                e@ == "实例目录未设置"@
            } else {
                !crate::plugins::market::valid_pkg_path(registry_id@) && e@ == "非法的插件标识: "@
                    + registry_id@
            },
        },
{
    if profile_dir.unicode_len() == 0 {
        return Err("实例目录未设置".to_string());
    }
    match crate::plugins::market::sanitize_pkg_path(registry_id) {
        Err(e) => Err(e),
        Ok(_) => Ok((
            PluginInstallState {
                phase: PluginInstallPhase::Recovering,
                pending: String::new(),
                txn_dir: txn_dir.to_string(),
            },
            PluginInstallAction::RecoverTransaction,
        )),
    }
}

/// Decides what follows a step's outcome.
pub fn plugin_install_step(s: &PluginInstallState, ev: StepEvent) -> (r: (PluginInstallState, PluginInstallAction))
    ensures
        (r.0@, r.1@) == plugin_install_spec(s@, ev@),
{
    match s.phase {
        PluginInstallPhase::Recovering => match ev {
            StepEvent::Succeeded { .. } => advance(s, PluginInstallPhase::Resolving, PluginInstallAction::Resolve),
            StepEvent::Failed(e) => fail_with(s, e, false),
        },
        PluginInstallPhase::Resolving => match ev {
            StepEvent::Succeeded { cancelled } => if cancelled {
                fail_with(s, cancelled_message(), false)
            } else {
                advance(s, PluginInstallPhase::Downloading, PluginInstallAction::Download)
            },
            StepEvent::Failed(e) => fail_with(s, e, false),
        },
        PluginInstallPhase::Downloading => match ev {
            StepEvent::Succeeded { .. } => advance(s, PluginInstallPhase::Verifying, PluginInstallAction::CheckIntegrity),
            StepEvent::Failed(e) => {
                let keep = chars_eq(&chars_of(e.as_str()), &chars_of(cancelled_message().as_str()));
                fail_with(s, e, !keep)
            },
        },
        PluginInstallPhase::Verifying => match ev {
            StepEvent::Succeeded { cancelled } => if cancelled {
                fail_with(s, cancelled_message(), true)
            } else {
                advance(s, PluginInstallPhase::Swapping, PluginInstallAction::ExtractAndSwap)
            },
            StepEvent::Failed(e) => fail_with(s, e, true),
        },
        PluginInstallPhase::Swapping => match ev {
            StepEvent::Succeeded { .. } => advance(s, PluginInstallPhase::Committing, PluginInstallAction::Commit),
            StepEvent::Failed(e) => (
                PluginInstallState { phase: PluginInstallPhase::RecoveringAfterSwap, pending: e, txn_dir: copy_str(&s.txn_dir) },
                PluginInstallAction::RecoverTransaction,
            ),
        },
        PluginInstallPhase::RecoveringAfterSwap => match ev {
            StepEvent::Succeeded { .. } => fail_with(s, copy_str(&s.pending), false),
            StepEvent::Failed(r) => {
                let m = concat_str(s.pending.as_str(), "；恢复未完成: ");
                fail_with(s, concat_str(m.as_str(), r.as_str()), false)
            },
        },
        PluginInstallPhase::Committing => match ev {
            StepEvent::Succeeded { .. } => advance(s, PluginInstallPhase::Finishing, PluginInstallAction::RecoverTransaction),
            StepEvent::Failed(e) => (
                PluginInstallState { phase: PluginInstallPhase::RecoveringAfterCommit, pending: e, txn_dir: copy_str(&s.txn_dir) },
                PluginInstallAction::RecoverTransaction,
            ),
        },
        PluginInstallPhase::RecoveringAfterCommit => match ev {
            StepEvent::Succeeded { .. } => {
                let m = concat_str("安装提交失败，已恢复原来的插件：", s.pending.as_str());
                fail_with(s, m, true)
            },
            StepEvent::Failed(_) => {
                let m = concat_str("安装提交失败，恢复未完成，旧版本保留在 ", s.txn_dir.as_str());
                let m = concat_str(m.as_str(), "，请重试或手动处理：");
                fail_with(s, concat_str(m.as_str(), s.pending.as_str()), true)
            },
        },
        PluginInstallPhase::Finishing => match ev {
            StepEvent::Succeeded { .. } => advance(s, PluginInstallPhase::Done, PluginInstallAction::Succeed),
            StepEvent::Failed(e) => fail_with(s, e, false),
        },
        PluginInstallPhase::Done | PluginInstallPhase::Failed => (
            PluginInstallState { phase: s.phase, pending: copy_str(&s.pending), txn_dir: copy_str(&s.txn_dir) },
            PluginInstallAction::Nothing,
        ),
    }
}

/* -------------------------------- laws --------------------------------- */

/// Whether the package has been swapped into place: from here the install
/// ends committed or rolled back, never cancelled.
pub open spec fn past_swap(phase: PluginInstallPhase) -> bool {
    !(phase == PluginInstallPhase::Recovering || phase == PluginInstallPhase::Resolving || phase
        == PluginInstallPhase::Downloading || phase == PluginInstallPhase::Verifying)
}

/// Once extraction and the swap have been asked for, a cancel requested
/// meanwhile changes nothing: every later decision is the one taken
/// without it.
pub proof fn lemma_cancel_ignored_after_swap(s: PluginInstallStateView)
    requires
        past_swap(s.phase),
    ensures
        plugin_install_spec(s, StepEventView::Succeeded { cancelled: true }) == plugin_install_spec(
            s,
            StepEventView::Succeeded { cancelled: false },
        ),
{
}

/// A step that fails during the swap or the commit is never reported at
/// once: the transaction is rolled back first, and the failure waits for
/// the rollback's outcome.
pub proof fn lemma_failure_after_swap_rolls_back(s: PluginInstallStateView, e: Seq<char>)
    requires
        s.phase == PluginInstallPhase::Swapping || s.phase == PluginInstallPhase::Committing,
    ensures
        plugin_install_spec(s, StepEventView::Failed(e)).1 == PluginInstallActionView::RecoverTransaction,
        plugin_install_spec(s, StepEventView::Failed(e)).0.pending == e,
        plugin_install_spec(s, StepEventView::Failed(e)).0.phase == (if s.phase == PluginInstallPhase::Swapping {
            PluginInstallPhase::RecoveringAfterSwap
        } else {
            PluginInstallPhase::RecoveringAfterCommit
        }),
{
}

/// No package is extracted before its download passed the integrity
/// check: extraction is asked for only on a verified, uncancelled package.
pub proof fn lemma_extract_only_after_integrity(s: PluginInstallStateView, ev: StepEventView)
    ensures
        plugin_install_spec(s, ev).1 == PluginInstallActionView::ExtractAndSwap ==> s.phase == PluginInstallPhase::Verifying
            && ev == (StepEventView::Succeeded { cancelled: false }),
{
}

/// An install reports success only after the commit went through and the
/// transaction was cleared.
pub proof fn lemma_success_only_after_commit(s: PluginInstallStateView, ev: StepEventView)
    ensures
        plugin_install_spec(s, ev).1 == PluginInstallActionView::Succeed ==> s.phase == PluginInstallPhase::Finishing
            && ev is Succeeded,
{
}

/// A finished install stays finished and asks for nothing more.
pub proof fn lemma_finished_is_final(s: PluginInstallStateView, ev: StepEventView)
    requires
        s.phase == PluginInstallPhase::Done || s.phase == PluginInstallPhase::Failed,
    ensures
        plugin_install_spec(s, ev) == (s, PluginInstallActionView::Nothing),
{
}

/// The decisions along a run of step outcomes, from a state: the state
/// reached and the actions asked for, in order.
pub open spec fn plugin_install_run(s: PluginInstallStateView, events: Seq<StepEventView>) -> (
    PluginInstallStateView,
    Seq<PluginInstallActionView>,
)
    decreases events.len(),
{
    if events.len() == 0 {
        (s, Seq::empty())
    } else {
        let (next, action) = plugin_install_spec(s, events[0]);
        let (last, rest) = plugin_install_run(next, events.drop_first());
        (last, seq![action] + rest)
    }
}

/// When every step goes through, an install runs recover, resolve,
/// download, integrity check, extract-and-swap, commit and the final
/// recovery in that order, and then succeeds.
pub proof fn lemma_clean_run_succeeds(txn_dir: Seq<char>)
    ensures
        ({
            let ok = StepEventView::Succeeded { cancelled: false };
            let start = PluginInstallStateView {
                phase: PluginInstallPhase::Recovering,
                pending: Seq::empty(),
                txn_dir,
            };
            let (last, actions) = plugin_install_run(start, seq![ok, ok, ok, ok, ok, ok, ok]);
            &&& last.phase == PluginInstallPhase::Done
            &&& actions == seq![
                PluginInstallActionView::Resolve,
                PluginInstallActionView::Download,
                PluginInstallActionView::CheckIntegrity,
                PluginInstallActionView::ExtractAndSwap,
                PluginInstallActionView::Commit,
                PluginInstallActionView::RecoverTransaction,
                PluginInstallActionView::Succeed,
            ]
        }),
{
    let ok = StepEventView::Succeeded { cancelled: false };
    let start = PluginInstallStateView { phase: PluginInstallPhase::Recovering, pending: Seq::empty(), txn_dir };
    let evs = seq![ok, ok, ok, ok, ok, ok, ok];
    reveal_with_fuel(plugin_install_run, 8);
    assert(evs.drop_first() =~= seq![ok, ok, ok, ok, ok, ok]);
    assert(evs.drop_first().drop_first() =~= seq![ok, ok, ok, ok, ok]);
    assert(evs.drop_first().drop_first().drop_first() =~= seq![ok, ok, ok, ok]);
    assert(evs.drop_first().drop_first().drop_first().drop_first() =~= seq![ok, ok, ok]);
    assert(evs.drop_first().drop_first().drop_first().drop_first().drop_first() =~= seq![ok, ok]);
    assert(evs.drop_first().drop_first().drop_first().drop_first().drop_first().drop_first() =~= seq![ok]);
    assert(seq![ok].drop_first() =~= Seq::<StepEventView>::empty());
    let (last, actions) = plugin_install_run(start, evs);
    assert(actions =~= seq![
        PluginInstallActionView::Resolve,
        PluginInstallActionView::Download,
        PluginInstallActionView::CheckIntegrity,
        PluginInstallActionView::ExtractAndSwap,
        PluginInstallActionView::Commit,
        PluginInstallActionView::RecoverTransaction,
        PluginInstallActionView::Succeed,
    ]);
}

} // verus!
