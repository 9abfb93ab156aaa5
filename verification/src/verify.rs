//! Environment verification: a structured, read-only health report for one
//! instance. Each check's finding is decided here from what was observed;
//! `overall` is the Environment Health (healthy / degraded / broken).

use vstd::prelude::*;
use crate::decimal::{dec_digits, decimal_chars};
use crate::text::{chars_of, concat_chars, string_of, trim, trim_exec, views};
use crate::yaml::{parse_yaml_value, yaml_value};

verus! {

/// One check in the report. `severity` is what the problem would mean
/// (info / warning / error), `status` what this run found (pass / warn /
/// fail).
#[derive(Debug)]
pub struct VerifyCheck {
    pub id: String,
    pub category: String,
    pub severity: String,
    pub status: String,
    pub message: String,
    pub repairable: bool,
    pub repair_action: Option<String>,
}

/// The report for one instance.
#[derive(Debug)]
pub struct VerifyResult {
    /// healthy | degraded | broken.
    pub overall: String,
    pub checks: Vec<VerifyCheck>,
}

/// A check as plain values.
pub struct CheckView {
    pub id: Seq<char>,
    pub category: Seq<char>,
    pub severity: Seq<char>,
    pub status: Seq<char>,
    pub message: Seq<char>,
    pub repairable: bool,
    pub repair_action: Option<Seq<char>>,
}

impl VerifyCheck {
    pub open spec fn view(&self) -> CheckView {
        CheckView {
            id: self.id@,
            category: self.category@,
            severity: self.severity@,
            status: self.status@,
            message: self.message@,
            repairable: self.repairable,
            repair_action: match self.repair_action {
                Some(a) => Some(a@),
                None => None,
            },
        }
    }
}

pub open spec fn pass_spec(id: Seq<char>, category: Seq<char>, message: Seq<char>) -> CheckView {
    CheckView {
        id,
        category,
        severity: "info"@,
        status: "pass"@,
        message,
        repairable: false,
        repair_action: None,
    }
}

pub open spec fn warn_spec(id: Seq<char>, category: Seq<char>, message: Seq<char>, repairable: bool, action: Option<Seq<char>>) -> CheckView {
    CheckView { id, category, severity: "warning"@, status: "warn"@, message, repairable, repair_action: action }
}

pub open spec fn fail_spec(id: Seq<char>, category: Seq<char>, message: Seq<char>, repairable: bool, action: Option<Seq<char>>) -> CheckView {
    CheckView { id, category, severity: "error"@, status: "fail"@, message, repairable, repair_action: action }
}

pub open spec fn opt_str(a: Option<&str>) -> Option<Seq<char>> {
    match a {
        Some(s) => Some(s@),
        None => None,
    }
}

impl VerifyCheck {
    /// A passing check.
    pub fn pass(id: &str, category: &str, message: String) -> (r: Self)
        ensures
            r.view() == pass_spec(id@, category@, message@),
    {
        VerifyCheck {
            id: id.to_owned(),
            category: category.to_owned(),
            severity: "info".to_owned(),
            status: "pass".to_owned(),
            message,
            repairable: false,
            repair_action: None,
        }
    }

    /// A warning.
    pub fn warn(id: &str, category: &str, message: String, repairable: bool, action: Option<&str>) -> (r: Self)
        ensures
            r.view() == warn_spec(id@, category@, message@, repairable, opt_str(action)),
    {
        VerifyCheck {
            id: id.to_owned(),
            category: category.to_owned(),
            severity: "warning".to_owned(),
            status: "warn".to_owned(),
            message,
            repairable,
            repair_action: match action {
                Some(a) => Some(a.to_owned()),
                None => None,
            },
        }
    }

    /// A failure.
    pub fn fail(id: &str, category: &str, message: String, repairable: bool, action: Option<&str>) -> (r: Self)
        ensures
            r.view() == fail_spec(id@, category@, message@, repairable, opt_str(action)),
    {
        VerifyCheck {
            id: id.to_owned(),
            category: category.to_owned(),
            severity: "error".to_owned(),
            status: "fail".to_owned(),
            message,
            repairable,
            repair_action: match action {
                Some(a) => Some(a.to_owned()),
                None => None,
            },
        }
    }
}

pub open spec fn checks_view(v: Seq<VerifyCheck>) -> Seq<CheckView> {
    v.map_values(|c: VerifyCheck| c.view())
}

pub open spec fn any_status(checks: Seq<CheckView>, status: Seq<char>) -> bool {
    exists|i: int| 0 <= i < checks.len() && #[trigger] checks[i].status == status
}

/// The Environment Health of a report: broken when any check failed,
/// degraded when none failed but one warned, healthy otherwise.
pub open spec fn worst_spec(checks: Seq<CheckView>) -> Seq<char> {
    if any_status(checks, "fail"@) {
        "broken"@
    } else if any_status(checks, "warn"@) {
        "degraded"@
    } else {
        "healthy"@
    }
}

fn any_status_exec(checks: &Vec<VerifyCheck>, status: &str) -> (r: bool)
    ensures
        r == any_status(checks_view(checks@), status@),
{
    let ghost cv = checks_view(checks@);
    let s = status.to_owned();
    let mut i: usize = 0;
    while i < checks.len()
        invariant
            i <= checks.len(),
            cv == checks_view(checks@),
            cv.len() == checks.len(),
            s@ == status@,
            forall|j: int| 0 <= j < i ==> cv[j].status != status@,
        decreases checks.len() - i,
    {
        assert(cv[i as int].status == checks@[i as int].status@);
        if checks[i].status == s {
            return true;
        }
        i += 1;
    }
    false
}

/// The Environment Health of a report.
pub fn worst(checks: &Vec<VerifyCheck>) -> (r: String)
    ensures
        r@ == worst_spec(checks_view(checks@)),
{
    if any_status_exec(checks, "fail") {
        "broken".to_owned()
    } else if any_status_exec(checks, "warn") {
        "degraded".to_owned()
    } else {
        "healthy".to_owned()
    }
}

/// A report whose `overall` is the health of its checks.
pub fn verify_result(checks: Vec<VerifyCheck>) -> (r: VerifyResult)
    ensures
        r.overall@ == worst_spec(checks_view(checks@)),
        checks_view(r.checks@) == checks_view(checks@),
{
    let overall = worst(&checks);
    VerifyResult { overall, checks }
}

/// Adding a failing check always makes a report broken, and a report is
/// healthy exactly when no check failed or warned.
pub proof fn lemma_health_order(checks: Seq<CheckView>, c: CheckView)
    ensures
        c.status == "fail"@ ==> worst_spec(checks.push(c)) == "broken"@,
        worst_spec(checks) == "healthy"@ <==> (!any_status(checks, "fail"@) && !any_status(checks, "warn"@)),
{
    if c.status == "fail"@ {
        assert(checks.push(c)[checks.len() as int].status == "fail"@);
    }
    reveal_strlit("broken");
    reveal_strlit("degraded");
    reveal_strlit("healthy");
    assert("healthy"@.len() == 7);
    assert("broken"@.len() == 6);
    assert("degraded"@.len() == 8);
}

fn cat3(a: &str, b: &[char], c: &str) -> (r: String)
    ensures
        r@ == a@ + b@ + c@,
{
    string_of(&concat_chars(&concat_chars(&chars_of(a), b), &chars_of(c)))
}

fn cat2(a: &str, b: &[char]) -> (r: String)
    ensures
        r@ == a@ + b@,
{
    string_of(&concat_chars(&chars_of(a), b))
}

/* ------------------------------- manifest ------------------------------- */

/// The manifest check: unreadable is a non-repairable failure with the
/// reader's message, readable passes naming its schema.
pub fn manifest_check(loaded: Result<u64, String>) -> (r: VerifyCheck)
    ensures
        match loaded {
            Ok(schema) => r.view() == pass_spec("manifest"@, "manifest"@, "清单可读（schema "@ + dec_digits(schema as nat) + "）"@),
            Err(e) => r.view() == fail_spec("manifest"@, "manifest"@, e@, false, None),
        },
{
    match loaded {
        Ok(schema) => VerifyCheck::pass("manifest", "manifest", cat3("清单可读（schema ", &decimal_chars(schema), "）")),
        Err(e) => VerifyCheck::fail("manifest", "manifest", e, false, None),
    }
}

/// The report for one instance: without a readable manifest nothing else is
/// judged and the report holds the manifest's failure alone; otherwise the
/// manifest passes and the other sections follow it, in order.
pub fn instance_report(loaded: Result<u64, String>, sections: Vec<VerifyCheck>) -> (r: VerifyResult)
    ensures
        checks_view(r.checks@) == (match loaded {
            Err(e) => seq![fail_spec("manifest"@, "manifest"@, e@, false, None)],
            Ok(schema) => seq![pass_spec("manifest"@, "manifest"@, "清单可读（schema "@ + dec_digits(schema as nat) + "）"@)]
                + checks_view(sections@),
        }),
        r.overall@ == worst_spec(checks_view(r.checks@)),
{
    let readable = loaded.is_ok();
    let first = manifest_check(loaded);
    let mut checks: Vec<VerifyCheck> = Vec::new();
    checks.push(first);
    if readable {
        let mut sections = sections;
        let ghost head = checks_view(checks@);
        let ghost rest = checks_view(sections@);
        checks.append(&mut sections);
        assert(checks_view(checks@) =~= head + rest);
    }
    verify_result(checks)
}

/* --------------------------------- DSH --------------------------------- */

/// The version check: a version that is not installed fails, repairable by
/// installing it.
pub fn dsh_version_check(name: &str, installed: bool) -> (r: VerifyCheck)
    ensures
        r.view() == (if installed {
            pass_spec("dsh-version"@, "dsh"@, "DSH "@ + name@ + " 已安装"@)
        } else {
            fail_spec("dsh-version"@, "dsh"@, "实例指向的 DSH 版本 "@ + name@ + " 未安装"@, true, Some("install-version"@))
        }),
{
    let n = chars_of(name);
    if installed {
        VerifyCheck::pass("dsh-version", "dsh", cat3("DSH ", &n, " 已安装"))
    } else {
        VerifyCheck::fail("dsh-version", "dsh", cat3("实例指向的 DSH 版本 ", &n, " 未安装"), true, Some("install-version"))
    }
}

/// `parts` joined with `sep`.
pub open spec fn join_with(parts: Seq<Seq<char>>, sep: Seq<char>) -> Seq<char>
    decreases parts.len(),
{
    if parts.len() == 0 {
        Seq::empty()
    } else if parts.len() == 1 {
        parts[0]
    } else {
        join_with(parts.drop_last(), sep) + sep + parts.last()
    }
}

/// `parts` joined with `sep`.
pub fn join_exec(parts: &Vec<String>, sep: &str) -> (r: Vec<char>)
    ensures
        r@ == join_with(views(parts@), sep@),
{
    let ghost pv = views(parts@);
    let s = chars_of(sep);
    let mut out: Vec<char> = Vec::new();
    let mut i: usize = 0;
    while i < parts.len()
        invariant
            i <= parts.len(),
            pv == views(parts@),
            pv.len() == parts.len(),
            s@ == sep@,
            out@ == join_with(pv.take(i as int), sep@),
        decreases parts.len() - i,
    {
        assert(pv.take(i + 1).drop_last() =~= pv.take(i as int));
        assert(pv[i as int] == parts@[i as int]@);
        let p = chars_of(parts[i].as_str());
        if i == 0 {
            assert(pv.take(1) =~= seq![pv[0]]);
            out = p;
        } else {
            out = concat_chars(&concat_chars(&out, &s), &p);
        }
        i += 1;
    }
    assert(pv.take(i as int) =~= pv);
    out
}

/// The names of the missing parts of a version tree, in report order.
pub open spec fn missing_parts(entry_ok: bool, bin_ok: bool, deps_ok: bool) -> Seq<Seq<char>> {
    (if entry_ok { Seq::empty() } else { seq!["package.json"@] }) + (if bin_ok { Seq::empty() } else { seq![
        "lib/bin.js"@,
    ] }) + (if deps_ok { Seq::empty() } else { seq!["node_modules"@] })
}

/// The tree check: `package.json`, `lib/bin.js` and (when the package has
/// dependencies) `node_modules` must all exist; otherwise it fails naming
/// what is missing, repairable by reinstalling.
pub fn dsh_tree_check(entry_ok: bool, bin_ok: bool, deps_ok: bool) -> (r: VerifyCheck)
    ensures
        r.view() == (if entry_ok && bin_ok && deps_ok {
            pass_spec("dsh-tree"@, "dsh"@, "package.json、lib/bin.js 与 node_modules 完整"@)
        } else {
            fail_spec(
                "dsh-tree"@,
                "dsh"@,
                "版本目录不完整，缺少 "@ + join_with(missing_parts(entry_ok, bin_ok, deps_ok), "、"@),
                true,
                Some("reinstall-version"@),
            )
        }),
{
    if entry_ok && bin_ok && deps_ok {
        return VerifyCheck::pass("dsh-tree", "dsh", "package.json、lib/bin.js 与 node_modules 完整".to_owned());
    }
    let mut missing: Vec<String> = Vec::new();
    if !entry_ok {
        missing.push("package.json".to_owned());
    }
    if !bin_ok {
        missing.push("lib/bin.js".to_owned());
    }
    if !deps_ok {
        missing.push("node_modules".to_owned());
    }
    assert(views(missing@) =~= missing_parts(entry_ok, bin_ok, deps_ok));
    let j = join_exec(&missing, "、");
    VerifyCheck::fail("dsh-tree", "dsh", cat2("版本目录不完整，缺少 ", &j), true, Some("reinstall-version"))
}

/// The dependency record the installer left: a degraded install warns,
/// naming what it skipped; anything else adds no check.
pub fn dsh_deps_check(install_health: &str, skipped: &Vec<String>) -> (r: Option<VerifyCheck>)
    ensures
        match r {
            Some(c) => install_health@ == "degraded"@ && c.view() == warn_spec(
                "dsh-deps"@,
                "dsh"@,
                "安装时跳过依赖："@ + join_with(views(skipped@), "、"@),
                false,
                None,
            ),
            None => install_health@ != "degraded"@,
        },
{
    let d = "degraded".to_owned();
    if install_health.to_owned() == d {
        let j = join_exec(skipped, "、");
        Some(VerifyCheck::warn("dsh-deps", "dsh", cat2("安装时跳过依赖：", &j), false, None))
    } else {
        None
    }
}

/// What the DSH section of a verification reports, given the version name
/// (or why it was refused), whether that version is installed, the tree
/// probes and the install's dependency record: it stops at the first
/// failure it cannot see past (a refused name, a missing version), and
/// otherwise reports the version, the tree, and a degraded install.
pub open spec fn dsh_checks_spec(
    name: Result<Seq<char>, Seq<char>>,
    installed: bool,
    entry_ok: bool,
    bin_ok: bool,
    deps_ok: bool,
    install_health: Seq<char>,
    skipped: Seq<Seq<char>>,
) -> Seq<CheckView> {
    match name {
        Err(e) => seq![fail_spec("dsh-version"@, "dsh"@, e, false, None)],
        Ok(n) => if !installed {
            seq![fail_spec("dsh-version"@, "dsh"@, "实例指向的 DSH 版本 "@ + n + " 未安装"@, true, Some("install-version"@))]
        } else {
            seq![
                pass_spec("dsh-version"@, "dsh"@, "DSH "@ + n + " 已安装"@),
                if entry_ok && bin_ok && deps_ok {
                    pass_spec("dsh-tree"@, "dsh"@, "package.json、lib/bin.js 与 node_modules 完整"@)
                } else {
                    fail_spec(
                        "dsh-tree"@,
                        "dsh"@,
                        "版本目录不完整，缺少 "@ + join_with(missing_parts(entry_ok, bin_ok, deps_ok), "、"@),
                        true,
                        Some("reinstall-version"@),
                    )
                },
            ] + if install_health == "degraded"@ {
                seq![warn_spec("dsh-deps"@, "dsh"@, "安装时跳过依赖："@ + join_with(skipped, "、"@), false, None)]
            } else {
                Seq::empty()
            }
        },
    }
}

pub open spec fn name_view(name: Result<&str, &str>) -> Result<Seq<char>, Seq<char>> {
    match name {
        Ok(n) => Ok(n@),
        Err(e) => Err(e@),
    }
}

/// The DSH section of a verification.
pub fn dsh_checks(
    name: Result<&str, &str>,
    installed: bool,
    entry_ok: bool,
    bin_ok: bool,
    deps_ok: bool,
    install_health: &str,
    skipped: &Vec<String>,
) -> (r: Vec<VerifyCheck>)
    ensures
        checks_view(r@) == dsh_checks_spec(
            name_view(name),
            installed,
            entry_ok,
            bin_ok,
            deps_ok,
            install_health@,
            views(skipped@),
        ),
{
    let mut out: Vec<VerifyCheck> = Vec::new();
    match name {
        Err(e) => {
            out.push(VerifyCheck::fail("dsh-version", "dsh", e.to_string(), false, None));
            assert(checks_view(out@) =~= dsh_checks_spec(name_view(name), installed, entry_ok, bin_ok, deps_ok, install_health@, views(skipped@)));
            out
        },
        Ok(n) => {
            let v = dsh_version_check(n, installed);
            out.push(v);
            if !installed {
                assert(checks_view(out@) =~= dsh_checks_spec(name_view(name), installed, entry_ok, bin_ok, deps_ok, install_health@, views(skipped@)));
                return out;
            }
            out.push(dsh_tree_check(entry_ok, bin_ok, deps_ok));
            let ghost two = checks_view(out@);
            match dsh_deps_check(install_health, skipped) {
                Some(c) => {
                    out.push(c);
                    assert(checks_view(out@) =~= two.push(c.view()));
                },
                None => {},
            }
            assert(checks_view(out@) =~= dsh_checks_spec(name_view(name), installed, entry_ok, bin_ok, deps_ok, install_health@, views(skipped@)));
            out
        },
    }
}

/* ------------------------------- runtime ------------------------------- */

/// What running `node --version` gave.
#[derive(Debug)]
pub enum NodeProbe {
    /// The process ran; its success, its stdout (as text) and exit code.
    Ran { success: bool, stdout: String, code: Option<i32> },
    /// The process could not be run.
    Failed(String),
}

pub open spec fn code_text(code: Option<i32>) -> Seq<char> {
    match code {
        Some(c) => if c < 0 {
            seq!['-'] + dec_digits((-c) as nat)
        } else {
            dec_digits(c as nat)
        },
        None => seq!['-', '1'],
    }
}

pub(crate) fn code_chars(code: Option<i32>) -> (r: Vec<char>)
    ensures
        r@ == code_text(code),
{
    match code {
        Some(c) => {
            if c < 0 {
                let m: u64 = if c == i32::MIN {
                    2147483648
                } else {
                    (-c) as u64
                };
                concat_chars(&['-'], &decimal_chars(m))
            } else {
                decimal_chars(c as u64)
            }
        },
        None => {
            let v = vec!['-', '1'];
            assert(v@ =~= seq!['-', '1']);
            v
        },
    }
}

/// The binary check: a run that reports exactly `v<recorded>` passes, any
/// other report warns, a non-zero exit fails (both repairable by
/// reinstalling), and a binary that cannot be run fails with the reason.
pub open spec fn runtime_binary_spec(recorded: Seq<char>, probe: NodeProbe) -> CheckView {
    match probe {
        NodeProbe::Ran { success, stdout, code } => if success {
            if trim(stdout@) == seq!['v'] + recorded {
                pass_spec("runtime-binary"@, "runtime"@, "node --version 返回 v"@ + recorded + "，与标记一致"@)
            } else {
                warn_spec(
                    "runtime-binary"@,
                    "runtime"@,
                    "node --version 返回 "@ + trim(stdout@) + "，与标记 v"@ + recorded + " 不一致"@,
                    true,
                    Some("reinstall-runtime"@),
                )
            }
        } else {
            fail_spec("runtime-binary"@, "runtime"@, "node --version 退出码 "@ + code_text(code), true, Some("reinstall-runtime"@))
        },
        NodeProbe::Failed(e) => fail_spec("runtime-binary"@, "runtime"@, e@, false, None),
    }
}

/// The binary check from the recorded version and the probe's outcome.
pub fn runtime_binary_check(recorded: &str, probe: NodeProbe) -> (r: VerifyCheck)
    ensures
        r.view() == runtime_binary_spec(recorded@, probe),
{
    let rec = chars_of(recorded);
    match probe {
        NodeProbe::Ran { success, stdout, code } => {
            if success {
                let reported = trim_exec(&chars_of(stdout.as_str()));
                let want = concat_chars(&['v'], &rec);
                assert(want@ =~= seq!['v'] + recorded@);
                if crate::text::chars_eq(&reported, &want) {
                    VerifyCheck::pass("runtime-binary", "runtime", cat3("node --version 返回 v", &rec, "，与标记一致"))
                } else {
                    let a = concat_chars(&concat_chars(&chars_of("node --version 返回 "), &reported), &chars_of("，与标记 v"));
                    let msg = string_of(&concat_chars(&concat_chars(&a, &rec), &chars_of(" 不一致")));
                    assert(msg@ =~= "node --version 返回 "@ + trim(stdout@) + "，与标记 v"@ + recorded@ + " 不一致"@);
                    VerifyCheck::warn("runtime-binary", "runtime", msg, true, Some("reinstall-runtime"))
                }
            } else {
                VerifyCheck::fail("runtime-binary", "runtime", cat2("node --version 退出码 ", &code_chars(code)), true, Some("reinstall-runtime"))
            }
        },
        NodeProbe::Failed(e) => VerifyCheck::fail("runtime-binary", "runtime", e, false, None),
    }
}

/// The runtime check over plain values (see [`runtime_check`]).
pub open spec fn runtime_check_spec(runtime_id: Seq<char>, recorded: Option<Seq<char>>) -> CheckView {
    if runtime_id == "node-system"@ {
        pass_spec("runtime"@, "runtime"@, "使用系统 Node（由系统管理）"@)
    } else {
        match recorded {
            Some(v) => pass_spec("runtime"@, "runtime"@, "Runtime "@ + runtime_id + " 已安装（v"@ + v + "）"@),
            None => fail_spec("runtime"@, "runtime"@, "实例指向的 Runtime "@ + runtime_id + " 未安装"@, true, Some("install-runtime"@)),
        }
    }
}

/// The workspace check over plain values (see [`workspace_check`]).
pub open spec fn workspace_spec(exists: bool) -> CheckView {
    if exists {
        pass_spec("launch-workspace"@, "launch"@, "workspace 目录存在"@)
    } else {
        warn_spec("launch-workspace"@, "launch"@, "workspace 目录缺失"@, true, Some("recreate-workspace"@))
    }
}

/// The runtime check: the system Node is managed by the system; an
/// installed runtime passes naming its recorded version; a missing one
/// fails, repairable by installing it.
pub fn runtime_check(runtime_id: &str, recorded: Option<&str>) -> (r: VerifyCheck)
    ensures
        r.view() == runtime_check_spec(runtime_id@, opt_str(recorded)),
        r.view() == (if runtime_id@ == "node-system"@ {
            pass_spec("runtime"@, "runtime"@, "使用系统 Node（由系统管理）"@)
        } else {
            match recorded {
                Some(v) => pass_spec("runtime"@, "runtime"@, "Runtime "@ + runtime_id@ + " 已安装（v"@ + v@ + "）"@),
                None => fail_spec("runtime"@, "runtime"@, "实例指向的 Runtime "@ + runtime_id@ + " 未安装"@, true, Some("install-runtime"@)),
            }
        }),
{
    let sys = "node-system".to_owned();
    if runtime_id.to_owned() == sys {
        return VerifyCheck::pass("runtime", "runtime", "使用系统 Node（由系统管理）".to_owned());
    }
    let id = chars_of(runtime_id);
    match recorded {
        Some(v) => {
            let a = concat_chars(&concat_chars(&chars_of("Runtime "), &id), &chars_of(" 已安装（v"));
            let msg = string_of(&concat_chars(&concat_chars(&a, &chars_of(v)), &chars_of("）")));
            VerifyCheck::pass("runtime", "runtime", msg)
        },
        None => VerifyCheck::fail("runtime", "runtime", cat3("实例指向的 Runtime ", &id, " 未安装"), true, Some("install-runtime")),
    }
}

/* -------------------------------- config -------------------------------- */

/// The settings check: absent is normal (DSH writes it on first launch); a
/// file that cannot be read, or that YAML cannot parse, fails.
pub open spec fn settings_spec(read: Option<Result<Seq<char>, Seq<char>>>) -> CheckView {
    match read {
        None => pass_spec("config-settings"@, "config"@, "settings.yaml 尚未生成（首次启动时由 DSH 创建）"@),
        Some(Err(e)) => fail_spec("config-settings"@, "config"@, "settings.yaml 读取失败: "@ + e, false, None),
        Some(Ok(raw)) => match yaml_value(raw) {
            Ok(_) => pass_spec("config-settings"@, "config"@, "settings.yaml 可解析"@),
            Err(e) => fail_spec("config-settings"@, "config"@, "settings.yaml 解析失败: "@ + e, false, None),
        },
    }
}

pub open spec fn read_view(read: Option<Result<String, String>>) -> Option<Result<Seq<char>, Seq<char>>> {
    match read {
        None => None,
        Some(Ok(s)) => Some(Ok(s@)),
        Some(Err(e)) => Some(Err(e@)),
    }
}

/// The settings check from what reading `settings.yaml` gave (`None` when
/// the file does not exist).
pub fn settings_check(read: Option<Result<String, String>>) -> (r: VerifyCheck)
    ensures
        r.view() == settings_spec(read_view(read)),
{
    match read {
        None => VerifyCheck::pass("config-settings", "config", "settings.yaml 尚未生成（首次启动时由 DSH 创建）".to_owned()),
        Some(Err(e)) => VerifyCheck::fail("config-settings", "config", cat2("settings.yaml 读取失败: ", &chars_of(e.as_str())), false, None),
        Some(Ok(raw)) => match parse_yaml_value(raw.as_str()) {
            Ok(_) => VerifyCheck::pass("config-settings", "config", "settings.yaml 可解析".to_owned()),
            Err(e) => VerifyCheck::fail("config-settings", "config", cat2("settings.yaml 解析失败: ", &chars_of(e.as_str())), false, None),
        },
    }
}

/// The writability check from what writing the probe file gave.
pub fn writable_check(written: Result<(), String>) -> (r: VerifyCheck)
    ensures
        r.view() == (match written {
            Ok(()) => pass_spec("files-writable"@, "config"@, "实例目录可写"@),
            Err(e) => fail_spec("files-writable"@, "config"@, "实例目录不可写: "@ + e@, false, None),
        }),
{
    match written {
        Ok(()) => VerifyCheck::pass("files-writable", "config", "实例目录可写".to_owned()),
        Err(e) => VerifyCheck::fail("files-writable", "config", cat2("实例目录不可写: ", &chars_of(e.as_str())), false, None),
    }
}

/* --------------------------------- launch --------------------------------- */

/// The port check: outside 1..=65535 fails; a free port passes; a taken one
/// only warns (normal while the instance runs). `free` is the bind probe's
/// answer, asked only for a valid port.
pub fn port_check(port: u32, free: bool) -> (r: VerifyCheck)
    ensures
        r.view() == (if port == 0 || port > 65535 {
            fail_spec("launch-port"@, "launch"@, "端口 "@ + dec_digits(port as nat) + " 非法"@, false, None)
        } else if free {
            pass_spec("launch-port"@, "launch"@, "端口 "@ + dec_digits(port as nat) + " 可用"@)
        } else {
            warn_spec("launch-port"@, "launch"@, "端口 "@ + dec_digits(port as nat) + " 当前被占用（实例运行时属正常）"@, false, None)
        }),
{
    let p = decimal_chars(port as u64);
    if port == 0 || port > 65535 {
        VerifyCheck::fail("launch-port", "launch", cat3("端口 ", &p, " 非法"), false, None)
    } else if free {
        VerifyCheck::pass("launch-port", "launch", cat3("端口 ", &p, " 可用"))
    } else {
        VerifyCheck::warn("launch-port", "launch", cat3("端口 ", &p, " 当前被占用（实例运行时属正常）"), false, None)
    }
}

/// The workspace check: a missing workspace warns, repairable by recreating
/// it.
pub fn workspace_check(exists: bool) -> (r: VerifyCheck)
    ensures
        r.view() == workspace_spec(exists),
        r.view() == (if exists {
            pass_spec("launch-workspace"@, "launch"@, "workspace 目录存在"@)
        } else {
            warn_spec("launch-workspace"@, "launch"@, "workspace 目录缺失"@, true, Some("recreate-workspace"@))
        }),
{
    if exists {
        VerifyCheck::pass("launch-workspace", "launch", "workspace 目录存在".to_owned())
    } else {
        VerifyCheck::warn("launch-workspace", "launch", "workspace 目录缺失".to_owned(), true, Some("recreate-workspace"))
    }
}

/* ---------------------------------- API ---------------------------------- */

/// How an instance binds the API provider library.
#[derive(Debug)]
pub struct ApiBinding {
    /// `none` when the instance manages its API configuration itself.
    pub inheritance: String,
    pub provider_ids: Vec<String>,
}

/// The provider ids of `wanted` that `known` lacks, in order.
pub open spec fn missing_ids(wanted: Seq<Seq<char>>, known: Seq<Seq<char>>) -> Seq<Seq<char>>
    decreases wanted.len(),
{
    if wanted.len() == 0 {
        Seq::empty()
    } else if known.contains(wanted.last()) {
        missing_ids(wanted.drop_last(), known)
    } else {
        missing_ids(wanted.drop_last(), known).push(wanted.last())
    }
}

/// The API check: an unmanaged, self-managed or whole-library binding
/// passes; otherwise every referenced provider must still be in the global
/// library (`known`), or the check warns naming the missing ones.
pub open spec fn api_spec(binding: Option<(Seq<char>, Seq<Seq<char>>)>, known: Seq<Seq<char>>) -> CheckView {
    match binding {
        None => pass_spec("api-binding"@, "api"@, "实例未由 PHL 托管 API 配置"@),
        Some((inheritance, ids)) => if inheritance == "none"@ {
            pass_spec("api-binding"@, "api"@, "实例完全自管 API 配置"@)
        } else if ids.len() == 0 {
            pass_spec("api-binding"@, "api"@, "继承全局供应商库"@)
        } else if missing_ids(ids, known).len() == 0 {
            pass_spec("api-binding"@, "api"@, "引用的 "@ + dec_digits(ids.len()) + " 个供应商都在全局库中"@)
        } else {
            warn_spec(
                "api-binding"@,
                "api"@,
                "供应商已不在全局库中："@ + join_with(missing_ids(ids, known), "、"@),
                false,
                None,
            )
        },
    }
}

pub open spec fn binding_view(b: Option<&ApiBinding>) -> Option<(Seq<char>, Seq<Seq<char>>)> {
    match b {
        Some(x) => Some((x.inheritance@, views(x.provider_ids@))),
        None => None,
    }
}

/// The API check from the instance's binding and the ids of the global
/// provider library.
pub fn api_check(binding: Option<&ApiBinding>, known: &Vec<String>) -> (r: VerifyCheck)
    ensures
        r.view() == api_spec(binding_view(binding), views(known@)),
{
    let b = match binding {
        None => {
            return VerifyCheck::pass("api-binding", "api", "实例未由 PHL 托管 API 配置".to_owned());
        },
        Some(b) => b,
    };
    let none = "none".to_owned();
    if b.inheritance == none {
        return VerifyCheck::pass("api-binding", "api", "实例完全自管 API 配置".to_owned());
    }
    if b.provider_ids.len() == 0 {
        return VerifyCheck::pass("api-binding", "api", "继承全局供应商库".to_owned());
    }
    let ghost wv = views(b.provider_ids@);
    let mut missing: Vec<String> = Vec::new();
    let mut i: usize = 0;
    while i < b.provider_ids.len()
        invariant
            i <= b.provider_ids.len(),
            wv == views(b.provider_ids@),
            wv.len() == b.provider_ids.len(),
            views(missing@) == missing_ids(wv.take(i as int), views(known@)),
        decreases b.provider_ids.len() - i,
    {
        assert(wv.take(i + 1).drop_last() =~= wv.take(i as int));
        assert(wv[i as int] == b.provider_ids@[i as int]@);
        if !crate::resources::contains_string(known, &b.provider_ids[i]) {
            let ghost before = missing@;
            let id = b.provider_ids[i].clone();
            missing.push(id);
            proof {
                crate::text::lemma_views_push(before, id);
            }
        }
        i += 1;
    }
    assert(wv.take(i as int) =~= wv);
    if missing.len() == 0 {
        VerifyCheck::pass("api-binding", "api", cat3("引用的 ", &decimal_chars(b.provider_ids.len() as u64), " 个供应商都在全局库中"))
    } else {
        let j = join_exec(&missing, "、");
        VerifyCheck::warn("api-binding", "api", cat2("供应商已不在全局库中：", &j), false, None)
    }
}

} // verus!
