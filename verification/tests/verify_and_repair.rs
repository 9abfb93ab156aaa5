use phl::repair::{
    is_known_remote_action, is_legacy_staging, is_part_fragment, is_stale, local_action,
    repair_failure, LocalAction, RepairOutcome,
};
use phl::verify::{
    api_check, dsh_deps_check, dsh_tree_check, dsh_version_check, manifest_check, port_check,
    runtime_binary_check, runtime_check, settings_check, verify_result, workspace_check,
    writable_check, ApiBinding, NodeProbe, VerifyCheck,
};

#[test]
fn a_healthy_report_has_no_failing_or_warning_check() {
    let r = verify_result(vec![
        manifest_check(Ok(3)),
        dsh_version_check("0.17.3", true),
        workspace_check(true),
    ]);
    assert_eq!(r.overall, "healthy");
    assert_eq!(r.checks.len(), 3);
    assert_eq!(r.checks[0].message, "清单可读（schema 3）");
}

#[test]
fn one_warning_degrades_and_one_failure_breaks() {
    let degraded = verify_result(vec![manifest_check(Ok(1)), workspace_check(false)]);
    assert_eq!(degraded.overall, "degraded");
    let broken = verify_result(vec![workspace_check(false), dsh_version_check("0.1.0", false)]);
    assert_eq!(broken.overall, "broken");
    assert_eq!(verify_result(vec![]).overall, "healthy");
}

#[test]
fn a_missing_dsh_version_is_broken_and_marked_repairable() {
    let c = dsh_version_check("0.17.3", false);
    assert_eq!(c.status, "fail");
    assert_eq!(c.severity, "error");
    assert!(c.repairable);
    assert_eq!(c.repair_action.as_deref(), Some("install-version"));
    assert_eq!(c.message, "实例指向的 DSH 版本 0.17.3 未安装");
}

#[test]
fn an_unreadable_manifest_reports_broken_with_a_single_check() {
    let r = verify_result(vec![manifest_check(Err("清单损坏".into()))]);
    assert_eq!(r.overall, "broken");
    assert_eq!(r.checks[0].message, "清单损坏");
    assert!(!r.checks[0].repairable);
}

#[test]
fn an_incomplete_tree_names_what_is_missing() {
    assert_eq!(dsh_tree_check(true, true, true).status, "pass");
    let c = dsh_tree_check(false, true, false);
    assert_eq!(c.message, "版本目录不完整，缺少 package.json、node_modules");
    assert_eq!(c.repair_action.as_deref(), Some("reinstall-version"));
}

#[test]
fn a_degraded_install_warns_with_its_skipped_dependencies() {
    let skipped = vec!["a".to_string(), "b".to_string()];
    let c = dsh_deps_check("degraded", &skipped).unwrap();
    assert_eq!(c.status, "warn");
    assert_eq!(c.message, "安装时跳过依赖：a、b");
    assert!(dsh_deps_check("ok", &skipped).is_none());
}

#[test]
fn the_runtime_binary_must_report_the_recorded_version() {
    let ok = runtime_binary_check(
        "22.11.0",
        NodeProbe::Ran { success: true, stdout: "v22.11.0\n".into(), code: Some(0) },
    );
    assert_eq!(ok.status, "pass");
    let other = runtime_binary_check(
        "22.11.0",
        NodeProbe::Ran { success: true, stdout: "v20.1.0".into(), code: Some(0) },
    );
    assert_eq!(other.status, "warn");
    assert_eq!(other.message, "node --version 返回 v20.1.0，与标记 v22.11.0 不一致");
    let exit = runtime_binary_check(
        "22.11.0",
        NodeProbe::Ran { success: false, stdout: String::new(), code: Some(-3) },
    );
    assert_eq!(exit.message, "node --version 退出码 -3");
    let none = runtime_binary_check(
        "22.11.0",
        NodeProbe::Ran { success: false, stdout: String::new(), code: None },
    );
    assert_eq!(none.message, "node --version 退出码 -1");
    let failed = runtime_binary_check("22.11.0", NodeProbe::Failed("spawn failed".into()));
    assert_eq!(failed.status, "fail");
    assert!(!failed.repairable);
}

#[test]
fn a_missing_runtime_is_broken_and_marked_repairable() {
    let c = runtime_check("node-22", None);
    assert_eq!(c.status, "fail");
    assert_eq!(c.repair_action.as_deref(), Some("install-runtime"));
    assert_eq!(runtime_check("node-system", None).status, "pass");
    assert_eq!(
        runtime_check("node-22", Some("22.11.0")).message,
        "Runtime node-22 已安装（v22.11.0）"
    );
}

#[test]
fn a_broken_settings_file_makes_the_instance_broken() {
    assert_eq!(settings_check(None).status, "pass");
    assert_eq!(settings_check(Some(Ok("a: 1\nb: [x, y]\n".into()))).status, "pass");
    let bad = settings_check(Some(Ok("a: [unclosed\n".into())));
    assert_eq!(bad.status, "fail");
    assert!(bad.message.starts_with("settings.yaml 解析失败: "));
    let unreadable = settings_check(Some(Err("denied".into())));
    assert_eq!(unreadable.message, "settings.yaml 读取失败: denied");
}

#[test]
fn ports_and_writability() {
    assert_eq!(port_check(0, true).message, "端口 0 非法");
    assert_eq!(port_check(70000, true).status, "fail");
    assert_eq!(port_check(5173, true).message, "端口 5173 可用");
    assert_eq!(port_check(5173, false).status, "warn");
    assert_eq!(writable_check(Ok(())).status, "pass");
    assert_eq!(writable_check(Err("ro".into())).message, "实例目录不可写: ro");
}

#[test]
fn api_bindings_must_name_known_providers() {
    let known = vec!["p1".to_string(), "p2".to_string()];
    assert_eq!(api_check(None, &known).status, "pass");
    let own = ApiBinding { inheritance: "none".into(), provider_ids: vec!["zz".into()] };
    assert_eq!(api_check(Some(&own), &known).message, "实例完全自管 API 配置");
    let all = ApiBinding { inheritance: "global".into(), provider_ids: vec![] };
    assert_eq!(api_check(Some(&all), &known).message, "继承全局供应商库");
    let fine = ApiBinding { inheritance: "pick".into(), provider_ids: vec!["p1".into(), "p2".into()] };
    assert_eq!(api_check(Some(&fine), &known).message, "引用的 2 个供应商都在全局库中");
    let gone = ApiBinding { inheritance: "pick".into(), provider_ids: vec!["p1".into(), "x".into(), "y".into()] };
    let c = api_check(Some(&gone), &known);
    assert_eq!(c.status, "warn");
    assert_eq!(c.message, "供应商已不在全局库中：x、y");
}

#[test]
fn check_constructors_fix_severity_by_status() {
    let p = VerifyCheck::pass("i", "c", "m".into());
    assert_eq!((p.severity.as_str(), p.status.as_str()), ("info", "pass"));
    let w = VerifyCheck::warn("i", "c", "m".into(), true, Some("a"));
    assert_eq!((w.severity.as_str(), w.status.as_str()), ("warning", "warn"));
    let f = VerifyCheck::fail("i", "c", "m".into(), false, None);
    assert_eq!((f.severity.as_str(), f.status.as_str()), ("error", "fail"));
}

#[test]
fn remote_actions_route_to_the_user_and_unknown_ones_are_rejected() {
    let mut out = RepairOutcome::new();
    assert_eq!(out.route("recreate-workspace"), Some(LocalAction::RecreateWorkspace));
    assert_eq!(out.route("install-version"), None);
    assert_eq!(out.route("install-version"), None);
    assert_eq!(out.route("rm -rf /"), None);
    out.record_applied("recreate-workspace");
    out.record_applied("recreate-workspace");
    assert_eq!(out.applied, vec!["recreate-workspace".to_string()]);
    assert_eq!(out.requires_user, vec!["install-version".to_string()]);
    assert_eq!(out.rejected, vec!["rm -rf /".to_string()]);
    assert_eq!(local_action("cleanup-txn"), Some(LocalAction::CleanupTxn));
    assert_eq!(local_action("recreate-skeleton"), Some(LocalAction::RecreateSkeleton));
    assert!(is_known_remote_action("reinstall-runtime"));
    assert!(!is_known_remote_action("cleanup-txn"));
    assert_eq!(repair_failure("cleanup-txn", "io"), "修复动作 cleanup-txn 失败: io");
}

#[test]
fn residue_scan_sees_part_files_and_legacy_staging() {
    assert!(is_part_fragment("node.zip.part"));
    assert!(!is_part_fragment("node.zip"));
    assert!(is_legacy_staging(".phl-new-node-22"));
    assert!(is_legacy_staging(".phl-old-x"));
    assert!(!is_legacy_staging("node-22"));
    assert!(is_stale(Some(5), 10));
    assert!(!is_stale(Some(10), 10));
    assert!(is_stale(None, 10));
}

#[test]
fn dsh_section_stops_at_a_missing_version() {
    let skipped = vec!["sharp".to_string()];
    let c = phl::verify::dsh_checks(Ok("0.17.3"), false, true, true, true, "degraded", &skipped);
    assert_eq!(c.len(), 1);
    assert_eq!(c[0].id, "dsh-version");
    assert_eq!(c[0].status, "fail");
    assert_eq!(c[0].message, "实例指向的 DSH 版本 0.17.3 未安装");
    let c = phl::verify::dsh_checks(Err("bad name"), true, true, true, true, "", &skipped);
    assert_eq!(c.len(), 1);
    assert_eq!(c[0].message, "bad name");
}

#[test]
fn dsh_section_reports_tree_and_degraded_deps() {
    let skipped = vec!["sharp".to_string(), "canvas".to_string()];
    let c = phl::verify::dsh_checks(Ok("0.17.3"), true, true, false, true, "degraded", &skipped);
    let ids: Vec<&str> = c.iter().map(|x| x.id.as_str()).collect();
    assert_eq!(ids, vec!["dsh-version", "dsh-tree", "dsh-deps"]);
    assert_eq!(c[1].message, "版本目录不完整，缺少 lib/bin.js");
    assert_eq!(c[2].message, "安装时跳过依赖：sharp、canvas");
    let c = phl::verify::dsh_checks(Ok("0.17.3"), true, true, true, true, "ok", &skipped);
    assert_eq!(c.len(), 2);
    assert_eq!(c[1].status, "pass");
}

#[test]
fn instance_report_without_manifest_judges_nothing_else() {
    let r = phl::verify::instance_report(Err("清单损坏".to_string()), vec![workspace_check(true)]);
    assert_eq!(r.checks.len(), 1);
    assert_eq!(r.checks[0].message, "清单损坏");
    assert_eq!(r.overall, "broken");
    let r = phl::verify::instance_report(Ok(3), vec![workspace_check(true)]);
    assert_eq!(r.checks.len(), 2);
    assert_eq!(r.checks[0].message, "清单可读（schema 3）");
    assert_eq!(r.checks[1].id, workspace_check(true).id);
}
