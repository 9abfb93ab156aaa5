use base64::Engine as _;
use phl::pipeline::StepEvent;
use phl::plugins::install::{
    check_integrity, plugin_install_begin, plugin_install_step, sha512_integrity, verify_package,
    PluginInstallAction, PluginInstallPhase, PluginInstallState,
};
use phl::resources::TaskCounter;
use phl::runtimes::install::{
    runtime_install_begin, runtime_install_step, RuntimeInstallAction, RuntimeInstallPhase,
};
use phl::runtimes::verify_archive;
use phl::storage::roots_nested;
use sha2::{Digest, Sha256, Sha512};

fn ok() -> StepEvent {
    StepEvent::Succeeded { cancelled: false }
}

fn npm_integrity(bytes: &[u8]) -> String {
    format!(
        "sha512-{}",
        base64::engine::general_purpose::STANDARD.encode(Sha512::digest(bytes))
    )
}

fn at(phase: PluginInstallPhase, pending: &str) -> PluginInstallState {
    PluginInstallState {
        phase,
        pending: pending.to_string(),
        txn_dir: "/p/.phl-txn".to_string(),
    }
}

fn fail_of(a: &PluginInstallAction) -> (String, bool) {
    match a {
        PluginInstallAction::Fail { message, remove_part } => (message.clone(), *remove_part),
        other => panic!("expected a failure, got {other:?}"),
    }
}

/* ------------------------------ integrity ------------------------------ */

#[test]
fn integrity_of_empty_digest_input_is_npm_spelling() {
    let digest = Sha512::digest(b"");
    assert_eq!(
        sha512_integrity(&digest),
        "sha512-z4PhNX7vuL3xVChQ1m2AB9Yg5AULVxXcg/SpIdNs6c5H0NE8XYXysP+DGNKHfuwvY7kxvUdBeoGlODJ6+SfaPg=="
    );
    assert_eq!(sha512_integrity(&digest), npm_integrity(b""));
}

#[test]
fn integrity_check_skips_without_a_published_value() {
    assert_eq!(check_integrity(None, &[1, 2, 3]), Ok(()));
}

#[test]
fn integrity_check_accepts_the_matching_value() {
    let digest = Sha512::digest(b"package");
    let expected = npm_integrity(b"package");
    assert_eq!(check_integrity(Some(&expected), &digest), Ok(()));
}

#[test]
fn integrity_check_refuses_another_value() {
    let digest = Sha512::digest(b"package");
    let actual = npm_integrity(b"package");
    let err = check_integrity(Some("sha512-AAAA"), &digest).unwrap_err();
    assert_eq!(
        err,
        format!("校验失败：下载内容与 registry 声明的 integrity 不一致（声明 sha512-AAAA，实际 {actual}）")
    );
}

#[test]
fn verify_package_hashes_the_downloaded_bytes() {
    let tgz = b"fake tarball bytes";
    assert_eq!(verify_package(tgz, None), Ok(npm_integrity(tgz)));
    let expected = npm_integrity(tgz);
    assert_eq!(verify_package(tgz, Some(&expected)), Ok(expected.clone()));
    assert!(verify_package(b"tampered", Some(&expected)).is_err());
}

#[test]
fn verify_archive_hashes_the_archive() {
    let archive = b"node archive";
    let hex = hex::encode(Sha256::digest(archive));
    let shasums = format!("{hex}  node-v22.1.0-linux-x64.tar.gz\n");
    assert_eq!(verify_archive(archive, "node-v22.1.0-linux-x64.tar.gz", &shasums), Ok(()));
    assert_eq!(
        verify_archive(b"other bytes", "node-v22.1.0-linux-x64.tar.gz", &shasums),
        Err("校验失败：下载内容与官方 SHASUMS256 摘要不一致".to_string())
    );
}

/* --------------------------- plugin pipeline --------------------------- */

#[test]
fn plugin_install_begin_checks_its_inputs() {
    assert_eq!(
        plugin_install_begin("", "dsh-foo", "/p/.phl-txn").unwrap_err(),
        "实例目录未设置"
    );
    assert_eq!(
        plugin_install_begin("/p", "../evil", "/p/.phl-txn").unwrap_err(),
        "非法的插件标识: ../evil"
    );
    let (s, a) = plugin_install_begin("/p", "@scope/dsh-foo", "/p/.phl-txn").unwrap();
    assert_eq!(s.phase, PluginInstallPhase::Recovering);
    assert!(matches!(a, PluginInstallAction::RecoverTransaction));
}

#[test]
fn plugin_install_clean_run_succeeds() {
    let (mut s, _) = plugin_install_begin("/p", "dsh-foo", "/p/.phl-txn").unwrap();
    let mut actions = Vec::new();
    for _ in 0..7 {
        let (next, a) = plugin_install_step(&s, ok());
        actions.push(format!("{a:?}"));
        s = next;
    }
    assert_eq!(
        actions,
        vec![
            "Resolve",
            "Download",
            "CheckIntegrity",
            "ExtractAndSwap",
            "Commit",
            "RecoverTransaction",
            "Succeed"
        ]
    );
    assert_eq!(s.phase, PluginInstallPhase::Done);
    let (s2, a) = plugin_install_step(&s, ok());
    assert_eq!(s2.phase, PluginInstallPhase::Done);
    assert!(matches!(a, PluginInstallAction::Nothing));
}

#[test]
fn plugin_install_cancel_before_the_swap_is_honoured() {
    let (_, a) = plugin_install_step(&at(PluginInstallPhase::Resolving, ""), StepEvent::Succeeded { cancelled: true });
    assert_eq!(fail_of(&a), ("cancelled".to_string(), false));
    let (_, a) = plugin_install_step(&at(PluginInstallPhase::Verifying, ""), StepEvent::Succeeded { cancelled: true });
    assert_eq!(fail_of(&a), ("cancelled".to_string(), true));
}

#[test]
fn plugin_install_cancel_after_the_swap_is_ignored() {
    let (s, a) = plugin_install_step(&at(PluginInstallPhase::Swapping, ""), StepEvent::Succeeded { cancelled: true });
    assert_eq!(s.phase, PluginInstallPhase::Committing);
    assert!(matches!(a, PluginInstallAction::Commit));
}

#[test]
fn plugin_install_download_failure_keeps_a_resumable_part() {
    let (_, a) = plugin_install_step(&at(PluginInstallPhase::Downloading, ""), StepEvent::Failed("cancelled".into()));
    assert_eq!(fail_of(&a), ("cancelled".to_string(), false));
    let (_, a) = plugin_install_step(&at(PluginInstallPhase::Downloading, ""), StepEvent::Failed("HTTP 500".into()));
    assert_eq!(fail_of(&a), ("HTTP 500".to_string(), true));
}

#[test]
fn plugin_install_integrity_failure_removes_the_part() {
    let (s, a) = plugin_install_step(&at(PluginInstallPhase::Verifying, ""), StepEvent::Failed("bad".into()));
    assert_eq!(s.phase, PluginInstallPhase::Failed);
    assert_eq!(fail_of(&a), ("bad".to_string(), true));
}

#[test]
fn plugin_install_swap_failure_rolls_back_first() {
    let (s, a) = plugin_install_step(&at(PluginInstallPhase::Swapping, ""), StepEvent::Failed("无法放置插件目录: x".into()));
    assert_eq!(s.phase, PluginInstallPhase::RecoveringAfterSwap);
    assert!(matches!(a, PluginInstallAction::RecoverTransaction));
    let (_, a) = plugin_install_step(&s, ok());
    assert_eq!(fail_of(&a), ("无法放置插件目录: x".to_string(), false));
    let (_, a) = plugin_install_step(&s, StepEvent::Failed("disk full".into()));
    assert_eq!(
        fail_of(&a),
        ("无法放置插件目录: x；恢复未完成: disk full".to_string(), false)
    );
}

#[test]
fn plugin_install_commit_failure_reports_the_rollback() {
    let (s, a) = plugin_install_step(&at(PluginInstallPhase::Committing, ""), StepEvent::Failed("安装插件依赖失败: x".into()));
    assert_eq!(s.phase, PluginInstallPhase::RecoveringAfterCommit);
    assert!(matches!(a, PluginInstallAction::RecoverTransaction));
    let (_, a) = plugin_install_step(&s, ok());
    assert_eq!(
        fail_of(&a),
        ("安装提交失败，已恢复原来的插件：安装插件依赖失败: x".to_string(), true)
    );
    let (_, a) = plugin_install_step(&s, StepEvent::Failed("busy".into()));
    assert_eq!(
        fail_of(&a),
        (
            "安装提交失败，恢复未完成，旧版本保留在 /p/.phl-txn，请重试或手动处理：安装插件依赖失败: x".to_string(),
            true
        )
    );
}

#[test]
fn plugin_install_final_recovery_failure_is_reported_as_is() {
    let (s, a) = plugin_install_step(&at(PluginInstallPhase::Finishing, ""), StepEvent::Failed("locked".into()));
    assert_eq!(s.phase, PluginInstallPhase::Failed);
    assert_eq!(fail_of(&a), ("locked".to_string(), false));
}

/* --------------------------- runtime pipeline --------------------------- */

#[test]
fn runtime_install_begin_builds_the_archive_url() {
    let (s, a) = runtime_install_begin("https://nodejs.org/dist//", "22.1.0", "linux", "x86_64", false, false).unwrap();
    assert_eq!(s.archive, "node-v22.1.0-linux-x64.tar.gz");
    assert!(!s.zip);
    match a {
        RuntimeInstallAction::Download { url } => {
            assert_eq!(url, "https://nodejs.org/dist/v22.1.0/node-v22.1.0-linux-x64.tar.gz")
        }
        other => panic!("expected a download, got {other:?}"),
    }
    let (s, _) = runtime_install_begin("https://m", "20.0.0", "windows", "x86_64", true, false).unwrap();
    assert!(s.zip);
    assert!(s.keep_archive);
}

#[test]
fn runtime_install_begin_refusals() {
    assert_eq!(
        runtime_install_begin("https://m", "22.1.0", "linux", "x86_64", false, true).unwrap_err(),
        "cancelled"
    );
    assert_eq!(
        runtime_install_begin("https://m", "22.1.0", "freebsd", "x86_64", false, false).unwrap_err(),
        "暂不支持的平台: freebsd-x86_64"
    );
}

#[test]
fn runtime_install_clean_run_promotes_after_the_gate() {
    let (mut s, _) = runtime_install_begin("https://m", "22.1.0", "macos", "aarch64", true, false).unwrap();
    let mut actions = Vec::new();
    for _ in 0..7 {
        let (next, a) = runtime_install_step(&s, ok());
        actions.push(format!("{a:?}"));
        s = next;
    }
    assert_eq!(
        actions,
        vec![
            "VerifyArchive { archive: \"node-v22.1.0-darwin-arm64.tar.gz\" }",
            "Extract { zip: false }",
            "WriteRecord",
            "CheckHealth",
            "StoreArchive { keep: true }",
            "Promote",
            "Succeed"
        ]
    );
    assert_eq!(s.phase, RuntimeInstallPhase::Done);
}

#[test]
fn runtime_install_health_failure_clears_staging() {
    let (mut s, _) = runtime_install_begin("https://m", "22.1.0", "linux", "aarch64", false, false).unwrap();
    for _ in 0..4 {
        s = runtime_install_step(&s, ok()).0;
    }
    assert_eq!(s.phase, RuntimeInstallPhase::CheckingHealth);
    let (s, a) = runtime_install_step(&s, StepEvent::Failed("node 可执行文件缺失".into()));
    assert_eq!(s.phase, RuntimeInstallPhase::Failed);
    match a {
        RuntimeInstallAction::Fail { message, remove_staging } => {
            assert_eq!(message, "Runtime 校验未通过，安装中止: node 可执行文件缺失");
            assert!(remove_staging);
        }
        other => panic!("expected a failure, got {other:?}"),
    }
}

#[test]
fn runtime_install_other_failures_are_reported_as_is() {
    let (s, _) = runtime_install_begin("https://m", "22.1.0", "linux", "aarch64", false, false).unwrap();
    let (s, a) = runtime_install_step(&s, StepEvent::Failed("HTTP 404".into()));
    assert_eq!(s.phase, RuntimeInstallPhase::Failed);
    match a {
        RuntimeInstallAction::Fail { message, remove_staging } => {
            assert_eq!(message, "HTTP 404");
            assert!(!remove_staging);
        }
        other => panic!("expected a failure, got {other:?}"),
    }
}

/* ------------------------------ task ids ------------------------------ */

#[test]
fn task_counter_starts_at_one() {
    let mut c = TaskCounter::new();
    assert_eq!(c.next_id("plugin-toggle"), "task-plugin-toggle-1");
    assert_eq!(c.next_id("runtime-remove"), "task-runtime-remove-2");
    assert_eq!(c.next, 3);
}

/* ----------------------------- nested roots ----------------------------- */

#[test]
fn nested_roots_compare_components() {
    assert!(roots_nested("/data/phl", "/data/phl/new", '/'));
    assert!(roots_nested("/data/phl/new", "/data/phl", '/'));
    assert!(roots_nested("/data/phl/", "/data//phl", '/'));
    assert!(!roots_nested("/data/phl", "/data/phl2", '/'));
    assert!(!roots_nested("/data/a", "/data/b", '/'));
    assert!(!roots_nested("data", "/data", '/'));
    assert!(roots_nested("/data/./phl", "/data/phl/x", '/'));
}

#[test]
fn install_result_reports_id_trust_and_record() {
    let source = phl::plugins::market::PluginSourceWire::Npm { pkg: "@acme/dsh-foo".into() };
    let resolved = phl::plugins::market::ResolvedSource {
        url: "https://r/x.tgz".into(),
        integrity: Some("sha512-abc".into()),
        version: "1.2.3".into(),
        commit: None,
    };
    let digest = Sha512::digest(b"tgz");
    let (o, m) = phl::plugins::install::install_result(&source, &resolved, &digest, 42).unwrap();
    assert_eq!(o.registry_id, "@acme/dsh-foo");
    assert_eq!(o.version, "1.2.3");
    assert_eq!(o.trust, "verified");
    assert_eq!(m.kind, "npm");
    assert_eq!(m.integrity, "sha512-abc");
    assert_eq!(m.actual_integrity, npm_integrity(b"tgz"));
    assert_eq!(m.pinned_ref, None);
    assert_eq!(m.bytes, 42);
    let gh = phl::plugins::market::PluginSourceWire::Github { repo: "alice/dsh-bar".into() };
    let pinned = phl::plugins::market::ResolvedSource {
        url: "u".into(),
        integrity: None,
        version: "0.0.0".into(),
        commit: Some("abcdef1".into()),
    };
    let (o, m) = phl::plugins::install::install_result(&gh, &pinned, &digest, 1).unwrap();
    assert_eq!(o.registry_id, "dsh-bar");
    assert_eq!(o.trust, "pinned");
    assert_eq!(m.integrity, "");
    assert_eq!(m.pinned_ref.as_deref(), Some("abcdef1"));
    let bad = phl::plugins::market::PluginSourceWire::Npm { pkg: "..".into() };
    assert_eq!(
        phl::plugins::install::install_result(&bad, &resolved, &digest, 1).unwrap_err(),
        "非法的插件标识: .."
    );
}

#[test]
fn base64_of_short_inputs_is_padded() {
    // A digest of one, two and three bytes, through the integrity text.
    assert_eq!(sha512_integrity(b"M"), "sha512-TQ==");
    assert_eq!(sha512_integrity(b"Ma"), "sha512-TWE=");
    assert_eq!(sha512_integrity(b"Man"), "sha512-TWFu");
}

#[test]
fn runtimes_safe_join_still_guards_zip_entries() {
    let dest = "phl/runtimes/node-22";
    assert!(phl::runtimes::archive::safe_join(dest, "node.exe").is_ok());
    assert!(phl::runtimes::archive::safe_join(dest, "../evil").is_err());
    assert!(phl::runtimes::archive::safe_join(dest, "C:\\evil").is_err());
}

#[test]
fn mod_safe_join_still_guards_zip_entries() {
    let dest = "phl/runtimes/node-22";
    assert_eq!(
        phl::runtimes::archive::safe_join(dest, "node.exe").unwrap(),
        "phl/runtimes/node-22/node.exe"
    );
    assert_eq!(
        phl::runtimes::archive::safe_join(dest, "a\\..\\..\\evil").unwrap_err(),
        "压缩包条目越出目标目录: a\\..\\..\\evil"
    );
    assert!(phl::runtimes::archive::safe_join(dest, "/etc/passwd").is_err());
}

#[test]
fn strip_first_drops_the_top_directory() {
    use_strip();
}

fn use_strip() {
    assert_eq!(
        phl::runtimes::archive::strip_first("node-v22.1.0-win-x64/node.exe").as_deref(),
        Some("node.exe")
    );
    assert_eq!(
        phl::runtimes::archive::strip_first("node-v22\\lib\\node_modules").as_deref(),
        Some("lib/node_modules")
    );
    assert_eq!(phl::runtimes::archive::strip_first("node-v22/").as_deref(), Some(""));
    assert_eq!(phl::runtimes::archive::strip_first(""), None);
}
