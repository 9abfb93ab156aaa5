use phl::runtimes::{
    check_shasums, dist_platform, group_catalog, installed_runtimes, parse_shasums,
    parse_system_node_version, runtime_health, shasum_for, InstalledRuntimeInfo,
};
use phl::verify::NodeProbe;
use sha2::{Digest, Sha256};

fn entry(version: &str, lts: Option<&str>) -> (String, Option<String>) {
    (version.to_string(), lts.map(str::to_string))
}

fn system_node_cases() {
    assert_eq!(parse_system_node_version("v22.9.0\n").as_deref(), Some("22.9.0"));
    assert_eq!(parse_system_node_version("node was not found"), None);
    assert_eq!(parse_system_node_version("v22"), None);
}

#[test]
fn runtimes_system_node_parse_rejects_shims() {
    system_node_cases();
}

#[test]
fn mod_system_node_parse_rejects_shims() {
    system_node_cases();
}

#[test]
fn system_node_parse_rejects_non_digit_versions() {
    assert_eq!(parse_system_node_version("  v18.20.4  "), Some("18.20.4".to_string()));
    assert_eq!(parse_system_node_version("v22.9.0-rc"), None);
    assert_eq!(parse_system_node_version("v1.2.3.4"), None);
    assert_eq!(parse_system_node_version(""), None);
}

fn catalog_cases() {
    let metas = group_catalog(vec![
        entry("v22.11.0", Some("Jod")),
        entry("v22.12.0", Some("Jod")),
        entry("v23.1.0", None),
        entry("v21.7.3", None),
        entry("v18.20.4", Some("Hydrogen")),
        entry("v14.21.3", Some("Fermium")),
    ]);
    let ids: Vec<&str> = metas.iter().map(|m| m.id.as_str()).collect();
    assert!(!ids.contains(&"node-21"));
    assert!(!ids.contains(&"node-14"));
    let node22 = metas.iter().find(|m| m.id == "node-22").unwrap();
    assert_eq!(node22.version, "22.12.0");
    assert!(node22.lts);
    let node23 = metas.iter().find(|m| m.id == "node-23").unwrap();
    assert!(!node23.lts);
    assert_eq!(metas.first().unwrap().major, 23);
}

#[test]
fn runtimes_catalog_groups_latest_per_major_and_filters() {
    catalog_cases();
}

#[test]
fn mod_catalog_groups_latest_per_major_and_filters() {
    catalog_cases();
}

#[test]
fn catalog_order_and_codenames_are_exact() {
    let metas = group_catalog(vec![
        entry("v22.11.0", Some("Jod")),
        entry("v22.12.0", Some("Jod")),
        entry("v23.1.0", None),
        entry("v21.7.3", None),
        entry("v18.20.4", Some("Hydrogen")),
        entry("garbage", None),
    ]);
    let ids: Vec<&str> = metas.iter().map(|m| m.id.as_str()).collect();
    assert_eq!(ids, vec!["node-23", "node-22", "node-18"]);
    assert_eq!(metas[1].codename.as_deref(), Some("Jod"));
    assert_eq!(metas[2].version, "18.20.4");
    assert!(group_catalog(Vec::new()).is_empty());
}

fn shasum_cases() {
    let map = parse_shasums(
        "abc123  node-v22.11.0-win-x64.zip\n0123 *node-v22.11.0-darwin-x64.tar.gz\n\n",
    );
    assert_eq!(
        shasum_for(&map, "node-v22.11.0-win-x64.zip").as_deref(),
        Some("abc123")
    );
    assert_eq!(
        shasum_for(&map, "node-v22.11.0-darwin-x64.tar.gz").as_deref(),
        Some("0123")
    );

    let digest = Sha256::digest(b"payload");
    assert!(check_shasums(&map, "node-v22.11.0-win-x64.zip", digest.as_slice()).is_err());
    assert!(check_shasums(&map, "node-v22.11.0-missing.zip", digest.as_slice()).is_err());
    let mut map = map;
    map.push(("node-v22.11.0-win-x64.zip".into(), hex::encode(digest)));
    check_shasums(&map, "node-v22.11.0-win-x64.zip", digest.as_slice()).unwrap();
}

#[test]
fn runtimes_shasums_are_parsed_and_enforced() {
    shasum_cases();
}

#[test]
fn mod_shasums_are_parsed_and_enforced() {
    shasum_cases();
}

#[test]
fn shasum_comparison_ignores_hex_case_and_names_the_missing_file() {
    let digest = Sha256::digest(b"payload");
    let upper = hex::encode(digest).to_uppercase();
    let map = parse_shasums(&format!("{upper}  f.zip\n"));
    assert!(check_shasums(&map, "f.zip", digest.as_slice()).is_ok());
    let err = check_shasums(&map, "g.zip", digest.as_slice()).unwrap_err();
    assert_eq!(err, "SHASUMS256 里没有 g.zip 的校验条目");
}

#[test]
fn platform_matches_host_shape() {
    assert_eq!(dist_platform("windows", "x86_64").unwrap(), "win-x64.zip");
    assert_eq!(dist_platform("windows", "aarch64").unwrap(), "win-arm64.zip");
    assert_eq!(dist_platform("macos", "aarch64").unwrap(), "darwin-arm64.tar.gz");
    assert_eq!(dist_platform("linux", "x86_64").unwrap(), "linux-x64.tar.gz");
    assert_eq!(
        dist_platform("freebsd", "x86_64").unwrap_err(),
        "暂不支持的平台: freebsd-x86_64"
    );
}

#[test]
fn a_fresh_runtime_must_report_its_own_version() {
    let ran = |ok: bool, out: &str, code: Option<i32>| NodeProbe::Ran {
        success: ok,
        stdout: out.to_string(),
        code,
    };
    assert!(runtime_health("22.11.0", true, ran(true, "v22.11.0\n", Some(0))).is_ok());
    assert_eq!(
        runtime_health("22.11.0", false, ran(true, "v22.11.0", Some(0))).unwrap_err(),
        "node 可执行文件缺失"
    );
    assert_eq!(
        runtime_health("22.11.0", true, ran(true, "v20.0.0", Some(0))).unwrap_err(),
        "node --version 返回 v20.0.0，期望 v22.11.0"
    );
    assert_eq!(
        runtime_health("22.11.0", true, ran(false, "", Some(9))).unwrap_err(),
        "node --version 退出码 9"
    );
    assert_eq!(
        runtime_health("22.11.0", true, NodeProbe::Failed("denied".into())).unwrap_err(),
        "无法运行 node --version: denied"
    );
}

#[test]
fn installed_runtimes_skip_dot_names_and_sort_by_name() {
    let info = |name: &str| InstalledRuntimeInfo {
        name: name.to_string(),
        installed_at: "2026-09-03T04:31:37Z".into(),
        version: "22.11.0".into(),
    };
    let listed = installed_runtimes(vec![info("node-22"), info(".phl-new-node-20"), info("node-18"), info("node-20")]);
    let names: Vec<&str> = listed.iter().map(|r| r.name.as_str()).collect();
    assert_eq!(names, vec!["node-18", "node-20", "node-22"]);
    assert!(installed_runtimes(Vec::new()).is_empty());
}
