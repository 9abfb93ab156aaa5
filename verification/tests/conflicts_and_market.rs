use phl::plugins::conflicts::enabled_conflicts_in;
use phl::plugins::market::{
    candidate_bases, compute_trust, github_release, map_registry_entry, map_registry_file,
    npm_release, packument_url, tarball_release, github_repo, npm_version, pin_sha, registry_id_of,
    sanitize_cache_name, sanitize_pkg_path, source_kind, stderr_tail, PluginSourceWire,
    ResolvedSource,
};

fn lines(text: &str) -> Vec<String> {
    text.lines().map(str::to_owned).collect()
}

const PHL_ENABLED: &str = r#"# profile patch
- insert:
    - id: browser-use
      name: '@deepseek-ai/dsh-browser-use'
    - id: browser-use-chrome-devtools-mcp
      name: '@deepseek-ai/dsh-experimental-browser-use-chrome-devtools-mcp'
"#;

const PHL_DISABLED: &str = r#"- insert:
    - id: browser-use
      name: '@deepseek-ai/dsh-browser-use'
      disabled: true
    - id: browser-use-chrome-devtools-mcp
      name: '@deepseek-ai/dsh-experimental-browser-use-chrome-devtools-mcp'
      disabled: true
"#;

#[test]
fn detects_an_enabled_configuration_and_keeps_the_short_handle_first() {
    let found = enabled_conflicts_in(&lines(PHL_ENABLED));
    assert_eq!(found.len(), 1, "one configuration, not one per id");
    assert_eq!(
        found[0].ids,
        vec![
            "browser-use".to_string(),
            "browser-use-chrome-devtools-mcp".to_string()
        ],
        "the durable - id: handles come first; package names follow"
    );
    assert!(found[0].message.contains("Browser Use"));
}

#[test]
fn a_fully_disabled_configuration_is_not_a_conflict() {
    assert!(enabled_conflicts_in(&lines(PHL_DISABLED)).is_empty());
}

#[test]
fn an_explicit_disabled_false_is_enabled() {
    let spelled = r#"- insert:
    - id: browser-use
      name: '@deepseek-ai/dsh-browser-use'
      disabled: false
    - id: browser-use-chrome-devtools-mcp
      name: '@deepseek-ai/dsh-experimental-browser-use-chrome-devtools-mcp'
      disabled: false
"#;
    let found = enabled_conflicts_in(&lines(spelled));
    assert_eq!(found.len(), 1);
    assert_eq!(found[0].ids.len(), 2);
}

#[test]
fn a_partially_disabled_configuration_still_reports_the_live_row() {
    let half = r#"- insert:
    - id: browser-use
      name: '@deepseek-ai/dsh-browser-use'
      disabled: true
    - id: browser-use-chrome-devtools-mcp
      name: '@deepseek-ai/dsh-experimental-browser-use-chrome-devtools-mcp'
"#;
    let found = enabled_conflicts_in(&lines(half));
    assert_eq!(found.len(), 1);
    assert_eq!(
        found[0].ids,
        vec!["browser-use-chrome-devtools-mcp".to_string()]
    );
}

#[test]
fn a_package_named_row_is_detected_and_editable() {
    let by_name = r#"- id: '@deepseek-ai/dsh-browser-use'
  name: '@deepseek-ai/dsh-browser-use'
"#;
    let found = enabled_conflicts_in(&lines(by_name));
    assert_eq!(found.len(), 1);
    assert_eq!(
        found[0].ids,
        vec!["@deepseek-ai/dsh-browser-use".to_string()]
    );
}

#[test]
fn unrelated_plugins_are_left_alone() {
    let other = "- insert:\n    - id: dsh-cool\n      name: 'dsh-cool'\n";
    assert!(enabled_conflicts_in(&lines(other)).is_empty());
    assert!(enabled_conflicts_in(&[]).is_empty());
}

#[test]
fn the_field_shape_with_comments_and_nested_config_is_detected() {
    let field = r#"- insert:
    # ── Browser Use ──────────────
    - id: browser-use
      disabled: false
      name: '@deepseek-ai/dsh-browser-use'

    - id: browser-use-chrome-devtools-mcp
      disabled: false
      name: '@deepseek-ai/dsh-experimental-browser-use-chrome-devtools-mcp'
      config:
        mode: launch
        headless: true
"#;
    let found = enabled_conflicts_in(&lines(field));
    assert_eq!(found.len(), 1);
    assert_eq!(
        found[0].ids,
        vec![
            "browser-use".to_string(),
            "browser-use-chrome-devtools-mcp".to_string()
        ]
    );
}

#[test]
fn candidate_bases_respects_the_configured_source_and_dedupes() {
    let official = "https://awesome-dsh-plugin.com";
    assert_eq!(
        candidate_bases(official),
        vec![
            official.to_string(),
            "https://awesome-dsh-plugin.github.io/awesome-dsh-plugin".to_string(),
            "https://dsh-ai.org".to_string(),
        ]
    );
    let mirror = candidate_bases("https://dsh-ai.org");
    assert_eq!(mirror[0], "https://dsh-ai.org");
    assert_eq!(mirror.len(), 3);
    assert_eq!(mirror[1], official);
    assert_eq!(candidate_bases("").len(), 3);
    let custom = candidate_bases("https://mirror.example/");
    assert_eq!(custom.len(), 4);
    assert_eq!(custom[0], "https://mirror.example/");
}

#[test]
fn stderr_tail_keeps_the_last_few_lines_in_order() {
    let bytes = b"line1\nline2\nline3\n".to_vec();
    assert_eq!(stderr_tail(&bytes), "line1\nline2\nline3");
}

#[test]
fn stderr_tail_keeps_only_the_last_eight_lines_and_survives_bad_utf8() {
    let mut text = String::new();
    for i in 0..20 {
        text.push_str(&format!("l{i}\n"));
    }
    let tail = stderr_tail(text.as_bytes());
    let kept: Vec<&str> = tail.lines().collect();
    assert_eq!(kept.len(), 8);
    assert_eq!(kept[0], "l12");
    assert_eq!(kept[7], "l19");
    // Invalid UTF-8 is replaced, not a reason to lose the message.
    let lossy = stderr_tail(&[b'o', b'k', 0xff, b'\n']);
    assert_eq!(lossy, "ok\u{fffd}");
}

#[test]
fn registry_ids_are_whitelisted_not_normalized() {
    assert_eq!(sanitize_pkg_path("plain-plugin").unwrap(), "plain-plugin");
    assert_eq!(
        sanitize_pkg_path("@scope/pkg-name").unwrap(),
        "@scope/pkg-name"
    );
    assert_eq!(sanitize_pkg_path("a.b-c_d").unwrap(), "a.b-c_d");
    assert!(sanitize_pkg_path("@scope").is_ok());

    for evil in [
        "",
        "..",
        "a/..",
        "a/../b",
        "./pkg",
        "pkg/",
        "/pkg",
        "a//b",
        "C:\\evil",
        "a\\b",
        "pkg;rm -rf",
        "x".repeat(129).as_str(),
    ] {
        assert!(sanitize_pkg_path(evil).is_err(), "must refuse {evil:?}");
    }
}

fn resolved(integrity: Option<&str>, commit: Option<String>) -> ResolvedSource {
    ResolvedSource {
        url: String::new(),
        integrity: integrity.map(Into::into),
        version: String::new(),
        commit,
    }
}

#[test]
fn trust_is_derived_from_source_facts_not_optimism() {
    let npm = resolved(Some("sha512-abc"), None);
    let npm_bare = resolved(None, None);
    let tarball = resolved(Some("sha512-abc"), None);
    let tarball_bare = resolved(None, None);
    let gh_head = resolved(None, None);
    let gh_pinned = resolved(None, Some("a".repeat(40)));

    assert_eq!(
        compute_trust(&PluginSourceWire::Npm { pkg: "x".into() }, &npm),
        "verified"
    );
    assert_eq!(
        compute_trust(&PluginSourceWire::Npm { pkg: "x".into() }, &npm_bare),
        "unverified",
        "npm without integrity cannot be called verified"
    );
    assert_eq!(
        compute_trust(
            &PluginSourceWire::Tarball {
                url: String::new(),
                integrity: None
            },
            &tarball
        ),
        "pinned"
    );
    assert_eq!(
        compute_trust(
            &PluginSourceWire::Tarball {
                url: String::new(),
                integrity: None
            },
            &tarball_bare
        ),
        "unverified"
    );
    assert_eq!(
        compute_trust(&PluginSourceWire::Github { repo: "a/b".into() }, &gh_pinned),
        "pinned"
    );
    assert_eq!(
        compute_trust(&PluginSourceWire::Github { repo: "a/b".into() }, &gh_head),
        "unverified"
    );
}

#[test]
fn source_kinds_and_registry_ids_follow_the_source() {
    assert_eq!(source_kind(&PluginSourceWire::Npm { pkg: "p".into() }), "npm");
    assert_eq!(
        source_kind(&PluginSourceWire::Github { repo: "o/r".into() }),
        "github"
    );
    assert_eq!(
        registry_id_of(&PluginSourceWire::Npm { pkg: "@s/p".into() }),
        "@s/p"
    );
}

#[test]
fn cache_names_keep_only_safe_characters() {
    assert_eq!(sanitize_cache_name("@scope/pkg"), "_scope_pkg");
    assert_eq!(sanitize_cache_name("plain-1.0_x"), "plain-1.0_x");
}

#[test]
fn commit_pins_are_forty_hex_characters() {
    let sha = "0123456789abcdef0123456789abcdef01234567";
    assert_eq!(pin_sha(sha), Some(sha.to_string()));
    assert_eq!(pin_sha("short"), None);
}

#[test]
fn github_repos_are_owner_slash_name() {
    assert_eq!(github_repo("owner/repo").unwrap(), "owner/repo");
    assert!(github_repo("owner").is_err());
    assert!(github_repo("a/b/c").is_err());
}

#[test]
fn npm_version_prefers_the_request_then_latest() {
    assert_eq!(
        npm_version("p", Some("1.2.3"), true, Some("2.0.0".into())).unwrap(),
        "1.2.3"
    );
    assert_eq!(npm_version("p", None, false, Some("2.0.0".into())).unwrap(), "2.0.0");
    assert!(npm_version("p", None, false, None).is_err());
}

fn registry_entry(name: &str, owner: &str, url: &str, npm: Option<&str>, downloads: Option<u64>) -> phl::plugins::market::RegistryEntry {
    phl::plugins::market::RegistryEntry {
        name: name.into(),
        owner: owner.into(),
        url: url.into(),
        category: String::new(),
        description_en: Some("english".into()),
        description_zh: None,
        npm: npm.map(Into::into),
        tarball: None,
        stars: None,
        downloads,
        added: None,
        screenshots: vec![],
    }
}

#[test]
fn registry_entries_without_identity_are_dropped_not_invented() {
    let entries = vec![
        registry_entry("p1", "o", "https://github.com/o/p1", Some("@o/p1"), None),
        registry_entry("", "", "", None, None),
    ];
    let mapped = map_registry_file(&entries);
    assert_eq!(mapped.len(), 1);
    assert_eq!(mapped[0].id, "o/p1");
    assert!(matches!(&mapped[0].source, PluginSourceWire::Npm { .. }));
    assert_eq!(mapped[0].category, "dev");
    assert_eq!(mapped[0].summary, "english");
    assert_eq!(mapped[0].repo_url.as_deref(), Some("https://github.com/o/p1"));
}

#[test]
fn the_catalog_is_ordered_by_downloads_then_id() {
    let entries = vec![
        registry_entry("b", "o", "", None, Some(5)),
        registry_entry("a", "o", "", None, Some(5)),
        registry_entry("c", "deepseek-ai", "", None, Some(9)),
        registry_entry("d", "o", "", None, None),
    ];
    let mapped = map_registry_file(&entries);
    let ids: Vec<&str> = mapped.iter().map(|m| m.id.as_str()).collect();
    assert_eq!(ids, vec!["deepseek-ai/c", "o/a", "o/b", "o/d"]);
    assert!(mapped[0].official);
    assert!(!mapped[1].official);
    let gh = map_registry_entry(&registry_entry("x", "o", "https://github.com/o/x/", None, None)).unwrap();
    assert!(matches!(&gh.source, PluginSourceWire::Github { repo } if repo == "o/x"));
}

#[test]
fn packument_urls_encode_scoped_names() {
    assert_eq!(
        packument_url("https://registry.npmjs.org/", "@scope/pkg"),
        "https://registry.npmjs.org/@scope%2Fpkg"
    );
    assert_eq!(packument_url("https://r.example", "plain"), "https://r.example/plain");
}

#[test]
fn an_explicit_npm_version_must_exist_and_carry_a_tarball() {
    let ok = npm_release(
        "@o/p",
        "1.2.3".into(),
        Some(("https://r/p.tgz".into(), Some("sha512-x".into()))),
    )
    .unwrap();
    assert_eq!(ok.url, "https://r/p.tgz");
    assert_eq!(ok.integrity.as_deref(), Some("sha512-x"));
    assert_eq!(ok.version, "1.2.3");
    assert!(ok.commit.is_none());
    assert_eq!(
        npm_release("@o/p", "9.9.9".into(), None).unwrap_err(),
        "npm 上没有找到 @o/p@9.9.9"
    );
    assert_eq!(
        npm_release("@o/p", "1.0.0".into(), Some((String::new(), None))).unwrap_err(),
        "@o/p@1.0.0 没有 tarball 下载地址"
    );
}

#[test]
fn tarball_and_github_sources_resolve_to_fixed_urls() {
    let t = tarball_release("https://x/p.tgz".into(), None, None);
    assert_eq!(t.version, "latest");
    let sha = "0123456789abcdef0123456789abcdef01234567".to_string();
    let pinned = github_release("o/r", Some(sha.clone()), None);
    assert_eq!(pinned.url, format!("https://codeload.github.com/o/r/tar.gz/{sha}"));
    assert_eq!(pinned.version, "0123456");
    assert_eq!(pinned.commit.as_deref(), Some(sha.as_str()));
    assert_eq!(github_release("o/r", Some(sha.clone()), Some("v2")).version, "v2");
    assert_eq!(github_release("o/r", Some(sha), Some("HEAD")).version, "0123456");
    let head = github_release("o/r", None, None);
    assert_eq!(head.url, "https://codeload.github.com/o/r/tar.gz/HEAD");
    assert_eq!(head.version, "HEAD");
    assert!(head.commit.is_none());
}

#[test]
fn empty_npm_field_falls_back_to_the_tarball() {
    let mut e = registry_entry("x", "alice", "", Some(""), None);
    e.tarball = Some("https://cdn.example/x-1.0.0.tgz".into());
    let m = map_registry_entry(&e).unwrap();
    assert!(matches!(
        m.source,
        PluginSourceWire::Tarball { ref url, integrity: None } if url == "https://cdn.example/x-1.0.0.tgz"
    ));
    let e = registry_entry("x", "alice", "", Some(""), None);
    assert!(matches!(map_registry_entry(&e).unwrap().source, PluginSourceWire::Github { .. }));
}

#[test]
fn disable_all_lines_turns_off_both_rows_and_settles() {
    let text = "# profile patch\n- insert:\n    - id: browser-use\n      name: '@deepseek-ai/dsh-browser-use'\n    - id: browser-use-chrome-devtools-mcp\n      name: '@deepseek-ai/dsh-experimental-browser-use-chrome-devtools-mcp'\n";
    let lines: Vec<String> = text.lines().map(str::to_owned).collect();
    let (next, ids) = phl::plugins::conflicts::disable_all_lines(lines);
    assert_eq!(ids, vec!["browser-use", "browser-use-chrome-devtools-mcp"]);
    assert!(enabled_conflicts_in(&next).is_empty());
    let (again, none) = phl::plugins::conflicts::disable_all_lines(next.clone());
    assert!(none.is_empty());
    assert_eq!(again, next);
}
