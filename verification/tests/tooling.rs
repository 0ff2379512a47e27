use release_utils::cargo::BinaryBuild;
use release_utils::checksums::str_lex_lt;
use release_utils::git::str_contains;
use release_utils::git::str_has_prefix;
use release_utils::cargo::CargoToml;
use release_utils::gh_cli::ReleaseMode;
use release_utils::git::OriginUrl;
use release_utils::linux_utils::LinuxGroup;
use release_utils::linux_utils::LinuxUser;
use release_utils::linux_utils::SystemdUnit;
use release_utils::precommit::Features;

const MANIFEST_TEXT: &str = "[package]\nname = \"demo-tool\"\nversion = \"1.2.3\"\nlicense = \"MIT\"\ndescription = \"a demo\"\nauthors = [\"Ada\", \"Grace\"]\n";

fn demo_toml() -> CargoToml {
    CargoToml::from_contents("/work/Cargo.toml".to_string(), MANIFEST_TEXT.to_string())
}

#[test]
fn cargo_toml_reads_package_keys() {
    let t = demo_toml();
    assert_eq!(t.path(), "/work/Cargo.toml");
    assert_eq!(t.name(), Some("demo-tool".to_string()));
    assert_eq!(t.version(), Some("1.2.3".to_string()));
    assert_eq!(t.license(), Some("MIT".to_string()));
    assert_eq!(t.description(), Some("a demo".to_string()));
    assert_eq!(
        t.authors(),
        Some(vec!["Ada".to_string(), "Grace".to_string()])
    );
}

#[test]
fn cargo_toml_missing_keys_are_none() {
    let t = CargoToml::from_contents(
        "/work/Cargo.toml".to_string(),
        "[package]\nname = \"only-name\"\n".to_string(),
    );
    assert_eq!(t.version(), None);
    assert_eq!(t.license(), None);
    assert_eq!(t.authors(), None);
    assert_eq!(t.versioned_name(), None);
    let broken = CargoToml::from_contents("/x".to_string(), "not toml :::".to_string());
    assert_eq!(broken.name(), None);
}

#[test]
fn versioned_name_joins_name_and_version() {
    let t = demo_toml();
    assert_eq!(t.versioned_name(), Some("demo-tool-1.2.3".to_string()));
}

#[test]
fn binary_build_collects_projects_and_flags() {
    let mut b = BinaryBuild::new();
    b.with_project("core");
    b.with_projects(&vec!["cli".to_string(), "daemon".to_string()]);
    b.with_target("x86_64-unknown-linux-gnu");
    let flags = b.project_flags();
    assert_eq!(
        flags,
        vec![
            "-p=core".to_string(),
            "-p=cli".to_string(),
            "-p=daemon".to_string()
        ]
    );
    assert_eq!(b.target(), Some(&"x86_64-unknown-linux-gnu".to_string()));
}

#[test]
fn origin_url_keeps_http_forms() {
    let u = OriginUrl("https://github.com/user/repo.git".to_string());
    let r = u.to_http().expect("kept");
    assert_eq!(r.get(), "https://github.com/user/repo.git");
    let u2 = OriginUrl("http://example.com/repo".to_string());
    assert_eq!(u2.to_http().expect("kept").get(), "http://example.com/repo");
}

#[test]
fn origin_url_rewrites_scp_style_github_remotes() {
    let u = OriginUrl("git@github.com:user/repo.git".to_string());
    let r = u.to_http().expect("rewritten");
    // the head becomes https:// and then the first colon of the result
    // turns into a slash — which is the colon inside "https:"
    assert_eq!(r.get(), "https///github.com:user/repo.git");
}

#[test]
fn origin_url_refuses_other_remotes() {
    let u = OriginUrl("ssh://gitlab.example/repo.git".to_string());
    assert!(u.to_http().is_err());
}

#[test]
fn tag_listing_lookup_trims_each_line() {
    let listing = "v0.1.0\n  v0.2.0 \nv1.0.0\r\n";
    assert!(release_utils::git::tag_in_list(listing, "v0.1.0"));
    assert!(release_utils::git::tag_in_list(listing, "v0.2.0"));
    assert!(release_utils::git::tag_in_list(listing, "v1.0.0"));
    assert!(!release_utils::git::tag_in_list(listing, "v2.0.0"));
    assert!(!release_utils::git::tag_in_list("", "v0.1.0"));
}

#[test]
fn tag_listing_lookup_trims_like_the_standard_trim() {
    let exotic = "\u{a0}v3.0.0\u{2003}\n\u{85}v4.0.0\u{3000}\n";
    for line in exotic.lines() {
        assert!(release_utils::git::tag_in_list(exotic, line.trim()));
    }
    assert!(release_utils::git::tag_in_list(exotic, "v3.0.0"));
    assert!(release_utils::git::tag_in_list(exotic, "v4.0.0"));
    assert!(!release_utils::git::tag_in_list(exotic, "\u{a0}v3.0.0"));
}

#[test]
fn string_helpers_compare_and_search() {
    assert!(str_lex_lt("a", "b"));
    assert!(str_lex_lt("a", "ab"));
    assert!(!str_lex_lt("b", "ab"));
    assert!(!str_lex_lt("a", "a"));
    assert!(str_has_prefix("https://x", "https://"));
    assert!(!str_has_prefix("http://x", "https://"));
    assert!(str_contains("git@github.com:u/r", "github"));
    assert!(!str_contains("git@gitlab.com:u/r", "github"));
}

#[test]
fn timestamp_parsing_accepts_whole_numerals_only() {
    assert_eq!(release_utils::git::parse_i64("1700000000"), Some(1700000000));
    assert_eq!(release_utils::git::parse_i64("-42"), Some(-42));
    assert_eq!(release_utils::git::parse_i64("+7"), Some(7));
    assert_eq!(release_utils::git::parse_i64("0"), Some(0));
    assert_eq!(
        release_utils::git::parse_i64("9223372036854775807"),
        Some(i64::MAX)
    );
    assert_eq!(
        release_utils::git::parse_i64("-9223372036854775808"),
        Some(i64::MIN)
    );
    assert_eq!(release_utils::git::parse_i64("9223372036854775808"), None);
    assert_eq!(release_utils::git::parse_i64(""), None);
    assert_eq!(release_utils::git::parse_i64("-"), None);
    assert_eq!(release_utils::git::parse_i64("12a"), None);
    assert_eq!(release_utils::git::parse_i64(" 12"), None);
}

#[test]
fn linux_user_scripts_embed_the_account() {
    let u = LinuxUser("svc".to_string());
    let add = u.bash_add();
    assert!(add.contains("getent passwd | grep svc"));
    assert!(add.contains("useradd -r svc;"));
    assert_eq!(u.bash_remove(), "userdel -r svc;".to_string());
}

#[test]
fn linux_group_scripts_embed_the_group() {
    let g = LinuxGroup("builders".to_string());
    let add = g.bash_add();
    assert!(add.contains("getent group | grep builders"));
    assert!(add.contains("groupadd -r builders;"));
    assert_eq!(g.bash_remove(), "groupdel builders;".to_string());
}

#[test]
fn systemd_unit_scripts_embed_the_unit() {
    let u = SystemdUnit("demo.service".to_string());
    assert_eq!(
        SystemdUnit::bash_reload_daemon(),
        "systemctl daemon-reload;".to_string()
    );
    let stop = u.bash_disable_and_stop();
    assert!(stop.contains("systemctl list-unit-files demo.service"));
    assert!(stop.contains("systemctl disable demo.service;"));
    assert!(stop.contains("systemctl stop demo.service;"));
    assert_eq!(
        u.bash_restart_if_active(),
        "systemctl is-active --quiet demo.service && systemctl restart demo.service;".to_string()
    );
}

#[test]
fn systemd_unit_from_path_takes_the_base_name() {
    let u = SystemdUnit::try_from_path("/etc/units/demo.timer").expect("has a base name");
    assert_eq!(u.0, "demo.timer".to_string());
    assert!(SystemdUnit::try_from_path("/").is_none());
}

#[test]
fn pre_uninstall_script_manages_timers_and_services_only() {
    let units = vec![
        SystemdUnit("a.service".to_string()),
        SystemdUnit("notes.txt".to_string()),
        SystemdUnit("b.timer".to_string()),
    ];
    let script = release_utils::package_rpm::rpm_pre_uninstall(&units);
    let a = SystemdUnit("a.service".to_string());
    let b = SystemdUnit("b.timer".to_string());
    let remove = format!(
        "\n{}\n{}",
        a.bash_disable_and_stop(),
        b.bash_disable_and_stop()
    );
    let restart = format!(
        "\n{}\n{}",
        a.bash_restart_if_active(),
        b.bash_restart_if_active()
    );
    let expected = format!(
        "\n        IS_UPGRADED=\"$1\"\n        case \"$IS_UPGRADED\" in\n           0) # This is a yum remove.\n              {}\n           ;;\n           1) # This is a yum upgrade.\n              {}\n              exit 0;\n           ;;\n         esac\n    ",
        remove, restart
    );
    assert_eq!(script, expected);
    assert!(!script.contains("notes.txt"));
}

#[test]
fn install_hooks_create_the_user_and_reload_the_daemon() {
    let with_user = release_utils::package_rpm::rpm_pre_install(&Some("svc".to_string()));
    assert!(with_user.contains("useradd -r svc;"));
    let without = release_utils::package_rpm::rpm_pre_install(&None);
    assert_eq!(without, "".to_string());
    assert_eq!(
        release_utils::package_rpm::rpm_post_install(),
        "systemctl daemon-reload;".to_string()
    );
    assert_eq!(
        release_utils::package_rpm::rpm_post_uninstall(),
        "systemctl daemon-reload;".to_string()
    );
}

#[test]
fn unit_files_install_under_the_systemd_directory() {
    let u = SystemdUnit("demo.service".to_string());
    assert_eq!(
        release_utils::package_rpm::unit_install_path(&u),
        "/etc/systemd/system/demo.service".to_string()
    );
}

#[test]
fn release_tags_split_on_the_last_dash() {
    let split = release_utils::gh_cli::split_release_tag("demo-tool-1.2.3");
    assert_eq!(split, Some(("demo-tool".to_string(), "1.2.3".to_string())));
    assert_eq!(
        release_utils::gh_cli::split_release_tag("a-b"),
        Some(("a".to_string(), "b".to_string()))
    );
    assert_eq!(release_utils::gh_cli::split_release_tag("nodash"), None);
    assert_eq!(
        release_utils::gh_cli::split_release_tag("-x"),
        Some(("".to_string(), "x".to_string()))
    );
}

#[test]
fn release_mode_default_is_normal() {
    let m = ReleaseMode::default();
    assert!(!m.is_draft());
    assert!(!m.is_prerelease());
    assert!(ReleaseMode::Draft.is_draft());
    assert!(ReleaseMode::Prerelease.is_prerelease());
}

#[test]
fn precommit_features_default_enables_everything() {
    let f = Features::default();
    assert!(f.cargo && f.taplo && f.gitleaks);
}
