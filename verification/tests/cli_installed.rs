use vhrn::cli::installed::{
    add_installed, installed_registry_path, installed_version, read_installed, remove_installed,
    vhrn_config_dir, write_installed, xdg_config_root, InstalledHarness,
};

fn harness(name: &str, version: &str) -> InstalledHarness {
    InstalledHarness { name: name.to_string(), version: version.to_string() }
}

#[test]
fn xdg_config_root_defaults_and_honors_override() {
    let home = "/home/dev";
    assert_eq!(xdg_config_root(home, None), "/home/dev/.config");
    assert_eq!(xdg_config_root(home, Some("/xdg")), "/xdg");
    assert_eq!(xdg_config_root(home, Some("")), "/home/dev/.config");
}

#[test]
fn the_registry_lies_in_the_config_directory() {
    assert_eq!(vhrn_config_dir("/home/dev", None), "/home/dev/.config/vhrn");
    assert_eq!(vhrn_config_dir("/home/dev", Some("/xdg")), "/xdg/vhrn");
    assert_eq!(installed_registry_path("/xdg/vhrn"), "/xdg/vhrn/installed");
}

#[test]
fn installed_registry_add_update_remove() {
    assert!(read_installed(None).is_empty());
    assert!(installed_version(None, "aider").is_none());

    let first = add_installed(None, "aider", "v0.2.0");
    let second = add_installed(Some(&first), "codex", "latest");
    let third = add_installed(Some(&second), "aider", "v0.3.0");

    assert_eq!(
        read_installed(Some(&third)),
        vec![harness("aider", "v0.3.0"), harness("codex", "latest")]
    );
    assert_eq!(installed_version(Some(&third), "aider").as_deref(), Some("v0.3.0"));

    let fourth = remove_installed(Some(&third), "aider");
    assert_eq!(read_installed(Some(&fourth)), vec![harness("codex", "latest")]);
}

#[test]
fn read_installed_bare_name_defaults_latest() {
    assert_eq!(installed_version(Some("aider\n"), "aider").as_deref(), Some("latest"));
}

#[test]
fn a_registry_is_written_sorted_and_reads_back() {
    let text = write_installed(&[harness("codex", "latest"), harness("aider", "1.2.3")]);
    let header = "# vhrn installed harnesses \u{2014} managed by `vhrn install`/`uninstall`.\n";
    assert_eq!(text, format!("{header}aider 1.2.3\ncodex latest\n"));
    assert_eq!(
        read_installed(Some(&text)),
        vec![harness("aider", "1.2.3"), harness("codex", "latest")]
    );
    assert_eq!(write_installed(&[]), header);
}

#[test]
fn a_later_line_wins_and_blank_lines_are_skipped() {
    let text = "\n  codex 1.0.0\r\ncodex 2.0.0 extra\n\n";
    assert_eq!(read_installed(Some(text)), vec![harness("codex", "2.0.0")]);
}
