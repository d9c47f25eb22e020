use ipbridge::cli::{
    config_candidates, home_config_dir, xdg_config_dir, Cli, Command, Surroundings, DEFAULT_CONFIG_NAME,
};

fn surroundings(xdg: Option<&str>, home: Option<&str>, existing: &[&str]) -> Surroundings {
    Surroundings {
        xdg_config_home: xdg.map(|s| s.to_string()),
        home: home.map(|s| s.to_string()),
        existing: existing.iter().map(|s| s.to_string()).collect(),
    }
}

#[test]
fn config_path_with_option() {
    let c = Cli {
        command: None,
        config: Some("foo.toml".to_string()),
    };
    assert_eq!(c.config_path(), "foo.toml");
}

#[test]
fn config_path_default() {
    let c = Cli {
        command: None,
        config: None,
    };
    assert_eq!(c.config_path(), DEFAULT_CONFIG_NAME);
    assert_eq!(DEFAULT_CONFIG_NAME, "config.toml");
}

#[test]
fn resolve_config_path_with_option() {
    let c = Cli {
        command: None,
        config: Some("foo.toml".to_string()),
    };
    assert_eq!(
        c.resolve_config_path(&surroundings(None, None, &[])),
        Some("foo.toml".to_string()),
        "explicit --config must win even if the file is missing"
    );
    assert_eq!(
        c.resolve_config_path(&surroundings(None, None, &["config.toml"])),
        Some("foo.toml".to_string()),
        "explicit --config must win over a config in the current directory"
    );
}

#[test]
fn resolve_config_path_search_order() {
    let c = Cli {
        command: None,
        config: None,
    };
    let xdg_file = "/ipbridge_test_resolve/xdg/ipbridge/config.toml";
    let home_file = "/ipbridge_test_resolve/home/.config/ipbridge/config.toml";
    let xdg = Some("/ipbridge_test_resolve/xdg");
    let home = Some("/ipbridge_test_resolve/home");

    assert_eq!(
        c.resolve_config_path(&surroundings(xdg, None, &[home_file, xdg_file])),
        Some(xdg_file.to_string()),
        "should fall back to XDG_CONFIG_HOME when CWD has no config"
    );
    assert_eq!(
        c.resolve_config_path(&surroundings(xdg, None, &[xdg_file, DEFAULT_CONFIG_NAME])),
        Some(DEFAULT_CONFIG_NAME.to_string()),
        "CWD config must win over XDG"
    );
    assert_eq!(
        c.resolve_config_path(&surroundings(None, home, &[home_file, xdg_file])),
        Some(home_file.to_string()),
        "should fall back to HOME/.config when XDG_CONFIG_HOME is unset"
    );
    assert_eq!(
        c.resolve_config_path(&surroundings(None, None, &[home_file, xdg_file])),
        None,
        "should be None when no config exists anywhere"
    );
}

#[test]
fn home_is_searched_after_xdg() {
    let c = Cli {
        command: Some(Command::Run),
        config: None,
    };
    let at_home = "/h/.config/ipbridge/config.toml";
    let at_xdg = "/x/ipbridge/config.toml";
    let found = |existing: &[&str]| {
        c.resolve_config_path(&surroundings(Some("/x"), Some("/h"), existing))
    };
    assert_eq!(found(&[at_home]), Some(at_home.to_string()));
    assert_eq!(found(&[at_home, at_xdg]), Some(at_xdg.to_string()));
    assert_eq!(
        found(&[at_home, at_xdg, "config.toml"]),
        Some("config.toml".to_string())
    );
    assert_eq!(found(&[]), None);
    assert_eq!(
        config_candidates(&surroundings(Some("/x"), Some("/h"), &[])),
        vec![
            "config.toml".to_string(),
            at_xdg.to_string(),
            at_home.to_string()
        ]
    );
}

#[test]
fn empty_variables_count_as_unset() {
    let empty = surroundings(Some(""), Some(""), &[]);
    assert_eq!(xdg_config_dir(&empty), None);
    assert_eq!(home_config_dir(&empty), None);
    assert_eq!(config_candidates(&empty), vec!["config.toml".to_string()]);
    let unset = surroundings(None, None, &[]);
    assert_eq!(xdg_config_dir(&unset), None);
    assert_eq!(home_config_dir(&unset), None);
    let set = surroundings(Some("/x"), Some("/h"), &[]);
    assert_eq!(xdg_config_dir(&set), Some("/x".to_string()));
    assert_eq!(home_config_dir(&set), Some("/h/.config".to_string()));
}

#[test]
fn a_slash_is_not_doubled() {
    assert_eq!(
        home_config_dir(&surroundings(None, Some("/"), &[])),
        Some("/.config".to_string())
    );
    assert_eq!(
        config_candidates(&surroundings(Some("/x/"), None, &[])),
        vec!["config.toml".to_string(), "/x/ipbridge/config.toml".to_string()]
    );
    assert_eq!(
        config_candidates(&surroundings(None, Some("/h/"), &[])),
        vec![
            "config.toml".to_string(),
            "/h/.config/ipbridge/config.toml".to_string()
        ]
    );
}
