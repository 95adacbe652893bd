use portez::registry::{validate_name, Registry, RegistryError, DEFAULT_START};

/// Loads the registry saved as `text`, runs `f`, and saves it back into
/// `text` when it changed, as a locked edit of the file does.
fn edit<T>(
    text: &mut String,
    f: impl FnOnce(&mut Registry) -> Result<T, RegistryError>,
) -> Result<T, RegistryError> {
    let mut registry = Registry::load("ports.toml".to_string(), text)?;
    let out = f(&mut registry)?;
    if registry.is_dirty() {
        *text = registry.to_toml();
    }
    Ok(out)
}

fn load(text: &str) -> Result<Registry, RegistryError> {
    Registry::load("ports.toml".to_string(), text)
}

fn malformed_message(text: &str) -> String {
    match load(text) {
        Err(RegistryError::Malformed { path, message }) => {
            assert_eq!(path, "ports.toml");
            message
        }
        other => panic!("expected a malformed registry, got {other:?}"),
    }
}

#[test]
fn allocates_sequentially_and_is_idempotent() {
    let mut text = String::new();
    let first = edit(&mut text, |r| r.assign("/a", "main")).unwrap();
    let second = edit(&mut text, |r| r.assign("/b", "main")).unwrap();
    let again = edit(&mut text, |r| r.assign("/a", "main")).unwrap();
    assert_eq!(first, (4001, true));
    assert_eq!(second, (4002, true));
    assert_eq!(again, (4001, false));
}

#[test]
fn reuses_gaps_after_removal() {
    let mut text = String::new();
    edit(&mut text, |r| {
        r.assign("/a", "main")?;
        r.assign("/a", "debug")?;
        r.assign("/b", "main")
    })
    .unwrap();
    let removed = edit(&mut text, |r| r.remove("/a", Some("debug"))).unwrap();
    assert_eq!(removed.len(), 1);
    assert_eq!(removed[0].port, 4002);
    let fresh = edit(&mut text, |r| r.assign("/c", "main")).unwrap();
    assert_eq!(fresh, (4002, true));
}

#[test]
fn honours_settings_start_and_preserves_comments() {
    let mut text =
        "# keep me\n[settings]\nstart = 5000\n\n[ports.\"/x\"]\nmain = 5000 # taken\n".to_string();
    let port = edit(&mut text, |r| r.assign("/y", "main")).unwrap();
    assert_eq!(port, (5001, true));
    assert!(text.contains("# keep me"), "{text}");
    assert!(text.contains("main = 5000 # taken"), "{text}");
    assert!(text.contains("[ports.\"/y\"]\nmain = 5001"), "{text}");
}

#[test]
fn rejects_bad_names_and_duplicate_ports() {
    let mut text = String::new();
    let err = edit(&mut text, |r| r.assign("/a", "no spaces")).unwrap_err();
    assert!(matches!(err, RegistryError::InvalidName(_)));
    let text = "[ports.\"/a\"]\nmain = 4001\n[ports.\"/b\"]\nmain = 4001\n";
    let err = load(text).unwrap_err();
    assert!(matches!(err, RegistryError::Malformed { .. }), "{err:?}");
}

#[test]
fn remove_whole_dir_and_missing_entries() {
    let mut text = String::new();
    edit(&mut text, |r| {
        r.assign("/a", "main")?;
        r.assign("/a", "debug")
    })
    .unwrap();
    let removed = edit(&mut text, |r| r.remove("/a", None)).unwrap();
    assert_eq!(removed.len(), 2);
    let err = edit(&mut text, |r| r.remove("/a", None)).unwrap_err();
    assert!(matches!(err, RegistryError::NotRegistered { .. }));
    assert!(load(&text).unwrap().assignments().is_empty());
}

#[test]
fn empty_text_is_an_empty_registry() {
    let registry = load("").unwrap();
    assert!(registry.assignments().is_empty());
    assert_eq!(registry.start(), DEFAULT_START);
    assert_eq!(registry.path(), "ports.toml");
    assert!(!registry.is_dirty());
    assert_eq!(registry.lookup("/a", "main"), None);
}

#[test]
fn text_that_is_not_toml_is_a_parse_error() {
    match load("[ports\nmain = ") {
        Err(RegistryError::Parse { path, .. }) => assert_eq!(path, "ports.toml"),
        other => panic!("expected a parse error, got {other:?}"),
    }
}

#[test]
fn malformed_registries_name_the_first_fault() {
    assert_eq!(malformed_message("settings = 3\n"), "settings is not a table");
    assert_eq!(
        malformed_message("[settings]\nstart = 0\n"),
        "settings.start must be an integer 1..=65535"
    );
    assert_eq!(
        malformed_message("[settings]\nstart = 70000\n"),
        "settings.start must be an integer 1..=65535"
    );
    assert_eq!(
        malformed_message("[settings]\nstart = \"4001\"\n"),
        "settings.start must be an integer 1..=65535"
    );
    assert_eq!(malformed_message("ports = 1\n"), "ports is not a table");
    assert_eq!(
        malformed_message("[ports]\n\"/a\" = 4001\n"),
        "ports.\"/a\" is not a table"
    );
    assert_eq!(
        malformed_message("[ports.\"/a\"]\nmain = \"x\"\n"),
        "ports.\"/a\".main is not a port number"
    );
    assert_eq!(
        malformed_message("[ports.\"/a\"]\nmain = 0\n"),
        "ports.\"/a\".main is not a port number"
    );
    assert_eq!(
        malformed_message("[ports.\"/a\"]\nmain = 65536\n"),
        "ports.\"/a\".main is not a port number"
    );
    assert_eq!(
        malformed_message("[ports.\"/a\"]\nmain = 4001\n[ports.\"/b\"]\nweb = 4001\n"),
        "port 4001 is assigned more than once"
    );
    // the first fault in document order wins
    assert_eq!(
        malformed_message("[ports.\"/a\"]\nx = 1\ny = 1\nz = \"no\"\n"),
        "port 1 is assigned more than once"
    );
    // directories are quoted the way Rust prints strings
    assert_eq!(
        malformed_message("[ports]\n\"say \\\"hi\\\"\" = 2\n"),
        "ports.\"say \\\"hi\\\"\" is not a table"
    );
}

#[test]
fn settings_start_and_lookup_read_the_document() {
    let registry =
        load("[settings]\nstart = 8000\n[ports.\"/a\"]\nmain = 8000\nweb = 8003\n").unwrap();
    assert_eq!(registry.start(), 8000);
    assert_eq!(registry.lookup("/a", "main"), Some(8000));
    assert_eq!(registry.lookup("/a", "web"), Some(8003));
    assert_eq!(registry.lookup("/a", "other"), None);
    assert_eq!(registry.lookup("/b", "main"), None);
}

#[test]
fn inline_tables_count_as_tables() {
    let mut text = "ports = { \"/a\" = { main = 4001 } }\n".to_string();
    let registry = load(&text).unwrap();
    assert_eq!(registry.lookup("/a", "main"), Some(4001));
    let got = edit(&mut text, |r| r.assign("/a", "debug")).unwrap();
    assert_eq!(got, (4002, true));
    assert_eq!(load(&text).unwrap().lookup("/a", "debug"), Some(4002));
}

#[test]
fn assignments_are_ordered_by_port() {
    let registry = load(
        "[ports.\"/b\"]\nmain = 4003\n[ports.\"/a\"]\nmain = 4001\ndebug = 4002\n",
    )
    .unwrap();
    let rows = registry.assignments();
    let seen: Vec<(String, String, u16)> = rows
        .iter()
        .map(|a| (a.dir.clone(), a.name.clone(), a.port))
        .collect();
    assert_eq!(
        seen,
        vec![
            ("/a".to_string(), "main".to_string(), 4001),
            ("/a".to_string(), "debug".to_string(), 4002),
            ("/b".to_string(), "main".to_string(), 4003),
        ]
    );
}

#[test]
fn assign_takes_the_lowest_free_port_from_start() {
    let mut registry =
        load("[settings]\nstart = 100\n[ports.\"/x\"]\na = 100\nb = 102\n").unwrap();
    assert_eq!(registry.assign("/y", "main").unwrap(), (101, true));
    assert!(registry.is_dirty());
    assert_eq!(registry.assign("/y", "web").unwrap(), (103, true));
    assert_eq!(registry.assign("/y", "main").unwrap(), (101, false));
    assert_eq!(registry.lookup("/y", "web"), Some(103));
    assert_eq!(registry.lookup("/x", "b"), Some(102));
}

#[test]
fn exhausted_when_every_port_is_taken() {
    let mut registry =
        load("[settings]\nstart = 65535\n[ports.\"/x\"]\nlast = 65535\n").unwrap();
    match registry.assign("/y", "main") {
        Err(RegistryError::Exhausted { start }) => assert_eq!(start, 65535),
        other => panic!("expected exhaustion, got {other:?}"),
    }
    assert!(!registry.is_dirty());
}

#[test]
fn invalid_name_leaves_the_registry_alone() {
    let mut registry = load("").unwrap();
    match registry.assign("/a", "") {
        Err(RegistryError::InvalidName(name)) => assert_eq!(name, ""),
        other => panic!("expected an invalid name, got {other:?}"),
    }
    match registry.assign("/a", "é") {
        Err(RegistryError::InvalidName(name)) => assert_eq!(name, "é"),
        other => panic!("expected an invalid name, got {other:?}"),
    }
    assert!(!registry.is_dirty());
    assert!(registry.assignments().is_empty());
}

#[test]
fn names_are_letters_digits_dashes_and_underscores() {
    assert!(validate_name("main").is_ok());
    assert!(validate_name("Web-2_x").is_ok());
    assert!(validate_name("").is_err());
    assert!(validate_name("a b").is_err());
    assert!(validate_name("a.b").is_err());
    assert!(validate_name("ü").is_err());
}

#[test]
fn remove_one_name_keeps_the_rest_and_drops_empty_directories() {
    let mut text = String::new();
    edit(&mut text, |r| {
        r.assign("/a", "main")?;
        r.assign("/a", "debug")?;
        r.assign("/b", "main")
    })
    .unwrap();
    let removed = edit(&mut text, |r| r.remove("/b", Some("main"))).unwrap();
    assert_eq!(removed.len(), 1);
    assert_eq!((removed[0].dir.as_str(), removed[0].name.as_str(), removed[0].port), ("/b", "main", 4003));
    assert!(!text.contains("/b"), "{text}");
    let registry = load(&text).unwrap();
    assert_eq!(registry.lookup("/a", "main"), Some(4001));
    assert_eq!(registry.lookup("/a", "debug"), Some(4002));
    match edit(&mut text, |r| r.remove("/a", Some("web"))) {
        Err(RegistryError::NotRegistered { dir, name }) => {
            assert_eq!(dir, "/a");
            assert_eq!(name, "web");
        }
        other => panic!("expected nothing to remove, got {other:?}"),
    }
    match edit(&mut text, |r| r.remove("/c", None)) {
        Err(RegistryError::NotRegistered { dir, name }) => {
            assert_eq!(dir, "/c");
            assert_eq!(name, "*");
        }
        other => panic!("expected nothing to remove, got {other:?}"),
    }
}

#[test]
fn removed_rows_come_ordered_by_port() {
    let mut registry =
        load("[ports.\"/a\"]\nz = 4005\ny = 4002\nx = 4009\n[ports.\"/b\"]\nmain = 4001\n").unwrap();
    let removed = registry.remove("/a", None).unwrap();
    let ports: Vec<u16> = removed.iter().map(|a| a.port).collect();
    assert_eq!(ports, vec![4002, 4005, 4009]);
    assert!(registry.is_dirty());
    assert_eq!(registry.lookup("/a", "z"), None);
    assert_eq!(registry.lookup("/b", "main"), Some(4001));
    assert!(!registry.to_toml().contains("/a"));
}

#[test]
fn default_path_prefers_the_override_then_xdg_then_home() {
    assert_eq!(
        Registry::default_path(Some("/etc/p.toml"), Some("/xdg"), Some("/home/me")).unwrap(),
        "/etc/p.toml"
    );
    assert_eq!(
        Registry::default_path(Some(""), Some("/xdg"), Some("/home/me")).unwrap(),
        "/xdg/portez/ports.toml"
    );
    assert_eq!(
        Registry::default_path(None, Some("/xdg/"), None).unwrap(),
        "/xdg/portez/ports.toml"
    );
    assert_eq!(
        Registry::default_path(None, Some(""), Some("/home/me")).unwrap(),
        "/home/me/.config/portez/ports.toml"
    );
    assert!(matches!(
        Registry::default_path(None, None, None),
        Err(RegistryError::NoPath)
    ));
}

#[test]
fn removal_leaves_the_old_listing_minus_the_removed_rows() {
    let mut text = String::new();
    edit(&mut text, |r| {
        r.assign("/a", "main")?;
        r.assign("/b", "main")?;
        r.assign("/a", "debug")?;
        r.assign("/c", "main")
    })
    .unwrap();
    let before = load(&text).unwrap().assignments();
    let removed = edit(&mut text, |r| r.remove("/a", None)).unwrap();
    let after = load(&text).unwrap().assignments();
    let kept: Vec<_> = before.iter().filter(|a| a.dir != "/a").cloned().collect();
    let named: Vec<_> = before.iter().filter(|a| a.dir == "/a").cloned().collect();
    assert_eq!(after, kept);
    assert_eq!(removed, named);
    assert_eq!(after.iter().map(|a| a.port).collect::<Vec<_>>(), vec![4002, 4004]);
}
