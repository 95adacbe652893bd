use portez::cli::{
    existing_port, port_name, registered_notice, removed_notice, render_table, rm_target, Cli,
    Context,
};
use portez::registry::{Assignment, Registry, RegistryError};
use serde_json::Value;

fn row(dir: &str, name: &str, port: u16) -> Assignment {
    Assignment { dir: dir.to_string(), name: name.to_string(), port }
}

fn cli(registry: Option<&str>, dir: Option<&str>, quiet: bool) -> Cli {
    Cli {
        dir: dir.map(str::to_string),
        registry: registry.map(str::to_string),
        quiet,
        command: None,
    }
}

#[test]
fn list_table_pads_columns() {
    let rows = vec![row("/b", "main", 4001), row("/a", "debug", 4002), row("/a", "main", 4003)];
    assert_eq!(
        render_table(&rows),
        "PORT   NAME   DIR\n4001   main   /b\n4002   debug  /a\n4003   main   /a\n"
    );
    let short = vec![row("/x", "a", 80)];
    assert_eq!(render_table(&short), "PORT   NAME  DIR\n80     a     /x\n");
}

#[test]
fn notices_name_the_port_and_directory() {
    assert_eq!(
        registered_notice("main", 4001, "/a"),
        "portez: registered main → 4001 for /a"
    );
    assert_eq!(
        removed_notice(&row("/a", "debug", 4002)),
        "portez: removed debug → 4002 for /a"
    );
}

#[test]
fn names_default_to_main() {
    assert_eq!(port_name(None), "main");
    assert_eq!(port_name(Some("web")), "web");
    assert_eq!(rm_target(false, None), Some("main"));
    assert_eq!(rm_target(false, Some("debug")), Some("debug"));
    assert_eq!(rm_target(true, None), None);
}

#[test]
fn existing_lookup_does_not_register() {
    let registry = Registry::load("p.toml".to_string(), "[ports.\"/a\"]\nmain = 4001\n").unwrap();
    assert_eq!(existing_port(&registry, "/a", "main").unwrap(), 4001);
    match existing_port(&registry, "/a", "web") {
        Err(RegistryError::NotRegistered { dir, name }) => {
            assert_eq!(dir, "/a");
            assert_eq!(name, "web");
        }
        other => panic!("expected nothing registered, got {other:?}"),
    }
    assert!(!registry.is_dirty());
}

#[test]
fn context_prefers_the_given_registry() {
    let given = Context::new(&cli(Some("/tmp/x.toml"), Some("/src"), true), Err(RegistryError::NoPath))
        .unwrap();
    assert_eq!(given.registry, "/tmp/x.toml");
    assert_eq!(given.dir.as_deref(), Some("/src"));
    assert!(given.quiet);
    let default = Context::new(&cli(None, None, false), Ok("/home/me/.config/portez/ports.toml".to_string()))
        .unwrap();
    assert_eq!(default.registry, "/home/me/.config/portez/ports.toml");
    assert_eq!(default.dir, None);
    assert!(!default.quiet);
    assert!(matches!(
        Context::new(&cli(None, None, false), Err(RegistryError::NoPath)),
        Err(RegistryError::NoPath)
    ));
}

/// The rows of `list --json`: an array of `{dir, name, port}` objects.
fn json_rows(rows: &[Assignment]) -> String {
    let items: Vec<Value> = rows
        .iter()
        .map(|r| {
            let mut m = serde_json::Map::new();
            m.insert("dir".to_string(), Value::from(r.dir.clone()));
            m.insert("name".to_string(), Value::from(r.name.clone()));
            m.insert("port".to_string(), Value::from(r.port));
            Value::Object(m)
        })
        .collect();
    serde_json::to_string_pretty(&Value::Array(items)).unwrap()
}

#[test]
fn list_and_ls_show_assignments_sorted_by_port() {
    let (a, b) = ("/tmp/fx/a", "/tmp/fx/b");
    let mut registry = Registry::load("ports.toml".to_string(), "").unwrap();
    registry.assign(b, "main").unwrap();
    registry.assign(a, "debug").unwrap();
    registry.assign(a, "main").unwrap();
    let registry = Registry::load("ports.toml".to_string(), &registry.to_toml()).unwrap();

    let expected =
        format!("PORT   NAME   DIR\n4001   main   {b}\n4002   debug  {a}\n4003   main   {a}\n");
    let rows = registry.assignments();
    assert_eq!(render_table(&rows), expected);
    assert_eq!(render_table(&registry.assignments()), expected);

    let json: Value = serde_json::from_str(&json_rows(&rows)).unwrap();
    assert_eq!(json[0]["port"], 4001);
    assert_eq!(json[0]["dir"], b);
    assert_eq!(json[2]["name"], "main");
}
