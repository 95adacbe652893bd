use portez::registry::{tree_lookup, tree_next_free, tree_start, validate, Registry, RegistryError};
use portez::tree::Node;

fn table(entries: Vec<(&str, Node)>) -> Node {
    Node::Table(entries.into_iter().map(|(k, v)| (k.to_string(), v)).collect())
}

fn registry(start: Option<i64>, dirs: Vec<(&str, Vec<(&str, i64)>)>) -> Node {
    let mut root = Vec::new();
    if let Some(s) = start {
        root.push(("settings", table(vec![("start", Node::Integer(s))])));
    }
    let ports = dirs
        .into_iter()
        .map(|(d, names)| {
            (
                d,
                table(names.into_iter().map(|(n, p)| (n, Node::Integer(p))).collect()),
            )
        })
        .collect();
    root.push(("ports", table(ports)));
    table(root)
}

#[test]
fn tree_lookup_and_start() {
    let t = registry(Some(7000), vec![("/a", vec![("main", 7000), ("web", 7002)])]);
    assert_eq!(tree_start(&t), 7000);
    assert_eq!(tree_lookup(&t, "/a", "web"), Some(7002));
    assert_eq!(tree_lookup(&t, "/a", "api"), None);
    assert_eq!(tree_lookup(&t, "/b", "web"), None);
    assert_eq!(tree_start(&table(vec![])), 4001);
    // a start that is not a port falls back to the default
    assert_eq!(tree_start(&registry(Some(-5), vec![])), 4001);
    // an integer out of port range reads as no port
    let big = registry(None, vec![("/a", vec![("main", 70000)])]);
    assert_eq!(tree_lookup(&big, "/a", "main"), None);
}

#[test]
fn tree_validation_messages() {
    assert!(validate(&registry(Some(1), vec![("/a", vec![("main", 1)])])).is_ok());
    assert_eq!(
        validate(&table(vec![("settings", Node::Other)])).unwrap_err(),
        "settings is not a table"
    );
    assert_eq!(
        validate(&table(vec![("ports", table(vec![("/a", Node::Integer(3))]))])).unwrap_err(),
        "ports.\"/a\" is not a table"
    );
    assert_eq!(
        validate(&registry(None, vec![("/a", vec![("x", 5)]), ("/b", vec![("y", 5)])]))
            .unwrap_err(),
        "port 5 is assigned more than once"
    );
    assert_eq!(
        validate(&table(vec![("ports", Node::Other)])).unwrap_err(),
        "ports is not a table"
    );
}

#[test]
fn tree_listing_and_next_free() {
    let t = registry(
        Some(10),
        vec![("/b", vec![("main", 12)]), ("/a", vec![("x", 10), ("y", 11)])],
    );
    let text = "[settings]\nstart = 10\n[ports.\"/b\"]\nmain = 12\n[ports.\"/a\"]\nx = 10\ny = 11\n";
    let rows = Registry::load("ports.toml".to_string(), text).unwrap().assignments();
    let ports: Vec<u16> = rows.iter().map(|a| a.port).collect();
    assert_eq!(ports, vec![10, 11, 12]);
    assert_eq!(rows[0].dir, "/a");
    assert_eq!(rows[0].name, "x");
    assert_eq!(tree_next_free(&t).unwrap(), 13);
    let full = registry(Some(65534), vec![("/a", vec![("x", 65534), ("y", 65535)])]);
    assert!(matches!(
        tree_next_free(&full),
        Err(RegistryError::Exhausted { start: 65534 })
    ));
}
