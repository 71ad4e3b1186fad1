use composegen::deps::{sort_deps, Node};
use composegen::install::processing_order;

fn node(id: &str, deps: &[&str]) -> Node {
    Node {
        id: id.to_string(),
        dependencies: deps.iter().map(|d| d.to_string()).collect(),
    }
}

#[test]
fn test_sort_deps() {
    let nodes = vec![
        Node {
            id: "a".to_string(),
            dependencies: vec!["b".to_string(), "c".to_string()],
        },
        Node {
            id: "b".to_string(),
            dependencies: vec!["c".to_string()],
        },
        Node {
            id: "c".to_string(),
            dependencies: vec![],
        },
    ];

    let sorted = sort_deps(nodes);
    assert_eq!(sorted, vec!["c", "b", "a"]);
}

#[test]
fn test_sort_deps_with_circular_deps() {
    let nodes = vec![
        Node {
            id: "a".to_string(),
            dependencies: vec!["b".to_string(), "c".to_string()],
        },
        Node {
            id: "b".to_string(),
            dependencies: vec!["c".to_string()],
        },
        Node {
            id: "c".to_string(),
            dependencies: vec!["a".to_string()],
        },
        Node {
            id: "d".to_string(),
            dependencies: vec!["e".to_string(), "f".to_string()],
        },
        Node {
            id: "e".to_string(),
            dependencies: vec!["f".to_string()],
        },
        Node {
            id: "f".to_string(),
            dependencies: vec![],
        },
        Node {
            id: "g".to_string(),
            dependencies: vec!["g".to_string()],
        },
    ];

    let sorted = sort_deps(nodes);
    assert_eq!(sorted, vec!["f", "e", "d"]);
}

#[test]
fn sort_deps_ignores_input_order() {
    let a = vec![node("a", &["b", "c"]), node("b", &["c"]), node("c", &[])];
    let b = vec![node("c", &[]), node("a", &["b", "c"]), node("b", &["c"])];
    let c = vec![node("b", &["c"]), node("c", &[]), node("a", &["b", "c"])];
    let expected = vec!["c".to_string(), "b".to_string(), "a".to_string()];
    assert_eq!(sort_deps(a), expected);
    assert_eq!(sort_deps(b), expected);
    assert_eq!(sort_deps(c), expected);
}

#[test]
fn sort_deps_puts_dependencies_first() {
    let nodes = vec![
        node("web", &["db", "cache"]),
        node("cache", &[]),
        node("db", &["disk"]),
        node("disk", &[]),
        node("worker", &["web"]),
    ];
    let sorted = sort_deps(nodes);
    assert_eq!(sorted, vec!["cache", "disk", "db", "web", "worker"]);
}

#[test]
fn sort_deps_of_nothing_is_empty() {
    assert!(sort_deps(vec![]).is_empty());
}

#[test]
fn sort_deps_drops_unknown_dependencies() {
    let nodes = vec![node("a", &["missing"]), node("b", &[])];
    assert_eq!(sort_deps(nodes), vec!["b"]);
}

#[test]
fn processing_order_needs_installed_dependencies() {
    let apps = vec![
        ("lnd".to_string(), vec!["bitcoin/rpc".to_string()]),
        ("bitcoin".to_string(), vec![]),
        ("wallet".to_string(), vec!["electrs".to_string()]),
    ];
    let installed = vec!["bitcoin".to_string()];
    assert_eq!(processing_order(apps, &installed), vec!["bitcoin", "lnd"]);
}

#[test]
fn sort_deps_ignores_dependency_list_order() {
    let a = vec![node("a", &["b", "c"]), node("b", &["c"]), node("c", &[])];
    let b = vec![node("a", &["c", "b"]), node("b", &["c"]), node("c", &[])];
    assert_eq!(sort_deps(a), sort_deps(b));
}
