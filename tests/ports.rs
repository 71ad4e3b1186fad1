use composegen::ports::{ports_of_app, resolve_port_conflicts, PortMapEntry, PortPriority};

fn req(app: &str, container: &str, port: u16, priority: PortPriority) -> PortMapEntry {
    PortMapEntry {
        app: app.to_owned(),
        internal_port: port,
        public_port: port,
        container: container.to_owned(),
        implements: None,
        priority,
    }
}

#[test]
fn basic() {
    let entries = vec![
        PortMapEntry {
            app: "app1".to_owned(),
            internal_port: 80,
            public_port: 80,
            container: "container1".to_owned(),
            implements: None,
            priority: PortPriority::Optional,
        },
        PortMapEntry {
            app: "app2".to_owned(),
            internal_port: 80,
            public_port: 80,
            container: "container2".to_owned(),
            implements: None,
            priority: PortPriority::Optional,
        },
        PortMapEntry {
            app: "app3".to_owned(),
            internal_port: 80,
            public_port: 80,
            container: "container3".to_owned(),
            implements: None,
            priority: PortPriority::Optional,
        },
    ];
    let (resolved, conflicts) = resolve_port_conflicts(entries, &[]);
    assert_eq!(
        resolved,
        vec![
            PortMapEntry {
                app: "app1".to_owned(),
                internal_port: 80,
                public_port: 81,
                container: "container1".to_owned(),
                implements: None,
                priority: PortPriority::Optional,
            },
            PortMapEntry {
                app: "app2".to_owned(),
                internal_port: 80,
                public_port: 82,
                container: "container2".to_owned(),
                implements: None,
                priority: PortPriority::Optional,
            },
            PortMapEntry {
                app: "app3".to_owned(),
                internal_port: 80,
                public_port: 83,
                container: "container3".to_owned(),
                implements: None,
                priority: PortPriority::Optional,
            },
        ]
    );
    assert!(conflicts.is_empty());
}

#[test]
pub fn unresolvable_conflicts_between_apps() {
    let entries = vec![
        PortMapEntry {
            app: "app1".to_owned(),
            internal_port: 81,
            public_port: 81,
            container: "container1".to_owned(),
            implements: None,
            priority: PortPriority::Required,
        },
        PortMapEntry {
            app: "app2".to_owned(),
            internal_port: 81,
            public_port: 81,
            container: "container2".to_owned(),
            implements: None,
            priority: PortPriority::Required,
        },
    ];
    let (resolved, conflicts) = resolve_port_conflicts(entries, &[]);
    assert_eq!(
        resolved,
        vec![PortMapEntry {
            app: "app1".to_owned(),
            internal_port: 81,
            public_port: 81,
            container: "container1".to_owned(),
            implements: None,
            priority: PortPriority::Required,
        }]
    );
    assert_eq!(conflicts, vec!["app2".to_owned()]);
}

#[test]
pub fn unresolvable_conflicts_between_apps_and_installed() {
    let entries = vec![
        PortMapEntry {
            app: "app1".to_owned(),
            internal_port: 81,
            public_port: 81,
            container: "container1".to_owned(),
            implements: None,
            priority: PortPriority::Required,
        },
        PortMapEntry {
            app: "app2".to_owned(),
            internal_port: 81,
            public_port: 81,
            container: "container2".to_owned(),
            implements: None,
            priority: PortPriority::Required,
        },
    ];
    let (resolved, conflicts) = resolve_port_conflicts(entries, &["app2".to_owned()]);
    assert_eq!(
        resolved,
        vec![PortMapEntry {
            app: "app2".to_owned(),
            internal_port: 81,
            public_port: 81,
            container: "container2".to_owned(),
            implements: None,
            priority: PortPriority::Required,
        }]
    );
    assert_eq!(conflicts, vec!["app1".to_owned()]);
}

#[test]
fn unresolvable_conflicts_with_reserved() {
    let entries = vec![
        PortMapEntry {
            app: "app1".to_owned(),
            internal_port: 80,
            public_port: 80,
            container: "container1".to_owned(),
            implements: None,
            priority: PortPriority::Required,
        },
        PortMapEntry {
            app: "app2".to_owned(),
            internal_port: 80,
            public_port: 80,
            container: "container2".to_owned(),
            implements: None,
            priority: PortPriority::Required,
        },
    ];
    let (resolved, conflicts) = resolve_port_conflicts(entries, &[]);
    assert!(resolved.is_empty());
    assert_eq!(conflicts, vec!["app1".to_owned(), "app2".to_owned()]);
}

#[test]
fn higher_priority_keeps_the_port() {
    let entries = vec![
        req("alpha", "web", 8080, PortPriority::Optional),
        req("beta", "web", 8080, PortPriority::Required),
    ];
    let (resolved, conflicts) = resolve_port_conflicts(entries, &[]);
    assert!(conflicts.is_empty());
    assert_eq!(
        resolved,
        vec![
            req("beta", "web", 8080, PortPriority::Required),
            PortMapEntry { public_port: 8081, ..req("alpha", "web", 8080, PortPriority::Optional) },
        ]
    );
}

#[test]
fn equal_priority_smaller_app_keeps_the_port() {
    let entries = vec![
        req("zeta", "web", 3000, PortPriority::Recommended),
        req("alpha", "web", 3000, PortPriority::Recommended),
    ];
    let (resolved, conflicts) = resolve_port_conflicts(entries, &[]);
    assert!(conflicts.is_empty());
    assert_eq!(resolved[0].app, "alpha");
    assert_eq!(resolved[0].public_port, 3000);
    assert_eq!(resolved[1].app, "zeta");
    assert_eq!(resolved[1].public_port, 3001);
}

#[test]
fn identical_requests_are_kept_once() {
    let entries = vec![
        req("alpha", "web", 3000, PortPriority::Optional),
        req("alpha", "web", 3000, PortPriority::Optional),
    ];
    let (resolved, conflicts) = resolve_port_conflicts(entries, &[]);
    assert!(conflicts.is_empty());
    assert_eq!(resolved, vec![req("alpha", "web", 3000, PortPriority::Optional)]);
}

#[test]
fn implementers_share_a_required_port() {
    let mut a = req("electrs", "main", 50001, PortPriority::Required);
    a.implements = Some("electrum".to_owned());
    let mut b = req("fulcrum", "main", 50001, PortPriority::Required);
    b.implements = Some("electrum".to_owned());
    let (resolved, conflicts) = resolve_port_conflicts(vec![b.clone(), a.clone()], &[]);
    assert!(conflicts.is_empty());
    assert_eq!(resolved, vec![a, b]);
}

#[test]
fn probing_skips_https_and_taken_ports() {
    let entries = vec![
        req("a", "web", 442, PortPriority::Required),
        req("b", "web", 442, PortPriority::Optional),
    ];
    let (resolved, conflicts) = resolve_port_conflicts(entries, &[]);
    assert!(conflicts.is_empty());
    assert_eq!(resolved[1].app, "b");
    assert_eq!(resolved[1].public_port, 444);
}

#[test]
fn no_two_rows_share_a_port() {
    let entries = vec![
        req("a", "x", 9000, PortPriority::Optional),
        req("b", "x", 9000, PortPriority::Recommended),
        req("c", "x", 9001, PortPriority::Optional),
        req("d", "x", 443, PortPriority::Optional),
        req("e", "x", 9000, PortPriority::Required),
    ];
    let (resolved, _) = resolve_port_conflicts(entries, &[]);
    for (i, r) in resolved.iter().enumerate() {
        assert!(r.public_port != 80 && r.public_port != 443);
        for s in &resolved[i + 1..] {
            assert_ne!(r.public_port, s.public_port);
        }
    }
    assert_eq!(resolved.len(), 5);
}

#[test]
fn rows_of_one_app() {
    let table = vec![
        req("a", "web", 3000, PortPriority::Optional),
        req("b", "web", 3001, PortPriority::Optional),
        req("a", "db", 5432, PortPriority::Required),
    ];
    let rows = ports_of_app(&table, "a");
    assert_eq!(rows, vec![table[0].clone(), table[2].clone()]);
}
