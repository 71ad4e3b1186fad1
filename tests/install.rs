use composegen::install::{install_state, merge_registry, permission_additions, permission_strings, register_exported};
use composegen::manifest::OutputMetadata;
use composegen::permissions::{AppPermissions, Permission};

fn record(id: &str, perms: &[&str]) -> OutputMetadata {
    OutputMetadata {
        id: id.to_string(),
        name: id.to_string(),
        version: "1".to_string(),
        category: String::new(),
        tagline: String::new(),
        developers: vec![],
        description: String::new(),
        dependencies: vec![],
        has_permissions: perms.iter().map(|p| p.to_string()).collect(),
        repo: vec![],
        support: String::new(),
        gallery: None,
        path: None,
        default_username: None,
        default_password: None,
        tor_only: false,
        update_containers: None,
        implements: None,
        version_control: None,
        compatible: true,
        port: 0,
        internal_port: 0,
        release_notes: vec![],
        supports_https: false,
    }
}

#[test]
fn registry_merge_replaces_regenerated_apps() {
    let current = vec![record("a", &[]), record("b", &["x"]), record("c", &[])];
    let new_entries = vec![record("b", &["y"]), record("d", &[])];
    let merged = merge_registry(current, new_entries);
    let ids: Vec<&str> = merged.iter().map(|r| r.id.as_str()).collect();
    assert_eq!(ids, vec!["a", "c", "b", "d"]);
    assert_eq!(merged[2].has_permissions, vec!["y"]);
}

#[test]
fn additions_of_other_apps() {
    let before = vec![record("a", &["x"]), record("b", &["y"]), record("c", &[])];
    let after = vec![record("a", &["x", "new/p", "z"]), record("b", &["y"]), record("e", &[])];
    let adds = permission_additions(&before, &after);
    assert_eq!(adds.len(), 1);
    assert_eq!(adds[0].0, "a");
    assert_eq!(adds[0].1, vec!["new/p", "z"]);
}

#[test]
fn install_state_of_a_trial() {
    let before = vec![record("a", &["x"])];
    let after = vec![record("a", &["x", "cand"]), record("cand", &["a/p"])];
    let ok = install_state("cand", &before, &after);
    assert!(ok.success);
    assert_eq!(ok.has_permissions, vec!["a/p"]);
    assert_eq!(ok.other_app_permission_additions, vec![("a".to_string(), vec!["cand".to_string()])]);
    let failed = install_state("missing", &before, &after);
    assert!(!failed.success);
    assert!(failed.has_permissions.is_empty());
    assert!(failed.other_app_permission_additions.is_empty());
}

#[test]
fn grantable_permission_strings() {
    let available = vec![AppPermissions {
        app: "bitcoin".to_string(),
        permissions: vec![Permission {
            id: "rpc".to_string(),
            name: "RPC".to_string(),
            description: String::new(),
            includes: vec![],
            variables: vec![],
            files: vec![],
            hidden: false,
        }],
    }];
    assert_eq!(permission_strings(&available), vec!["bitcoin/rpc", "bitcoin"]);
}

#[test]
fn additions_report_each_app_once() {
    let before = vec![record("a", &["x"]), record("a", &["y"]), record("b", &["z"])];
    let after = vec![record("a", &["x", "w"]), record("b", &["z"])];
    let adds = permission_additions(&before, &after);
    assert_eq!(adds, vec![("a".to_string(), vec!["w".to_string()])]);
}

#[test]
fn exported_permissions_replace_and_alias() {
    let perm = |id: &str| Permission {
        id: id.to_string(),
        name: id.to_string(),
        description: String::new(),
        includes: vec![],
        variables: vec![],
        files: vec![],
        hidden: false,
    };
    let mut available = vec![
        AppPermissions { app: "lnd".to_string(), permissions: vec![perm("old")] },
        AppPermissions { app: "bitcoin".to_string(), permissions: vec![] },
        AppPermissions { app: "lightning".to_string(), permissions: vec![] },
    ];
    register_exported(&mut available, "lnd", vec![perm("rpc")], true, Some("lightning".to_string()));
    let apps: Vec<&str> = available.iter().map(|a| a.app.as_str()).collect();
    assert_eq!(apps, vec!["bitcoin", "lightning", "lnd"]);
    assert_eq!(available[1].permissions[0].id, "rpc");
    assert_eq!(available[2].permissions[0].id, "rpc");
    register_exported(&mut available, "electrs", vec![], false, Some("electrum".to_string()));
    let apps: Vec<&str> = available.iter().map(|a| a.app.as_str()).collect();
    assert_eq!(apps, vec!["bitcoin", "lightning", "lnd", "electrs"]);
}
