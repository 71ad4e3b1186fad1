use composegen::permissions::{
    find_permission_that_matches, grant_string, resolve_variables, AppPermissions, Exposure, Permission, VarValue,
};

fn perm(id: &str, includes: &[&str], vars: &[(&str, &str)], files: &[&str]) -> Permission {
    Permission {
        id: id.to_string(),
        name: id.to_string(),
        description: String::new(),
        includes: includes.iter().map(|s| s.to_string()).collect(),
        variables: vars
            .iter()
            .map(|(k, v)| (k.to_string(), VarValue::Text(v.to_string())))
            .collect(),
        files: files.iter().map(|s| s.to_string()).collect(),
        hidden: false,
    }
}

fn var_need(name: &str) -> Exposure {
    Exposure::Variable(name.to_string())
}

#[test]
fn no_candidate_gives_none() {
    let perms = vec![perm("rpc", &[], &[("APP_BTC_RPC", "secret")], &[])];
    assert_eq!(find_permission_that_matches("btc", &perms, &[], &var_need("APP_BTC_RPC")), None);
}

#[test]
fn single_candidate_wins() {
    let perms = vec![
        perm("a", &["x", "y"], &[], &[]),
        perm("b", &["x", "y", "z"], &[("APP_BTC_RPC", "$APP_BTC_RPC")], &[]),
    ];
    assert_eq!(find_permission_that_matches("btc", &perms, &[], &var_need("APP_BTC_RPC")), Some(1));
}

#[test]
fn granted_candidate_wins_in_any_order() {
    let p1 = perm("full", &[], &[("APP_BTC_RPC", "${APP_BTC_RPC}")], &[]);
    let p2 = perm("rpc", &["a", "b"], &[("APP_BTC_RPC", "$APP_BTC_RPC")], &[]);
    let current = vec!["btc/rpc".to_string()];
    let perms = vec![perm("x", &[], &[], &[]), p1, p2];
    assert_eq!(find_permission_that_matches("btc", &perms, &current, &var_need("APP_BTC_RPC")), Some(2));
    let p1 = perm("full", &[], &[("APP_BTC_RPC", "${APP_BTC_RPC}")], &[]);
    let p2 = perm("rpc", &["a", "b"], &[("APP_BTC_RPC", "$APP_BTC_RPC")], &[]);
    let reversed = vec![p2, p1];
    assert_eq!(find_permission_that_matches("btc", &reversed, &current, &var_need("APP_BTC_RPC")), Some(0));
}

#[test]
fn fewest_inclusions_then_smallest_id_win() {
    let perms = vec![
        perm("zz", &["a"], &[], &["blocks"]),
        perm("mm", &[], &[], &["blocks"]),
        perm("aa", &[], &[], &["blocks"]),
    ];
    assert_eq!(
        find_permission_that_matches("btc", &perms, &[], &Exposure::File("blocks".to_string())),
        Some(2)
    );
}

#[test]
fn variable_must_refer_to_itself() {
    let perms = vec![perm("p", &[], &[("APP_X_Y", "literal")], &[])];
    assert_eq!(find_permission_that_matches("x", &perms, &[], &var_need("APP_X_Y")), None);
}

#[test]
fn grant_strings_are_scoped() {
    assert_eq!(grant_string("bitcoin", "rpc"), "bitcoin/rpc");
}

fn keys(vars: &[(String, VarValue)]) -> Vec<String> {
    vars.iter().map(|(k, _)| k.clone()).collect()
}

#[test]
fn resolves_whole_app_and_scoped_grants() {
    let available = vec![
        AppPermissions {
            app: "bitcoin".to_string(),
            permissions: vec![
                perm("rpc", &["p2p"], &[("RPC_USER", "u")], &[]),
                perm("p2p", &["rpc"], &[("P2P_PORT", "8333")], &[]),
                perm("admin", &[], &[("ADMIN", "a")], &[]),
            ],
        },
        AppPermissions {
            app: "lnd".to_string(),
            permissions: vec![perm("macaroon", &[], &[("MACAROON", "m"), ("RPC_USER", "other")], &[])],
        },
    ];
    let grants = vec!["bitcoin/rpc".to_string(), "lnd".to_string()];
    let vars = resolve_variables(&grants, &available);
    assert_eq!(keys(&vars), vec!["RPC_USER", "P2P_PORT", "MACAROON"]);
    match &vars[0].1 {
        VarValue::Text(t) => assert_eq!(t, "u"),
        VarValue::Json(_) => panic!("expected text"),
    }
}

#[test]
fn nothing_granted_resolves_nothing() {
    let available = vec![AppPermissions {
        app: "bitcoin".to_string(),
        permissions: vec![perm("rpc", &[], &[("RPC_USER", "u")], &[])],
    }];
    assert!(resolve_variables(&[], &available).is_empty());
}

#[test]
fn transitive_inclusions_count() {
    let perms = vec![
        perm("a", &["c"], &[], &["f"]),
        perm("b", &["d", "e"], &[], &["f"]),
        perm("c", &["d", "e"], &[], &[]),
        perm("d", &[], &[], &[]),
        perm("e", &[], &[], &[]),
    ];
    assert_eq!(
        find_permission_that_matches("x", &perms, &[], &Exposure::File("f".to_string())),
        Some(1)
    );
}
