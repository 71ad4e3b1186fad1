use composegen::env_vars::find_env_vars;
use composegen::manifest::Command;
use composegen::is_false;

#[test]
fn finds_bare_and_braced_references() {
    assert_eq!(find_env_vars("echo $HOME and ${USER}"), vec!["HOME", "USER"]);
}

#[test]
fn braced_reference_with_default_is_scanned_too() {
    assert_eq!(find_env_vars("${APP_X:-$FALLBACK}"), vec!["APP_X", "FALLBACK"]);
    assert_eq!(find_env_vars("${A-${B}}"), vec!["A"]);
    assert_eq!(find_env_vars("${PORT:8080}"), vec!["PORT"]);
}

#[test]
fn dollar_without_name_is_not_a_reference() {
    assert!(find_env_vars("costs $5 or $0 or $ alone").contains(&"5".to_string()));
    assert_eq!(find_env_vars("price $ and $-x"), Vec::<String>::new());
    assert_eq!(find_env_vars("${unclosed"), Vec::<String>::new());
}

#[test]
fn braces_do_not_cross_lines() {
    assert_eq!(find_env_vars("${A\n}$B"), vec!["B"]);
}

#[test]
fn empty_text_has_no_references() {
    assert!(find_env_vars("").is_empty());
}

#[test]
fn command_references_in_order() {
    let simple = Command::SimpleCmd("run --ip $DEVICE_IP".to_string());
    assert_eq!(simple.get_env_vars(), vec!["DEVICE_IP"]);
    let words = Command::ArraySyntax(vec![
        "--user=${APP_BITCOIN_RPC_USER}".to_string(),
        "plain".to_string(),
        "$API_IP".to_string(),
    ]);
    assert_eq!(words.get_env_vars(), vec!["APP_BITCOIN_RPC_USER", "API_IP"]);
}

#[test]
fn is_false_negates() {
    assert!(is_false(&false));
    assert!(!is_false(&true));
}
