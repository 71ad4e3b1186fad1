use composegen::entropy::derive_entropy;
use composegen::permissions::{AppPermissions, Permission};
use composegen::render::{
    helper_call, read_file_outcome, readable_files, regen_time, render_outcome, shows_platform, ReadError,
    RegenError, RenderError,
};

fn perm_with_files(id: &str, files: &[&str]) -> Permission {
    Permission {
        id: id.to_string(),
        name: id.to_string(),
        description: String::new(),
        includes: vec![],
        variables: vec![],
        files: files.iter().map(|f| f.to_string()).collect(),
        hidden: false,
    }
}

#[test]
fn reads_outside_the_allow_list_fail() {
    let allowed = vec!["/srv/app-data/bitcoin/bitcoin.conf".to_string()];
    let r = read_file_outcome("/srv/app-data/bitcoin/wallet.dat", &allowed, Some("x".to_string()), None);
    assert_eq!(r, Err(ReadError::NotAllowed));
    let r = read_file_outcome("/srv/app-data/bitcoin", &allowed, Some("x".to_string()), Some("f".to_string()));
    assert_eq!(r, Err(ReadError::NotAllowed));
}

#[test]
fn allowed_reads_succeed_or_fall_back() {
    let allowed = vec!["/srv/app-data/bitcoin/bitcoin.conf".to_string()];
    let path = "/srv/app-data/bitcoin/bitcoin.conf";
    assert_eq!(read_file_outcome(path, &allowed, Some("rpcport=8332".to_string()), None), Ok("rpcport=8332".to_string()));
    assert_eq!(read_file_outcome(path, &allowed, None, Some("none".to_string())), Ok("none".to_string()));
    assert_eq!(read_file_outcome(path, &allowed, None, None), Err(ReadError::Unreadable));
}

#[test]
fn regeneration_needs_a_minute() {
    assert_eq!(regen_time(1_000, 59), Err(RegenError::TooSmall));
    assert_eq!(regen_time(1_000, 60), Ok(1_060));
    assert_eq!(regen_time(u64::MAX - 10, 60), Err(RegenError::TooLarge));
}

#[test]
fn render_outcomes() {
    assert_eq!(render_outcome(None), Err(RenderError::Timeout));
    assert_eq!(render_outcome(Some(Err("boom".to_string()))), Err(RenderError::Failed("boom".to_string())));
    assert_eq!(render_outcome(Some(Ok("12".to_string()))), Ok("12".to_string()));
}

#[test]
fn helper_calls_pass_arguments_as_one_object() {
    assert_eq!(helper_call("math", "{\"num1\":5,\"num2\":2}"), "math({\"num1\":5,\"num2\":2})");
}

#[test]
fn platform_context_only_for_apps_grant() {
    assert!(shows_platform(&["apps".to_string()]));
    assert!(!shows_platform(&["bitcoin".to_string(), "apps/x".to_string()]));
}

#[test]
fn second_stage_readable_files() {
    let available = vec![AppPermissions {
        app: "bitcoin".to_string(),
        permissions: vec![perm_with_files("conf", &["bitcoin.conf", "rpc.txt"]), perm_with_files("other", &["x"])],
    }];
    let grants = vec!["bitcoin/conf".to_string(), "lnd".to_string(), "ghost/none".to_string()];
    let files = readable_files("/srv", &grants, &available);
    assert_eq!(
        files,
        vec!["/srv/app-data/bitcoin/bitcoin.conf", "/srv/app-data/bitcoin/rpc.txt", "/srv/app-data/lnd"]
    );
}

#[test]
fn entropy_is_hex_of_the_app_hmac() {
    let a = derive_entropy("seed", "app1", "password");
    let b = derive_entropy("seed", "app2", "password");
    assert_eq!(a.len(), 64);
    assert!(a.chars().all(|c| c.is_ascii_hexdigit() && !c.is_ascii_uppercase()));
    assert_ne!(a, b);
    assert_eq!(a, derive_entropy("seed", "app1", "password"));
    let expected = hex::encode(hmac_sha256::HMAC::mac(b"app1:password", b"seed"));
    assert_eq!(a, expected);
}
