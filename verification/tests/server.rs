use configmaton::server::{config_request, config_request_raw, config_version, hash_text, query_param, ConfigStep, Method};

fn store(step: ConfigStep) -> (Vec<u8>, bool, u64) {
    match step {
        ConfigStep::Store { name, force, body_hash } => (name, force, body_hash),
        other => panic!("expected a store, got {:?}", other),
    }
}

#[test]
fn ping_answers_pong() {
    let r = config_request(Method::Get, b"/ping", 0, None, None, b"", true);
    assert!(matches!(r, ConfigStep::Pong));
    assert_eq!(r.status(), 200);
}

#[test]
fn ping_by_post_is_not_found() {
    let r = config_request(Method::Post, b"/ping", 0, None, None, b"", true);
    assert!(matches!(r, ConfigStep::NotFound));
    assert_eq!(r.status(), 404);
}

#[test]
fn unknown_route_is_not_found() {
    let r = config_request(Method::Get, b"/config", 0, Some(b"a".to_vec()), None, b"", true);
    assert!(matches!(r, ConfigStep::NotFound));
    let r = config_request(Method::Other, b"/config", 0, Some(b"a".to_vec()), None, b"", true);
    assert!(matches!(r, ConfigStep::NotFound));
}

#[test]
fn big_body_is_refused_before_the_name() {
    let r = config_request(Method::Post, b"/config", 65537, None, None, b"", true);
    assert!(matches!(r, ConfigStep::BodyTooBig));
    assert_eq!(r.status(), 413);
    let r = config_request(Method::Post, b"/config", 65536, None, None, b"", true);
    assert!(matches!(r, ConfigStep::MissingName));
    assert_eq!(r.status(), 400);
}

#[test]
fn config_is_stored_under_its_hash() {
    let r = config_request(Method::Post, b"/config", 10, Some(b"cfg".to_vec()), None, b"", true);
    assert_eq!(r.status(), 201);
    let (name, force, hash) = store(r);
    assert_eq!(name, b"cfg".to_vec());
    assert!(!force);
    assert_eq!(hash, 0xef46db3751d8e999);
    let (_, _, hash) = store(config_request(Method::Post, b"/config", 3, Some(b"c".to_vec()), None, b"abc", true));
    assert_eq!(hash, 0x44bc2cf5ad770999);
}

#[test]
fn force_only_when_true() {
    let (_, force, _) =
        store(config_request(Method::Post, b"/config", 0, Some(b"c".to_vec()), Some(b"true".to_vec()), b"", true));
    assert!(force);
    let (_, force, _) =
        store(config_request(Method::Post, b"/config", 0, Some(b"c".to_vec()), Some(b"yes".to_vec()), b"", true));
    assert!(!force);
}

#[test]
fn versions() {
    assert_eq!(config_version(false, true, 4), -1);
    assert_eq!(config_version(true, true, 4), 5);
    assert_eq!(config_version(false, false, 0), 1);
}

#[test]
fn hash_as_text() {
    assert_eq!(hash_text(0xef46db3751d8e999), b"ef46db3751d8e999".to_vec());
    assert_eq!(hash_text(0x1f), b"000000000000001f".to_vec());
}

#[test]
fn invalid_config_is_refused_before_storing() {
    let r = config_request(Method::Post, b"/config", 10, Some(b"cfg".to_vec()), None, b"{", false);
    assert!(matches!(r, ConfigStep::InvalidConfig));
    assert_eq!(r.status(), 400);
    // The name is checked first.
    let r = config_request(Method::Post, b"/config", 10, None, None, b"{", false);
    assert!(matches!(r, ConfigStep::MissingName));
}

#[test]
fn raw_query_decides_name_and_force() {
    let (name, force, hash) =
        store(config_request_raw(Method::Post, b"/config", 0, b"name=a%20b&force=false&force=true", b"", true));
    assert_eq!(name, b"a b".to_vec());
    assert!(force);
    assert_eq!(hash, 0xef46db3751d8e999);
    let (name, force, _) = store(config_request_raw(Method::Post, b"/config", 0, b"name=x+y&name=z", b"", true));
    assert_eq!(name, b"z".to_vec());
    assert!(!force);
    let r = config_request_raw(Method::Post, b"/config", 0, b"force=true", b"", true);
    assert!(matches!(r, ConfigStep::MissingName));
    let r = config_request_raw(Method::Get, b"/ping", 0, b"", b"", true);
    assert!(matches!(r, ConfigStep::Pong));
}

#[test]
fn query_param_takes_the_last() {
    let pairs = vec![(b"a".to_vec(), b"1".to_vec()), (b"a".to_vec(), b"2".to_vec())];
    assert_eq!(query_param(&pairs, b"a"), Some(b"2".to_vec()));
    assert_eq!(query_param(&pairs, b"b"), None);
}
