use jcake_cloud::paths::{Component, FsPath};
use jcake_cloud::server::{OAuthConfig, SqlMap};

fn sql_path(s: &str) -> FsPath {
    FsPath { parts: vec![Component::Name(s.as_bytes().to_vec())] }
}

#[test]
fn token_body_carries_the_credentials_and_code() {
    let cfg = OAuthConfig {
        token_url: "https://example.test/token".to_string(),
        user_url: "https://example.test/user".to_string(),
        client_id: "cid".to_string(),
        client_secret: "SECRET-REDACTED".to_string(),
    };
    let body = cfg.token("the-code");
    assert_eq!(body.client_id, "cid");
    assert_eq!(body.client_secret, "SECRET-REDACTED");
    assert_eq!(body.code, "the-code");
    assert_eq!(body.accept, "application/json");
}

#[test]
fn sql_map_stores_and_overwrites_by_path() {
    let mut m = SqlMap::new();
    assert_eq!(m.get(&sql_path("q.sql")), None);
    m.insert(sql_path("q.sql"), "SELECT 1".to_string());
    m.insert(sql_path("r.sql"), "SELECT 2".to_string());
    assert_eq!(m.get(&sql_path("q.sql")), Some(&"SELECT 1".to_string()));
    m.insert(sql_path("q.sql"), "SELECT 3".to_string());
    assert_eq!(m.get(&sql_path("q.sql")), Some(&"SELECT 3".to_string()));
    assert_eq!(m.get(&sql_path("r.sql")), Some(&"SELECT 2".to_string()));
    assert_eq!(m.get(&sql_path("missing.sql")), None);
}
