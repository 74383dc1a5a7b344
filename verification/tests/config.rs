use oddsradar::config::{config_check, forbidden_fields, is_credential_name, ConfigError, ConfigTree};
use oddsradar::spread::DEFAULT_THRESHOLD_MILLIONTHS;

#[test]
fn config_threshold_or_default() {
    assert_eq!(config_check(r#"{"threshold_millionths": 30000}"#), Ok(30_000));
    assert_eq!(config_check(r#"{"venues": ["polymarket", "kalshi"]}"#), Ok(DEFAULT_THRESHOLD_MILLIONTHS));
    assert_eq!(config_check(r#"{"threshold_millionths": "30000"}"#), Ok(DEFAULT_THRESHOLD_MILLIONTHS));
    assert_eq!(config_check(r#"{"threshold_millionths": 0.5}"#), Ok(DEFAULT_THRESHOLD_MILLIONTHS));
    assert_eq!(config_check(r#"[1, 2]"#), Ok(DEFAULT_THRESHOLD_MILLIONTHS));
    assert_eq!(config_check(r#"{"nested": {"threshold_millionths": 7}}"#), Ok(DEFAULT_THRESHOLD_MILLIONTHS));
}

#[test]
fn config_with_credentials_is_refused_by_name_only() {
    let raw = r#"{"b_secret": "PLANT-SECRET-DO-NOT-LOG", "a": {"Private_Key": "x", "list": [{"wallet_seed": 1}]}, "notify_token": "t"}"#;
    let err = config_check(raw).unwrap_err();
    assert_eq!(
        err,
        ConfigError::Forbidden(vec!["Private_Key".to_string(), "wallet_seed".to_string(), "b_secret".to_string()])
    );
    let msg = err.message();
    assert_eq!(msg, "doctor: forbidden secret field(s): Private_Key, wallet_seed, b_secret");
    assert!(!msg.contains("PLANT-SECRET-DO-NOT-LOG"));
}

#[test]
fn config_that_is_not_json_is_refused() {
    match config_check("{not json") {
        Err(ConfigError::Json(m)) => {
            assert!(!m.is_empty());
            assert_eq!(ConfigError::Json(m.clone()).message(), m);
        }
        other => panic!("unexpected {other:?}"),
    }
}

#[test]
fn credential_names() {
    for k in ["private_key", "PrivateKey", "api_secret", "SEED", "mnemonic_words", "db_password", "Passphrase"] {
        assert!(is_credential_name(k), "{k}");
    }
    for k in ["notify_token", "threshold_millionths", "market_id", "", "see_d"] {
        assert!(!is_credential_name(k), "{k}");
    }
}

#[test]
fn forbidden_fields_walks_every_depth_in_order() {
    let t = ConfigTree::Array(vec![
        ConfigTree::Object(vec![
            ("secret".to_string(), ConfigTree::Object(vec![("seed".to_string(), ConfigTree::Other)])),
            ("x".to_string(), ConfigTree::Integer(3)),
        ]),
        ConfigTree::Object(vec![("password".to_string(), ConfigTree::Other)]),
    ]);
    assert_eq!(forbidden_fields(&t), vec!["secret".to_string(), "seed".to_string(), "password".to_string()]);
    assert_eq!(forbidden_fields(&ConfigTree::Integer(1)), Vec::<String>::new());
}
