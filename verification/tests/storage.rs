//! Storage-layer tests: settings validation, the read-through service, and
//! its remote-backed completion path.

use prism_cache::config::AppConfig;
use prism_cache::config::DataProviderConfig;
use prism_cache::config::DatabaseConfig;
use prism_cache::config::DatabaseProvider;
use prism_cache::config::CacheConfig;
use prism_cache::config::LoggingConfig;
use prism_cache::config::ServerConfig;
use prism_cache::config::SettingsMap;
use prism_cache::record::Record;
use prism_cache::record::RecordValue;
use prism_cache::storage::FetchStep;
use prism_cache::storage::StorageError;
use prism_cache::storage::StorageService;
use prism_cache::storage::assert_required_settings;
use prism_cache::storage::validate_connection_settings;

#[test]
fn test_extract_required_settings() {
    let mut settings = SettingsMap::new();
    settings.insert("host".to_string(), "localhost".to_string());
    settings.insert("port".to_string(), "5432".to_string());

    let required_keys = ["host", "port", "user"];
    let result = assert_required_settings(&settings, &required_keys);

    assert!(result.is_err());
    if let Err(StorageError::ConfigError(msg)) = result {
        assert!(msg.contains("user"));
    } else {
        panic!("Expected ConfigError");
    }

    settings.insert("user".to_string(), "postgres".to_string());
    let result = assert_required_settings(&settings, &required_keys);
    assert!(result.is_ok());
}

#[test]
fn missing_settings_are_listed_in_order() {
    let settings = SettingsMap::new();
    let result = assert_required_settings(&settings, &["alpha", "beta"]);
    match result {
        Err(StorageError::ConfigError(msg)) => {
            assert_eq!(msg, "Missing required settings: alpha, beta");
        }
        _ => panic!("Expected ConfigError"),
    }
}

#[test]
fn connection_settings_need_a_numeric_port() {
    let mut settings = SettingsMap::new();
    settings.insert("host".to_string(), "localhost".to_string());
    settings.insert("port".to_string(), "5432".to_string());
    settings.insert("user".to_string(), "u".to_string());
    settings.insert("password".to_string(), "SECRET-REDACTED".to_string());
    settings.insert("database".to_string(), "d".to_string());
    assert!(validate_connection_settings(&settings).is_ok());

    settings.insert("port".to_string(), "99999".to_string());
    assert!(validate_connection_settings(&settings).is_err());

    settings.insert("port".to_string(), "54x2".to_string());
    assert!(validate_connection_settings(&settings).is_err());
}

fn remote_config() -> AppConfig {
    let mut settings = SettingsMap::new();
    settings.insert("delta_table_name".to_string(), "people".to_string());
    settings.insert(
        "delta_table_path".to_string(),
        "azure://container/tables".to_string(),
    );
    settings.insert(
        "delta_record_query".to_string(),
        "SELECT * FROM people WHERE id = '{}'".to_string(),
    );
    AppConfig {
        database: DatabaseConfig {
            providers: vec![DataProviderConfig {
                name: "people".to_string(),
                provider: DatabaseProvider::AzDelta,
                settings,
            }],
        },
        cache: CacheConfig { max_entries: 16, ttl_seconds: 60 },
        server: ServerConfig { bind_address: "127.0.0.1:6379".to_string() },
        logging: LoggingConfig { level: "info".to_string() },
    }
}

#[test]
fn remote_provider_hands_back_the_substituted_query() {
    let mut svc = StorageService::new(&remote_config()).unwrap();
    match svc.fetch_record("people", "42", 0) {
        FetchStep::Backend(q) => {
            assert_eq!(q.provider, "people");
            assert_eq!(q.id, "42");
            assert_eq!(q.query, "SELECT * FROM people WHERE id = '42'");
        }
        FetchStep::Done(_) => panic!("expected a remote query"),
    }
}

#[test]
fn completed_remote_fetch_is_cached_for_the_next_lookup() {
    let mut svc = StorageService::new(&remote_config()).unwrap();
    match svc.fetch_record("people", "42", 0) {
        FetchStep::Backend(_) => {}
        FetchStep::Done(_) => panic!("expected a remote query"),
    }
    let mut rec = Record::new();
    rec.insert("id".to_string(), RecordValue::Json("\"42\"".to_string()));
    rec.insert("name".to_string(), RecordValue::Json("\"Ada\"".to_string()));
    let got = svc.complete_fetch("people", "42", Ok(vec![rec]), 0).unwrap();
    assert_eq!(got.to_json_text(), "{\"id\":\"42\",\"name\":\"Ada\"}");
    // Within the TTL the second fetch is a cache hit: no new query leaves.
    match svc.fetch_record("people", "42", 30) {
        FetchStep::Done(Ok(cached)) => {
            assert_eq!(cached.to_json_text(), "{\"id\":\"42\",\"name\":\"Ada\"}");
        }
        _ => panic!("expected a cache hit"),
    }
}

#[test]
fn remote_failure_surfaces_as_backend_error() {
    let mut svc = StorageService::new(&remote_config()).unwrap();
    let r = svc.complete_fetch("people", "42", Err("engine offline".to_string()), 0);
    match r {
        Err(StorageError::DatabaseError(m)) => assert_eq!(m, "engine offline"),
        _ => panic!("expected DatabaseError"),
    }
}

#[test]
fn remote_no_rows_is_record_not_in_database() {
    let mut svc = StorageService::new(&remote_config()).unwrap();
    let r = svc.complete_fetch("people", "42", Ok(vec![]), 0);
    assert!(matches!(r, Err(StorageError::RecordNotInDatabase(_))));
}

#[test]
fn unknown_provider_is_reported() {
    let mut svc = StorageService::new(&AppConfig::default()).unwrap();
    match svc.fetch_record("nowhere", "1", 0) {
        FetchStep::Done(Err(StorageError::ProviderNotFound(_))) => {}
        _ => panic!("expected ProviderNotFound"),
    }
}

#[test]
fn incomplete_provider_settings_fail_construction() {
    let mut cfg = remote_config();
    cfg.database.providers[0].settings = SettingsMap::new();
    assert!(matches!(
        StorageService::new(&cfg),
        Err(StorageError::ConfigError(_))
    ));
}
