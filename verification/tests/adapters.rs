//! Adapter and model tests: the mock fixture, the field-table adapters, the
//! connection-string parser, records, and configuration defaults.

use prism_cache::config::AppConfig;
use prism_cache::config::ConfigError;
use prism_cache::config::SettingsMap;
use prism_cache::database::AdapterStep;
use prism_cache::database::ColumnValue;
use prism_cache::database::record_from_columns;
use prism_cache::database::DatabaseType;
use prism_cache::database::MockAdapter;
use prism_cache::database::PostgresAdapter;
use prism_cache::database::create_database;
use prism_cache::config::DatabaseProvider;
use prism_cache::in_memory::InMemoryAdapter;
use prism_cache::record::Record;
use prism_cache::record::RecordValue;
use prism_cache::sql::SqlAdapter;
use prism_cache::storage::StorageError;

#[test]
fn mock_adapter_serves_its_fixture() {
    let adapter = MockAdapter::new(SettingsMap::new());
    let rows = adapter.fetch_record("users", "1").unwrap();
    assert_eq!(rows.len(), 1);
    assert_eq!(
        rows[0].to_json_text(),
        "{\"age\":30,\"email\":\"john@example.com\",\"id\":\"1\",\"name\":\"John Doe\"}"
    );
    assert!(matches!(
        adapter.fetch_record("users", "99"),
        Err(StorageError::RecordNotInDatabase(_))
    ));
    assert!(matches!(
        adapter.fetch_record("missing", "1"),
        Err(StorageError::RecordNotInDatabase(_))
    ));
}

#[test]
fn mock_adapter_with_required_settings_checks_keys() {
    assert!(matches!(
        MockAdapter::with_required_settings(SettingsMap::new()),
        Err(StorageError::ConfigError(_))
    ));
    let mut settings = SettingsMap::new();
    settings.insert("data_source".to_string(), "fixture".to_string());
    settings.insert("max_records".to_string(), "100".to_string());
    assert!(MockAdapter::with_required_settings(settings).is_ok());
}

#[test]
fn postgres_adapter_needs_all_connection_settings() {
    let mut settings = SettingsMap::new();
    settings.insert("user".to_string(), "u".to_string());
    assert!(PostgresAdapter::new(&settings).is_err());
    settings.insert("password".to_string(), "SECRET-REDACTED".to_string());
    settings.insert("host".to_string(), "localhost".to_string());
    settings.insert("port".to_string(), "5432".to_string());
    settings.insert("dbname".to_string(), "d".to_string());
    settings.insert("fields".to_string(), "name, age".to_string());
    let adapter = PostgresAdapter::new(&settings).unwrap();
    // The query path is a stub: no rows come back.
    let rows = adapter.fetch_record("employees", "7").unwrap();
    assert!(rows.is_empty());
}

#[test]
fn create_database_builds_the_named_kind() {
    let db = create_database(&DatabaseProvider::Mock, SettingsMap::new()).unwrap();
    match db.fetch_record("users", "2") {
        AdapterStep::Rows(rows) => {
            assert_eq!(rows.len(), 1);
            assert_eq!(
                rows[0].get(&"name".to_string()).unwrap().to_text(),
                "\"Jane Smith\""
            );
        }
        _ => panic!("expected rows from the mock"),
    }
    assert!(create_database(&DatabaseProvider::AzDelta, SettingsMap::new()).is_err());
}

#[test]
fn delta_adapter_substitutes_every_brace_pair() {
    let mut settings = SettingsMap::new();
    settings.insert("delta_table_name".to_string(), "t".to_string());
    settings.insert("delta_table_path".to_string(), "azure://x".to_string());
    settings.insert(
        "delta_record_query".to_string(),
        "SELECT * FROM t WHERE a = '{}' OR b = '{}'".to_string(),
    );
    let db = create_database(&DatabaseProvider::AzDelta, settings).unwrap();
    match db.fetch_record("t", "7") {
        AdapterStep::RemoteQuery(q) => {
            assert_eq!(q, "SELECT * FROM t WHERE a = '7' OR b = '7'");
        }
        _ => panic!("expected a remote query"),
    }
    let _ = DatabaseType::Mock(MockAdapter::new(SettingsMap::new()));
}

#[test]
fn in_memory_adapter_round_trips_fields() {
    let mut adapter = InMemoryAdapter::new_empty();
    let mut fields = SettingsMap::new();
    fields.insert("name".to_string(), "Ada".to_string());
    fields.insert("role".to_string(), "engineer".to_string());
    adapter.set_entity("people", "p1", fields).unwrap();

    let all = adapter.fetch_fields("people", "p1", &[]).unwrap();
    assert_eq!(all.get("name").unwrap().as_str(), "Ada");
    assert_eq!(all.get("role").unwrap().as_str(), "engineer");

    let some = adapter.fetch_fields("people", "p1", &["role", "absent"]).unwrap();
    assert_eq!(some.get("role").unwrap().as_str(), "engineer");
    assert!(some.get("absent").is_none());

    assert!(matches!(
        adapter.fetch_fields("people", "p2", &[]),
        Err(StorageError::EntityNotFound(_))
    ));
    assert!(matches!(
        adapter.fetch_fields("animals", "p1", &[]),
        Err(StorageError::EntityNotFound(_))
    ));
}

#[test]
fn in_memory_fixture_has_its_test_user() {
    let adapter = InMemoryAdapter::new();
    let user = adapter.fetch_fields("users", "user1", &[]).unwrap();
    assert_eq!(user.get("name").unwrap().as_str(), "John Doe");
    assert_eq!(user.get("email").unwrap().as_str(), "john@example.com");
}

#[test]
fn sql_adapter_parses_its_connection_string() {
    let adapter = SqlAdapter::new(" Host = localhost ; PORT=5432; flag ; User=admin");
    let params = adapter.parse_connection_string().unwrap();
    assert_eq!(params.get("host").unwrap().as_str(), "localhost");
    assert_eq!(params.get("port").unwrap().as_str(), "5432");
    assert_eq!(params.get("user").unwrap().as_str(), "admin");
    assert!(params.get("flag").is_none());
}

#[test]
fn sql_adapter_serves_its_simulated_rows() {
    let adapter = SqlAdapter::new("host=localhost");
    let user = adapter.fetch_fields("users", "sql1", &[]).unwrap();
    assert_eq!(user.get("name").unwrap().as_str(), "SQL User");
    let one = adapter.fetch_fields("products", "sql_prod1", &["price"]).unwrap();
    assert_eq!(one.get("price").unwrap().as_str(), "29.99");
}

#[test]
fn record_renders_canonical_json_text() {
    let mut rec = Record::new();
    assert_eq!(rec.to_json_text(), "{}");
    rec.insert("b".to_string(), RecordValue::Json("2".to_string()));
    rec.insert("a".to_string(), RecordValue::Json("\"x\"".to_string()));
    rec.insert("n".to_string(), RecordValue::Null);
    assert_eq!(rec.to_json_text(), "{\"b\":2,\"a\":\"x\",\"n\":null}");
    // Re-inserting an existing key replaces the value in place.
    rec.insert("b".to_string(), RecordValue::Json("3".to_string()));
    assert_eq!(rec.to_json_text(), "{\"b\":3,\"a\":\"x\",\"n\":null}");
    assert!(rec.get(&"n".to_string()).unwrap().is_null());
    assert!(rec.get(&"zz".to_string()).is_none());
}

#[test]
fn config_defaults_match_the_documented_values() {
    let cfg = AppConfig::default();
    assert_eq!(cfg.cache.max_entries, 10000);
    assert_eq!(cfg.cache.ttl_seconds, 300);
    assert_eq!(cfg.server.bind_address, "127.0.0.1:6379");
    assert_eq!(cfg.logging.level, "info");
    assert_eq!(cfg.database.providers.len(), 1);
    assert_eq!(cfg.database.providers[0].name, "users");
}

#[test]
fn column_projection_matches_the_documented_rule() {
    let columns = vec![
        ("age".to_string(), ColumnValue::Int64(30)),
        ("name".to_string(), ColumnValue::Utf8("John".to_string())),
    ];
    let rec = record_from_columns(&columns);
    assert_eq!(rec.get(&"age".to_string()).unwrap().to_text(), "\"30\"");
    assert_eq!(rec.get(&"name".to_string()).unwrap().to_text(), "\"John\"");
    assert_eq!(rec.to_json_text(), "{\"age\":\"30\",\"name\":\"John\"}");
}

#[test]
fn column_projection_handles_every_column_kind() {
    let columns = vec![
        ("flag".to_string(), ColumnValue::Boolean(true)),
        ("neg".to_string(), ColumnValue::Int32(-5)),
        ("blob".to_string(), ColumnValue::Unsupported),
        ("quoted".to_string(), ColumnValue::Utf8("a\"b".to_string())),
        ("ratio".to_string(), ColumnValue::Rendered("999.99".to_string())),
    ];
    let rec = record_from_columns(&columns);
    assert_eq!(
        rec.to_json_text(),
        "{\"flag\":\"true\",\"neg\":\"-5\",\"blob\":\"Unsupported type\",\"quoted\":\"a\\\"b\",\"ratio\":\"999.99\"}"
    );
}

#[test]
fn config_error_messages_name_the_fault() {
    assert_eq!(
        ConfigError::InvalidDatabaseProvider("mongo".to_string()).message(),
        "Database provider error: mongo"
    );
    assert_eq!(
        ConfigError::Other("bad file".to_string()).message(),
        "Configuration error: bad file"
    );
}
