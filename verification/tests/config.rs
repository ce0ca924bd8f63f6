use sshman::models::connection::{Connection, ConnectionEdit};
use sshman::storage::config::{AppConfig, ConfigError, Storage};
use sshman::storage::table::PasswordTable;

fn setup_storage() -> Storage {
    Storage::new("/tmp/sshman-config")
}

fn make_conn(alias: &str) -> Connection {
    Connection::new(alias.to_string(), "10.0.0.1".to_string(), 22, "root".to_string())
}

#[test]
fn test_initialize() {
    let mut storage = setup_storage();
    assert!(!storage.is_initialized());

    storage.initialize().unwrap();
    assert!(storage.is_initialized());
    assert!(storage.has_connections_file());
    assert!(storage.has_config_file());
}

#[test]
fn test_initialize_twice() {
    let mut storage = setup_storage();
    storage.initialize().unwrap();
    let result = storage.initialize();
    assert!(matches!(result, Err(ConfigError::AlreadyInitialized)));
}

#[test]
fn test_load_empty_connections() {
    let mut storage = setup_storage();
    storage.initialize().unwrap();
    let store = storage.load_connections().unwrap();
    assert!(store.connections.is_empty());
}

#[test]
fn test_add_and_load_connection() {
    let mut storage = setup_storage();
    storage.initialize().unwrap();

    let conn = make_conn("app");
    storage.add_connection(conn).unwrap();

    let store = storage.load_connections().unwrap();
    assert_eq!(store.connections.len(), 1);
    assert_eq!(store.connections[0].alias, "app");
}

#[test]
fn test_add_duplicate_alias() {
    let mut storage = setup_storage();
    storage.initialize().unwrap();

    storage.add_connection(make_conn("app")).unwrap();
    let result = storage.add_connection(make_conn("app"));
    assert!(result.is_err());
}

#[test]
fn test_remove_connection() {
    let mut storage = setup_storage();
    storage.initialize().unwrap();

    storage.add_connection(make_conn("app")).unwrap();
    let removed = storage.remove_connection("app").unwrap();
    assert_eq!(removed.alias, "app");

    let store = storage.load_connections().unwrap();
    assert!(store.connections.is_empty());
}

#[test]
fn test_remove_nonexistent() {
    let mut storage = setup_storage();
    storage.initialize().unwrap();
    let result = storage.remove_connection("nope");
    assert!(result.is_err());
}

#[test]
fn test_update_connection() {
    let mut storage = setup_storage();
    storage.initialize().unwrap();

    storage.add_connection(make_conn("app")).unwrap();
    let mut edit = ConnectionEdit::none();
    edit.host = Some("10.0.0.2".to_string());
    edit.port = Some(3306);
    storage.update_connection("app", edit).unwrap();

    let store = storage.load_connections().unwrap();
    assert_eq!(store.connections[0].host, "10.0.0.2");
    assert_eq!(store.connections[0].port, 3306);
}

#[test]
fn test_update_nonexistent() {
    let mut storage = setup_storage();
    storage.initialize().unwrap();
    let result = storage.update_connection("nope", ConnectionEdit::none());
    assert!(result.is_err());
}

#[test]
fn test_save_and_get_password() {
    let mut storage = setup_storage();
    storage.initialize().unwrap();

    storage.save_password("app", "my_secret_pass", "master").unwrap();
    let password = storage.get_password("app", "master").unwrap();
    assert_eq!(password, "my_secret_pass");
}

#[test]
fn test_get_password_wrong_master() {
    let mut storage = setup_storage();
    storage.initialize().unwrap();

    storage.save_password("app", "secret", "correct").unwrap();
    let result = storage.get_password("app", "wrong");
    assert!(result.is_err());
}

#[test]
fn test_delete_password() {
    let mut storage = setup_storage();
    storage.initialize().unwrap();

    storage.save_password("app", "secret", "master").unwrap();
    storage.delete_password("app").unwrap();
    let result = storage.get_password("app", "master");
    assert!(result.is_err());
}

#[test]
fn test_remove_connection_also_deletes_password() {
    let mut storage = setup_storage();
    storage.initialize().unwrap();

    storage.add_connection(make_conn("app")).unwrap();
    storage.save_password("app", "secret", "master").unwrap();
    storage.remove_connection("app").unwrap();

    let result = storage.get_password("app", "master");
    assert!(result.is_err());
}

#[test]
fn test_multiple_connections() {
    let mut storage = setup_storage();
    storage.initialize().unwrap();

    for i in 0..5 {
        let conn = Connection::new(format!("app-{}", i), format!("10.0.0.{}", i), 22, "root".to_string());
        storage.add_connection(conn).unwrap();
    }

    let store = storage.load_connections().unwrap();
    assert_eq!(store.connections.len(), 5);
}

#[test]
fn test_load_config_not_found() {
    let storage = setup_storage();
    let result = storage.load_config();
    assert!(matches!(result, Err(ConfigError::NotFound(_))));
}

#[test]
fn test_config_roundtrip() {
    let mut storage = setup_storage();
    let mut passwords = PasswordTable::new();
    passwords.insert("app".to_string(), "encrypted_data".to_string());
    let config = AppConfig { passwords: passwords.clone() };
    storage.save_config(&config).unwrap();
    let loaded = storage.load_config().unwrap();
    assert_eq!(loaded, config);
}

#[test]
fn test_config_error_display() {
    assert!(ConfigError::IoError("test".into()).to_string().contains("test"));
    assert!(ConfigError::SerializeError("s".into()).to_string().contains("s"));
    assert!(!ConfigError::AlreadyInitialized.to_string().is_empty());
}

#[test]
fn test_default_dir() {
    let dir = Storage::default_dir();
    assert!(dir.contains(".sshman"));
}

#[test]
fn test_load_connections_missing_file() {
    let storage = Storage::new("/tmp/sshman-missing");
    let store = storage.load_connections().unwrap();
    assert!(store.connections.is_empty());
}
