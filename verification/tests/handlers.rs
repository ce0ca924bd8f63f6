use sshman::commands::handlers::{
    handle_add, handle_connect_with_password, handle_edit, handle_init, handle_reset, handle_reset_all, handle_rm,
    handle_show, handle_swap, AppContext, CommandError, SshConnector,
};
use sshman::storage::config::Storage;

struct MockConnector {
    should_succeed: bool,
}

impl SshConnector for MockConnector {
    fn verify(&self, _host: &str, _port: u16, _user: &str, _password: &str) -> Result<(), CommandError> {
        if self.should_succeed {
            Ok(())
        } else {
            Err(CommandError::ConnectionFailed("mock failure".into()))
        }
    }

    fn connect(&self, _host: &str, _port: u16, _user: &str, _password: &str) -> Result<(), CommandError> {
        if self.should_succeed {
            Ok(())
        } else {
            Err(CommandError::ConnectionFailed("mock failure".into()))
        }
    }

    fn upload(
        &self,
        _host: &str,
        _port: u16,
        _user: &str,
        _password: &str,
        _local_path: &str,
        _remote_path: &str,
    ) -> Result<(), CommandError> {
        if self.should_succeed {
            Ok(())
        } else {
            Err(CommandError::ConnectionFailed("mock failure".into()))
        }
    }

    fn download(
        &self,
        _host: &str,
        _port: u16,
        _user: &str,
        _password: &str,
        _remote_path: &str,
        _local_path: &str,
    ) -> Result<(), CommandError> {
        if self.should_succeed {
            Ok(())
        } else {
            Err(CommandError::ConnectionFailed("mock failure".into()))
        }
    }
}

fn ok_connector() -> MockConnector {
    MockConnector { should_succeed: true }
}

fn fail_connector() -> MockConnector {
    MockConnector { should_succeed: false }
}

fn setup() -> AppContext {
    AppContext::new(Storage::new("/tmp/sshman-handlers"))
}

fn init_ctx(ctx: &mut AppContext) {
    handle_init(ctx, "master").unwrap();
}

fn add_test_conn(ctx: &mut AppContext, alias: &str, host: &str) {
    handle_add(ctx, &ok_connector(), alias, host, 22, "root", vec![], None, "test_pass", "master").unwrap();
}

#[test]
fn test_handle_init() {
    let mut ctx = setup();
    let result = handle_init(&mut ctx, "master").unwrap();
    assert!(result.contains("Initialized"));
    assert!(ctx.storage.is_initialized());
}

#[test]
fn test_handle_init_twice() {
    let mut ctx = setup();
    handle_init(&mut ctx, "master").unwrap();
    let result = handle_init(&mut ctx, "master");
    assert!(result.is_err());
}

#[test]
fn test_handle_not_initialized() {
    let mut ctx = setup();
    let result = handle_add(&mut ctx, &ok_connector(), "app", "10.0.0.1", 22, "root", vec![], None, "pw", "master");
    assert!(matches!(result, Err(CommandError::NotInitialized)));
}

#[test]
fn test_handle_add() {
    let mut ctx = setup();
    init_ctx(&mut ctx);
    let result =
        handle_add(&mut ctx, &ok_connector(), "app", "10.0.0.1", 22, "root", vec![], None, "secret", "master").unwrap();
    assert_eq!(result, "Added connection 'app'");

    let store = ctx.storage.load_connections().unwrap();
    assert_eq!(store.connections.len(), 1);
}

#[test]
fn test_handle_add_ssh_fail() {
    let mut ctx = setup();
    init_ctx(&mut ctx);
    let result =
        handle_add(&mut ctx, &fail_connector(), "app", "10.0.0.1", 22, "root", vec![], None, "secret", "master");
    assert!(result.is_err());
    assert!(result.unwrap_err().to_string().contains("mock failure"));

    let store = ctx.storage.load_connections().unwrap();
    assert!(store.connections.is_empty());
}

#[test]
fn test_handle_add_with_options() {
    let mut ctx = setup();
    init_ctx(&mut ctx);
    handle_add(
        &mut ctx,
        &ok_connector(),
        "app",
        "10.0.0.1",
        22,
        "root",
        vec!["web".to_string()],
        Some("red"),
        "secret",
        "master",
    )
    .unwrap();

    let store = ctx.storage.load_connections().unwrap();
    let conn = &store.connections[0];
    assert_eq!(conn.tags, vec!["web"]);
    assert_eq!(conn.color.as_deref(), Some("red"));
}

#[test]
fn test_handle_add_duplicate() {
    let mut ctx = setup();
    init_ctx(&mut ctx);
    add_test_conn(&mut ctx, "app", "10.0.0.1");
    let result = handle_add(&mut ctx, &ok_connector(), "app", "10.0.0.2", 22, "root", vec![], None, "pw", "master");
    assert!(result.is_err());
}

#[test]
fn test_handle_rm() {
    let mut ctx = setup();
    init_ctx(&mut ctx);
    add_test_conn(&mut ctx, "app", "10.0.0.1");
    let result = handle_rm(&mut ctx, "app").unwrap();
    assert_eq!(result, "Removed connection 'app'");

    let store = ctx.storage.load_connections().unwrap();
    assert!(store.connections.is_empty());
}

#[test]
fn test_handle_rm_not_found() {
    let mut ctx = setup();
    init_ctx(&mut ctx);
    let result = handle_rm(&mut ctx, "nope");
    assert!(result.is_err());
}

#[test]
fn test_handle_edit() {
    let mut ctx = setup();
    init_ctx(&mut ctx);
    add_test_conn(&mut ctx, "app", "10.0.0.1");

    handle_edit(
        &mut ctx,
        &ok_connector(),
        "app",
        Some("10.0.0.2"),
        Some(3306),
        Some("admin"),
        Some(vec!["db".to_string()]),
        Some("green"),
        None,
        None,
        None,
    )
    .unwrap();

    let store = ctx.storage.load_connections().unwrap();
    let conn = &store.connections[0];
    assert_eq!(conn.host, "10.0.0.2");
    assert_eq!(conn.port, 3306);
    assert_eq!(conn.user, "admin");
    assert_eq!(conn.tags, vec!["db"]);
    assert_eq!(conn.color.as_deref(), Some("green"));
}

#[test]
fn test_handle_edit_partial() {
    let mut ctx = setup();
    init_ctx(&mut ctx);
    add_test_conn(&mut ctx, "app", "10.0.0.1");

    handle_edit(&mut ctx, &ok_connector(), "app", None, None, None, None, Some("blue"), None, None, None).unwrap();

    let store = ctx.storage.load_connections().unwrap();
    assert_eq!(store.connections[0].color.as_deref(), Some("blue"));
    assert_eq!(store.connections[0].host, "10.0.0.1");
}

#[test]
fn test_handle_edit_not_found() {
    let mut ctx = setup();
    init_ctx(&mut ctx);
    let result = handle_edit(&mut ctx, &ok_connector(), "nope", None, None, None, None, None, None, None, None);
    assert!(result.is_err());
}

#[test]
fn test_handle_connect_dry_run() {
    let mut ctx = setup();
    init_ctx(&mut ctx);
    add_test_conn(&mut ctx, "app", "10.0.0.1");

    let result = handle_connect_with_password(&ctx, &ok_connector(), "app", "test_pass", true).unwrap();
    assert!(result.contains("root@10.0.0.1"));
}

#[test]
fn test_handle_connect_not_found() {
    let mut ctx = setup();
    init_ctx(&mut ctx);
    let result = handle_connect_with_password(&ctx, &ok_connector(), "nope", "pw", true);
    assert!(result.is_err());
}

#[test]
fn test_handle_connect_live_ok() {
    let mut ctx = setup();
    init_ctx(&mut ctx);
    add_test_conn(&mut ctx, "app", "10.0.0.1");

    let result = handle_connect_with_password(&ctx, &ok_connector(), "app", "test_pass", false).unwrap();
    assert_eq!(result, "Connection closed.");
}

#[test]
fn test_handle_connect_live_fail() {
    let mut ctx = setup();
    init_ctx(&mut ctx);
    add_test_conn(&mut ctx, "app", "10.0.0.1");

    let result = handle_connect_with_password(&ctx, &fail_connector(), "app", "test_pass", false);
    assert!(result.is_err());
}

#[test]
fn test_handle_edit_with_password() {
    let mut ctx = setup();
    init_ctx(&mut ctx);
    add_test_conn(&mut ctx, "app", "10.0.0.1");

    handle_edit(
        &mut ctx,
        &ok_connector(),
        "app",
        None,
        None,
        None,
        None,
        None,
        None,
        Some("new_password"),
        Some("master"),
    )
    .unwrap();

    let pw = ctx.storage.get_password("app", "master").unwrap();
    assert_eq!(pw, "new_password");
}

#[test]
fn test_handle_edit_with_wrong_master_password() {
    let mut ctx = setup();
    init_ctx(&mut ctx);
    add_test_conn(&mut ctx, "app", "10.0.0.1");

    let result = handle_edit(
        &mut ctx,
        &ok_connector(),
        "app",
        None,
        None,
        None,
        None,
        None,
        None,
        Some("new_password"),
        Some("wrong"),
    );
    assert!(matches!(result, Err(CommandError::WrongMasterPassword)));
}

#[test]
fn test_handle_edit_with_wrong_ssh_password() {
    let mut ctx = setup();
    init_ctx(&mut ctx);
    add_test_conn(&mut ctx, "app", "10.0.0.1");

    let result = handle_edit(
        &mut ctx,
        &fail_connector(),
        "app",
        None,
        None,
        None,
        None,
        None,
        None,
        Some("wrong_ssh"),
        Some("master"),
    );
    assert!(matches!(result, Err(CommandError::ConnectionFailed(_))));
}

#[test]
fn test_handle_edit_rename() {
    let mut ctx = setup();
    init_ctx(&mut ctx);
    add_test_conn(&mut ctx, "app", "10.0.0.1");

    handle_edit(&mut ctx, &ok_connector(), "app", None, None, None, None, None, Some("myapp"), None, None).unwrap();

    let store = ctx.storage.load_connections().unwrap();
    assert_eq!(store.connections[0].alias, "myapp");
}

#[test]
fn test_handle_edit_rename_keeps_password() {
    let mut ctx = setup();
    init_ctx(&mut ctx);
    add_test_conn(&mut ctx, "app", "10.0.0.1");

    handle_edit(&mut ctx, &ok_connector(), "app", None, None, None, None, None, Some("myapp"), None, None).unwrap();

    let pw = ctx.storage.get_password("myapp", "master").unwrap();
    assert_eq!(pw, "test_pass");
}

#[test]
fn test_handle_edit_rename_conflict() {
    let mut ctx = setup();
    init_ctx(&mut ctx);
    add_test_conn(&mut ctx, "app", "10.0.0.1");
    add_test_conn(&mut ctx, "web", "10.0.0.2");

    let result = handle_edit(&mut ctx, &ok_connector(), "app", None, None, None, None, None, Some("web"), None, None);
    assert!(matches!(result, Err(CommandError::AlreadyExists(_))));
}

#[test]
fn test_command_error_display() {
    assert!(!CommandError::NotInitialized.to_string().is_empty());
    assert!(CommandError::NotFound("x".into()).to_string().contains("x"));
    assert!(CommandError::AlreadyExists("y".into()).to_string().contains("y"));
    assert!(CommandError::InvalidInput("z".into()).to_string().contains("z"));
}

#[test]
fn test_ensure_initialized_ok() {
    let mut ctx = setup();
    init_ctx(&mut ctx);
    assert!(ctx.ensure_initialized().is_ok());
}

#[test]
fn test_ensure_initialized_fail() {
    let ctx = setup();
    assert!(ctx.ensure_initialized().is_err());
}

#[test]
fn test_handle_reset() {
    let mut ctx = setup();
    init_ctx(&mut ctx);
    add_test_conn(&mut ctx, "app", "10.0.0.1");

    let result = handle_reset(&mut ctx, "newmaster").unwrap();
    assert!(result.contains("1 connection(s) preserved"));
    assert!(result.contains("passwords cleared"));

    let store = ctx.storage.load_connections().unwrap();
    assert_eq!(store.connections.len(), 1);

    let pw_result = ctx.storage.get_password("app", "newmaster");
    assert!(pw_result.is_err());
}

#[test]
fn test_handle_reset_not_initialized() {
    let mut ctx = setup();
    let result = handle_reset(&mut ctx, "newmaster");
    assert!(matches!(result, Err(CommandError::NotInitialized)));
}

#[test]
fn test_handle_reset_all() {
    let mut ctx = setup();
    init_ctx(&mut ctx);
    add_test_conn(&mut ctx, "app", "10.0.0.1");

    let result = handle_reset_all(&mut ctx, "master").unwrap();
    assert!(result.contains("All data deleted"));

    assert!(!ctx.storage.has_connections_file());
    assert!(!ctx.storage.has_config_file());
}

#[test]
fn test_handle_reset_all_wrong_password() {
    let mut ctx = setup();
    init_ctx(&mut ctx);
    add_test_conn(&mut ctx, "app", "10.0.0.1");

    let result = handle_reset_all(&mut ctx, "wrong");
    assert!(matches!(result, Err(CommandError::WrongMasterPassword)));
}

#[test]
fn test_handle_reset_all_not_initialized() {
    let mut ctx = setup();
    let result = handle_reset_all(&mut ctx, "master");
    assert!(matches!(result, Err(CommandError::NotInitialized)));
}

#[test]
fn test_handle_show() {
    let mut ctx = setup();
    init_ctx(&mut ctx);
    add_test_conn(&mut ctx, "app", "10.0.0.1");

    let password = handle_show(&ctx, "app", "master").unwrap();
    assert_eq!(password, "test_pass");
}

#[test]
fn test_handle_show_wrong_master_password() {
    let mut ctx = setup();
    init_ctx(&mut ctx);
    add_test_conn(&mut ctx, "app", "10.0.0.1");

    let result = handle_show(&ctx, "app", "wrong");
    assert!(result.is_err());
}

#[test]
fn test_handle_show_not_found() {
    let mut ctx = setup();
    init_ctx(&mut ctx);

    let result = handle_show(&ctx, "nonexistent", "master");
    assert!(result.is_err());
}

#[test]
fn test_handle_show_not_initialized() {
    let ctx = setup();
    let result = handle_show(&ctx, "app", "master");
    assert!(matches!(result, Err(CommandError::NotInitialized)));
}

#[test]
fn test_handle_swap_reassign() {
    let mut ctx = setup();
    init_ctx(&mut ctx);
    add_test_conn(&mut ctx, "app", "10.0.0.1");
    add_test_conn(&mut ctx, "web", "10.0.0.2");

    let store = ctx.storage.load_connections().unwrap();
    let app_id = store.find("app").unwrap().id;
    let web_id = store.find("web").unwrap().id;

    let msg = handle_swap(&mut ctx, app_id, 5).unwrap();
    assert!(msg.contains("Reassigned"));

    let store = ctx.storage.load_connections().unwrap();
    assert_eq!(store.find("app").unwrap().id, 5);
    assert_eq!(store.find("web").unwrap().id, web_id);
}

#[test]
fn test_handle_swap_exchange() {
    let mut ctx = setup();
    init_ctx(&mut ctx);
    add_test_conn(&mut ctx, "app", "10.0.0.1");
    add_test_conn(&mut ctx, "web", "10.0.0.2");

    let store = ctx.storage.load_connections().unwrap();
    let app_id = store.find("app").unwrap().id;
    let web_id = store.find("web").unwrap().id;

    let msg = handle_swap(&mut ctx, app_id, web_id).unwrap();
    assert!(msg.contains("Swapped"));

    let store = ctx.storage.load_connections().unwrap();
    assert_eq!(store.find("app").unwrap().id, web_id);
    assert_eq!(store.find("web").unwrap().id, app_id);
}

#[test]
fn test_handle_swap_fill_gap() {
    let mut ctx = setup();
    init_ctx(&mut ctx);
    add_test_conn(&mut ctx, "app", "10.0.0.1");
    add_test_conn(&mut ctx, "web", "10.0.0.2");
    add_test_conn(&mut ctx, "db", "10.0.0.3");

    ctx.storage.remove_connection("web").unwrap();

    let store = ctx.storage.load_connections().unwrap();
    let db_id = store.find("db").unwrap().id;

    handle_swap(&mut ctx, db_id, 2).unwrap();

    let store = ctx.storage.load_connections().unwrap();
    assert_eq!(store.find("db").unwrap().id, 2);
}

#[test]
fn test_handle_swap_same_id() {
    let mut ctx = setup();
    init_ctx(&mut ctx);
    add_test_conn(&mut ctx, "app", "10.0.0.1");

    let store = ctx.storage.load_connections().unwrap();
    let app_id = store.find("app").unwrap().id;

    let result = handle_swap(&mut ctx, app_id, app_id);
    assert!(result.is_err());
}

#[test]
fn test_handle_swap_source_not_found() {
    let mut ctx = setup();
    init_ctx(&mut ctx);
    add_test_conn(&mut ctx, "app", "10.0.0.1");

    let result = handle_swap(&mut ctx, 99, 1);
    assert!(result.is_err());
}

#[test]
fn test_handle_swap_not_initialized() {
    let mut ctx = setup();
    let result = handle_swap(&mut ctx, 1, 2);
    assert!(matches!(result, Err(CommandError::NotInitialized)));
}
