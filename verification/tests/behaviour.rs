use sshman::commands::handlers::{
    handle_add, handle_connect_with_password, handle_download, handle_edit, handle_init, handle_ls, handle_reset,
    handle_rm, handle_show, handle_swap, handle_upload, verify_reply, AppContext, CommandError, SshConnector,
};
use sshman::commands::listing::Listing;
use sshman::models::connection::{Connection, ConnectionStore};
use sshman::network::subnet::{is_in_same_subnet, is_ipv4_same_class_c, IpAddr, Ipv4Addr};
use sshman::storage::config::{ConfigError, Storage};
use sshman::storage::crypto::{base64_decode, base64_encode, decrypt, CryptoError};
use sshman::storage::table::PasswordTable;
use sshman::text::{parse_u32, trim};
use sshman::ui::display::{subnet_cell, summary_line, table_header, table_rows, Color};

struct Answer {
    ok: bool,
}

impl SshConnector for Answer {
    fn verify(&self, _host: &str, _port: u16, _user: &str, _password: &str) -> Result<(), CommandError> {
        self.reply()
    }

    fn connect(&self, _host: &str, _port: u16, _user: &str, _password: &str) -> Result<(), CommandError> {
        self.reply()
    }

    fn upload(&self, _h: &str, _p: u16, _u: &str, _pw: &str, _l: &str, _r: &str) -> Result<(), CommandError> {
        self.reply()
    }

    fn download(&self, _h: &str, _p: u16, _u: &str, _pw: &str, _r: &str, _l: &str) -> Result<(), CommandError> {
        self.reply()
    }
}

impl Answer {
    fn reply(&self) -> Result<(), CommandError> {
        if self.ok {
            Ok(())
        } else {
            Err(CommandError::ConnectionFailed("refused".into()))
        }
    }
}

fn ready() -> AppContext {
    let mut ctx = AppContext::new(Storage::new("/tmp/sshman-behaviour"));
    handle_init(&mut ctx, "master").unwrap();
    ctx
}

fn add(ctx: &mut AppContext, alias: &str, host: &str) {
    handle_add(ctx, &Answer { ok: true }, alias, host, 22, "root", vec![], None, "pw", "master").unwrap();
}

fn plain(alias: &str, host: &str) -> Connection {
    Connection::new(alias.to_string(), host.to_string(), 22, "root".to_string())
}

#[test]
fn swap_twice_restores_ids() {
    let mut ctx = ready();
    add(&mut ctx, "app", "10.0.0.1");
    add(&mut ctx, "web", "10.0.0.2");
    handle_swap(&mut ctx, 1, 2).unwrap();
    handle_swap(&mut ctx, 2, 1).unwrap();
    let store = ctx.storage.load_connections().unwrap();
    assert_eq!(store.find("app").unwrap().id, 1);
    assert_eq!(store.find("web").unwrap().id, 2);

    handle_swap(&mut ctx, 1, 7).unwrap();
    handle_swap(&mut ctx, 7, 1).unwrap();
    let store = ctx.storage.load_connections().unwrap();
    assert_eq!(store.find("app").unwrap().id, 1);
}

#[test]
fn swap_messages_are_exact() {
    let mut ctx = ready();
    add(&mut ctx, "app", "10.0.0.1");
    add(&mut ctx, "web", "10.0.0.2");
    assert_eq!(handle_swap(&mut ctx, 1, 2).unwrap(), "Swapped IDs #1 and #2");
    assert_eq!(handle_swap(&mut ctx, 1, 9).unwrap(), "Reassigned #1 to #9");
    let e = handle_swap(&mut ctx, 4, 5).unwrap_err();
    assert_eq!(e.to_string(), "not found: id 4 not found");
    let e = handle_swap(&mut ctx, 2, 2).unwrap_err();
    assert!(matches!(e, CommandError::InvalidInput(ref m) if m == "source and target IDs are the same"));
}

#[test]
fn ids_are_one_more_than_the_largest() {
    let mut ctx = ready();
    add(&mut ctx, "a", "10.0.0.1");
    add(&mut ctx, "b", "10.0.0.2");
    add(&mut ctx, "c", "10.0.0.3");
    handle_rm(&mut ctx, "b").unwrap();
    add(&mut ctx, "d", "10.0.0.4");
    let store = ctx.storage.load_connections().unwrap();
    assert_eq!(store.find("d").unwrap().id, 4);
    handle_rm(&mut ctx, "d").unwrap();
    add(&mut ctx, "e", "10.0.0.5");
    let store = ctx.storage.load_connections().unwrap();
    assert_eq!(store.find("e").unwrap().id, 4);
}

#[test]
fn add_refuses_when_no_id_is_left() {
    let mut store = ConnectionStore::new();
    store.add(plain("a", "10.0.0.1")).unwrap();
    store.connections[0].id = u32::MAX;
    let e = store.add(plain("b", "10.0.0.2")).unwrap_err();
    assert_eq!(e, "no free connection id");
}

#[test]
fn add_duplicate_message_is_exact() {
    let mut ctx = ready();
    add(&mut ctx, "app", "10.0.0.1");
    let e = handle_add(&mut ctx, &Answer { ok: true }, "app", "10.0.0.9", 22, "root", vec![], None, "pw", "master")
        .unwrap_err();
    assert_eq!(e.to_string(), "serialization error: alias 'app' already exists");
}

#[test]
fn add_passes_on_the_connector_refusal() {
    let mut ctx = ready();
    let e = handle_add(&mut ctx, &Answer { ok: false }, "app", "10.0.0.1", 22, "root", vec![], None, "pw", "master")
        .unwrap_err();
    assert_eq!(e.to_string(), "connection failed: refused");
    assert!(ctx.storage.load_connections().unwrap().connections.is_empty());
}

#[test]
fn show_gives_back_what_add_stored() {
    let mut ctx = ready();
    handle_add(&mut ctx, &Answer { ok: true }, "db", "10.0.0.5", 2222, "admin", vec![], None, "s3cr3t", "master")
        .unwrap();
    assert_eq!(handle_show(&ctx, "db", "master").unwrap(), "s3cr3t");
}

#[test]
fn show_with_wrong_master_reports_wrong_master_password() {
    let mut ctx = ready();
    add(&mut ctx, "app", "10.0.0.1");
    let e = handle_show(&ctx, "app", "nope").unwrap_err();
    assert_eq!(e.to_string(), "Wrong master password");
}

#[test]
fn show_of_unknown_alias_names_it() {
    let ctx = ready();
    let e = handle_show(&ctx, "ghost", "master").unwrap_err();
    assert_eq!(e.to_string(), "not found: password for 'ghost' not found");
}

#[test]
fn resolve_alias_reads_ids_and_aliases() {
    let mut ctx = ready();
    add(&mut ctx, "app", "10.0.0.1");
    add(&mut ctx, "web", "10.0.0.2");
    assert_eq!(ctx.resolve_alias("2").unwrap(), "web");
    assert_eq!(ctx.resolve_alias("+1").unwrap(), "app");
    assert_eq!(ctx.resolve_alias("app").unwrap(), "app");
    assert_eq!(ctx.resolve_alias("-1").unwrap(), "-1");
    let e = ctx.resolve_alias("9").unwrap_err();
    assert_eq!(e.to_string(), "not found: id 9 not found");
}

#[test]
fn parse_u32_follows_std() {
    assert_eq!(parse_u32("0"), Some(0));
    assert_eq!(parse_u32("4294967295"), Some(u32::MAX));
    assert_eq!(parse_u32("4294967296"), None);
    assert_eq!(parse_u32("+7"), Some(7));
    assert_eq!(parse_u32(""), None);
    assert_eq!(parse_u32("+"), None);
    assert_eq!(parse_u32("12a"), None);
}

#[test]
fn dry_run_shows_the_ssh_command() {
    let mut ctx = ready();
    handle_add(&mut ctx, &Answer { ok: true }, "db", "10.0.0.5", 2222, "admin", vec![], None, "pw", "master").unwrap();
    let m = handle_connect_with_password(&ctx, &Answer { ok: true }, "db", "pw", true).unwrap();
    assert_eq!(m, "Would execute: ssh -o StrictHostKeyChecking=no -o ConnectTimeout=10 -p 2222 admin@10.0.0.5");
    let e = handle_connect_with_password(&ctx, &Answer { ok: true }, "nope", "pw", true).unwrap_err();
    assert_eq!(e.to_string(), "not found: nope");
}

#[test]
fn upload_into_a_directory_appends_the_file_name() {
    let mut ctx = ready();
    add(&mut ctx, "app", "10.0.0.1");
    let m = handle_upload(&ctx, &Answer { ok: true }, "app", "./file.txt", "/home/user/docs/", "pw").unwrap();
    assert_eq!(m, "Uploaded ./file.txt -> 10.0.0.1:/home/user/docs/file.txt");
    let m = handle_upload(&ctx, &Answer { ok: true }, "app", "./local.txt", "/home/user/remote.txt", "pw").unwrap();
    assert_eq!(m, "Uploaded ./local.txt -> 10.0.0.1:/home/user/remote.txt");
}

#[test]
fn upload_without_a_file_name_is_refused() {
    let mut ctx = ready();
    add(&mut ctx, "app", "10.0.0.1");
    let e = handle_upload(&ctx, &Answer { ok: true }, "app", "..", "/tmp/", "pw").unwrap_err();
    assert_eq!(e.to_string(), "invalid input: invalid local file name");
    let e = handle_upload(&ctx, &Answer { ok: true }, "nope", "a.txt", "/tmp/", "pw").unwrap_err();
    assert_eq!(e.to_string(), "not found: alias 'nope' not found");
}

#[test]
fn download_into_a_directory_appends_the_file_name() {
    let mut ctx = ready();
    add(&mut ctx, "app", "10.0.0.1");
    let m = handle_download(&ctx, &Answer { ok: true }, "app", "/home/user/file.txt", "./downloads/", "pw").unwrap();
    assert_eq!(m, "Downloaded 10.0.0.1:/home/user/file.txt -> ./downloads/file.txt");
    let m = handle_download(&ctx, &Answer { ok: true }, "app", "/srv/a.log", "C:\\logs\\", "pw").unwrap();
    assert_eq!(m, "Downloaded 10.0.0.1:/srv/a.log -> C:\\logs\\a.log");
    let e = handle_download(&ctx, &Answer { ok: false }, "app", "/srv/a.log", "./x", "pw").unwrap_err();
    assert_eq!(e.to_string(), "connection failed: refused");
    let e = handle_download(&ctx, &Answer { ok: true }, "app", "/", "./dl/", "pw").unwrap_err();
    assert_eq!(e.to_string(), "invalid input: invalid remote file name");
}

#[test]
fn reset_message_counts_connections() {
    let mut ctx = ready();
    add(&mut ctx, "a", "10.0.0.1");
    add(&mut ctx, "b", "10.0.0.2");
    assert_eq!(
        handle_reset(&mut ctx, "new").unwrap(),
        "Reset complete. 2 connection(s) preserved, all passwords cleared."
    );
}

#[test]
fn init_message_names_the_default_directory() {
    let mut ctx = AppContext::new(Storage::new("/tmp/elsewhere"));
    let m = handle_init(&mut ctx, "master").unwrap();
    assert!(m.starts_with("Initialized sshman at "));
    assert!(m.ends_with(".sshman"));
    let e = handle_init(&mut ctx, "master").unwrap_err();
    assert_eq!(e.to_string(), "Already initialized");
}

#[test]
fn edit_password_for_unknown_alias_is_refused() {
    let mut ctx = ready();
    let e = handle_edit(&mut ctx, &Answer { ok: true }, "ghost", None, None, None, None, None, None, Some("x"), Some("m"))
        .unwrap_err();
    assert_eq!(e.to_string(), "not found: alias 'ghost' not found");
}

#[test]
fn edit_rename_to_same_alias_keeps_everything() {
    let mut ctx = ready();
    add(&mut ctx, "app", "10.0.0.1");
    let m = handle_edit(&mut ctx, &Answer { ok: true }, "app", None, Some(2200), None, None, None, Some("app"), None, None)
        .unwrap();
    assert_eq!(m, "Updated connection 'app'");
    let store = ctx.storage.load_connections().unwrap();
    assert_eq!(store.find("app").unwrap().port, 2200);
    assert_eq!(ctx.storage.get_password("app", "master").unwrap(), "pw");
}

#[test]
fn edit_rename_conflict_keeps_field_changes() {
    let mut ctx = ready();
    add(&mut ctx, "app", "10.0.0.1");
    add(&mut ctx, "web", "10.0.0.2");
    let e = handle_edit(&mut ctx, &Answer { ok: true }, "app", Some("10.9.9.9"), None, None, None, None, Some("web"), None, None)
        .unwrap_err();
    assert_eq!(e.to_string(), "already exists: alias 'web' already exists");
    let store = ctx.storage.load_connections().unwrap();
    assert_eq!(store.find("app").unwrap().host, "10.9.9.9");
}

#[test]
fn rm_removes_the_password_too() {
    let mut ctx = ready();
    add(&mut ctx, "app", "10.0.0.1");
    handle_rm(&mut ctx, "app").unwrap();
    assert!(ctx.storage.get_password("app", "master").is_err());
    let e = handle_rm(&mut ctx, "app").unwrap_err();
    assert_eq!(e.to_string(), "not found: alias 'app' not found");
}

#[test]
fn ls_filters_and_orders_by_id() {
    let mut ctx = ready();
    handle_add(&mut ctx, &Answer { ok: true }, "web-1", "10.0.0.1", 22, "root", vec!["web".into()], None, "pw", "master")
        .unwrap();
    handle_add(&mut ctx, &Answer { ok: true }, "db-1", "10.0.0.2", 22, "root", vec!["db".into()], None, "pw", "master")
        .unwrap();
    handle_add(&mut ctx, &Answer { ok: true }, "web-2", "10.0.0.3", 22, "root", vec!["WEB".into()], None, "pw", "master")
        .unwrap();
    handle_swap(&mut ctx, 1, 5).unwrap();

    match handle_ls(&ctx, None, None, false).unwrap() {
        Listing::Table(t) => {
            let aliases: Vec<&str> = t.rows.iter().map(|c| c.alias.as_str()).collect();
            assert_eq!(aliases, vec!["db-1", "web-2", "web-1"]);
            assert_eq!(t.total, 3);
            assert!(t.local_ips.is_none());
        }
        Listing::NoLocalInterfaces => panic!("expected a table"),
    }
    match handle_ls(&ctx, None, Some("web"), false).unwrap() {
        Listing::Table(t) => {
            let aliases: Vec<&str> = t.rows.iter().map(|c| c.alias.as_str()).collect();
            assert_eq!(aliases, vec!["web-2", "web-1"]);
        }
        Listing::NoLocalInterfaces => panic!("expected a table"),
    }
    match handle_ls(&ctx, Some("DB"), None, false).unwrap() {
        Listing::Table(t) => {
            assert_eq!(t.rows.len(), 1);
            assert_eq!(t.rows[0].alias, "db-1");
        }
        Listing::NoLocalInterfaces => panic!("expected a table"),
    }
    let fresh = AppContext::new(Storage::new("/tmp/none"));
    assert!(matches!(handle_ls(&fresh, None, None, false), Err(CommandError::NotInitialized)));
}

#[test]
fn listing_message() {
    assert_eq!(Listing::NoLocalInterfaces.message(), "Could not detect local network interfaces.");
}

#[test]
fn table_cells() {
    let mut c = plain("app", "192.168.1.20");
    c.id = 3;
    c.tags = vec!["web".into(), "nginx".into()];
    c.color = Some("Purple".into());
    let mut d = plain("db", "db.example.com");
    d.id = 7;
    let ips: Vec<IpAddr> = vec!["10.1.1.1".parse().unwrap(), "192.168.1.50".parse().unwrap()];
    let rows = table_rows(&[c, d], Some(ips.as_slice()));
    assert_eq!(rows.len(), 2);
    assert_eq!(rows[0].number, 3);
    assert_eq!(rows[1].number, 7);
    assert_eq!(rows[0].tags, "[web, nginx]");
    assert_eq!(rows[1].tags, "-");
    assert_eq!(rows[0].color, Color::Magenta);
    assert_eq!(rows[1].color, Color::Reset);
    assert_eq!(rows[0].subnet.as_deref(), Some("192.168.1.0/24"));
    assert_eq!(rows[1].subnet.as_deref(), Some("-"));
    let rows = table_rows(&[plain("x", "8.8.8.8")], Some(ips.as_slice()));
    assert_eq!(rows[0].subnet.as_deref(), Some(""));
    let rows = table_rows(&[plain("x", "8.8.8.8")], None);
    assert!(rows[0].subnet.is_none());
}

#[test]
fn subnet_cell_for_ipv6_neighbours() {
    let ips: Vec<IpAddr> = vec!["fe80::1".parse().unwrap()];
    assert_eq!(subnet_cell("fe80::2", &ips), "");
    assert_eq!(subnet_cell("not-an-ip", &ips), "-");
}

#[test]
fn header_and_summary() {
    assert_eq!(table_header(false), vec!["#", "Alias", "Host", "User", "Port", "Tags"]);
    assert_eq!(table_header(true), vec!["#", "Alias", "Host", "User", "Port", "Tags", "Subnet"]);
    assert_eq!(summary_line(2, 5), "2 of 5 connections shown");
    assert_eq!(summary_line(3, 3), "3 connection(s) total");
}

#[test]
fn verify_reply_checks_the_marker() {
    assert!(verify_reply("SSHMAN_OK\n").is_ok());
    let e = verify_reply("  bash: echo: not found \n").unwrap_err();
    assert_eq!(e.to_string(), "connection failed: unexpected output: bash: echo: not found");
}

#[test]
fn trim_removes_unicode_white_space() {
    assert_eq!(trim("\t a b \u{3000}"), "a b");
    assert_eq!(trim("   "), "");
}

#[test]
fn keyword_search_lowercases_unicode() {
    let c = plain("ÀBC-host", "10.0.0.1");
    assert!(c.matches_keyword("àbc"));
    assert!(!c.matches_keyword("xyz"));
}

#[test]
fn base64_known_values() {
    assert_eq!(base64_encode(b"foobar"), "Zm9vYmFy");
    assert_eq!(base64_encode(b"fo"), "Zm8=");
    assert_eq!(base64_encode(b"f"), "Zg==");
    assert_eq!(base64_decode(" Zm9v\nYmE=\r\n").unwrap(), b"fooba".to_vec());
    assert!(matches!(base64_decode("Zm9*"), Err(CryptoError::InvalidFormat)));
}

#[test]
fn decrypt_of_non_age_data_fails_with_decryption_error() {
    let e = decrypt(&base64_encode(b"not an age file"), "m").unwrap_err();
    assert!(matches!(e, CryptoError::DecryptionFailed(_)));
    assert!(matches!(decrypt("***", "m"), Err(CryptoError::InvalidFormat)));
}

#[test]
fn error_messages_are_exact() {
    assert_eq!(CommandError::Storage("s".into()).to_string(), "s");
    assert_eq!(CommandError::ConnectionFailed("c".into()).to_string(), "connection failed: c");
    assert_eq!(CommandError::WrongMasterPassword.to_string(), "wrong master password");
    assert_eq!(
        CommandError::NotInitialized.to_string(),
        "sshman is not initialized. Run 'sshman init' first."
    );
    assert_eq!(ConfigError::DeserializeError("d".into()).to_string(), "deserialization error: d");
    assert_eq!(ConfigError::NotFound("n".into()).to_string(), "not found: n");
    assert_eq!(ConfigError::AlreadyInitialized.to_string(), "already initialized");
    assert_eq!(CryptoError::InvalidFormat.to_string(), "invalid encrypted data format");
    assert_eq!(CryptoError::DecryptionFailed("x".into()).to_string(), "decryption failed: x");
    let e = CommandError::from_config(ConfigError::IoError("disk".into()));
    assert_eq!(e.to_string(), "IO error: disk");
}

#[test]
fn storage_paths_join_the_directory() {
    let s = Storage::new("/tmp/cfg");
    assert_eq!(s.connections_path(), "/tmp/cfg/connections.toml");
    assert_eq!(s.config_path(), "/tmp/cfg/config.toml");
    assert!(Storage::default().base_dir().ends_with(".sshman"));
}

#[test]
fn password_table_is_a_map() {
    let mut t = PasswordTable::new();
    t.insert("a".into(), "1".into());
    t.insert("b".into(), "2".into());
    t.insert("a".into(), "3".into());
    assert_eq!(t.len(), 2);
    assert_eq!(t.get("a").unwrap(), "3");
    assert_eq!(t.remove("a"), Some("3".to_string()));
    assert!(t.get("a").is_none());
    assert_eq!(t.first().map(|(k, v)| (k.clone(), v.clone())), Some(("b".to_string(), "2".to_string())));
}

#[test]
fn connection_records_creation_time() {
    let c = plain("a", "h");
    assert!(c.created_at > 1_600_000_000);
    assert_eq!(c.id, 0);
}

#[test]
fn class_c_comparison_uses_three_octets() {
    assert!(is_ipv4_same_class_c(Ipv4Addr::new(10, 0, 0, 1), Ipv4Addr::new(10, 0, 0, 255)));
    assert!(!is_ipv4_same_class_c(Ipv4Addr::new(10, 0, 0, 1), Ipv4Addr::new(11, 0, 0, 1)));
}

#[test]
fn wrong_master_password_is_a_decryption_error_in_storage() {
    let mut s = Storage::new("/tmp/sshman-storage");
    s.initialize().unwrap();
    s.save_password("app", "secret", "right").unwrap();
    match s.get_password("app", "wrong") {
        Err(ConfigError::DeserializeError(m)) => assert!(m.starts_with("decryption failed: ")),
        _ => panic!("expected a decryption error"),
    }
    match s.get_password("other", "right") {
        Err(ConfigError::NotFound(m)) => assert_eq!(m, "password for 'other' not found"),
        _ => panic!("expected not found"),
    }
}

#[test]
fn rename_moves_the_stored_password() {
    let mut s = Storage::new("/tmp/sshman-storage");
    s.initialize().unwrap();
    s.add_connection(plain("app", "10.0.0.1")).unwrap();
    s.add_connection(plain("web", "10.0.0.2")).unwrap();
    s.save_password("app", "pw-app", "m").unwrap();
    s.rename_connection("app", "api").unwrap();
    assert_eq!(s.get_password("api", "m").unwrap(), "pw-app");
    assert!(matches!(s.get_password("app", "m"), Err(ConfigError::NotFound(_))));
    match s.rename_connection("api", "web") {
        Err(ConfigError::SerializeError(m)) => assert_eq!(m, "alias 'web' already exists"),
        _ => panic!("expected a conflict"),
    }
    match s.rename_connection("zzz", "yyy") {
        Err(ConfigError::NotFound(m)) => assert_eq!(m, "alias 'zzz' not found"),
        _ => panic!("expected not found"),
    }
}

#[test]
fn master_password_check_uses_the_first_entry() {
    let mut ctx = ready();
    assert!(ctx.verify_master_password("anything").unwrap());
    add(&mut ctx, "app", "10.0.0.1");
    assert!(ctx.verify_master_password("master").unwrap());
    assert!(!ctx.verify_master_password("other").unwrap());
    let fresh = AppContext::new(Storage::new("/tmp/none"));
    assert_eq!(fresh.verify_master_password("m").unwrap_err().to_string(), "not found: config.toml not found");
}

#[test]
fn reset_all_without_passwords_accepts_any_master_password() {
    let mut ctx = ready();
    assert!(sshman::commands::handlers::handle_reset_all(&mut ctx, "whatever").is_ok());
    assert!(!ctx.storage.is_initialized());
}

#[test]
fn listing_with_local_addresses() {
    let mut store = ConnectionStore::new();
    store.add(plain("far", "8.8.8.8")).unwrap();
    store.add(plain("near", "192.168.1.7")).unwrap();
    store.add(plain("name", "intranet.local")).unwrap();
    let ips: Vec<IpAddr> = vec!["192.168.1.50".parse().unwrap()];
    let rows = sshman::commands::listing::list_connections(&store, None, None, Some(ips.as_slice()));
    assert_eq!(rows.len(), 1);
    assert_eq!(rows[0].alias, "near");
}

#[test]
fn same_subnet_is_symmetric() {
    let pairs = [("10.0.0.1", "10.0.0.9"), ("10.0.0.1", "10.0.1.1"), ("::1", "10.0.0.1")];
    for (a, b) in pairs {
        let x: IpAddr = a.parse().unwrap();
        let y: IpAddr = b.parse().unwrap();
        assert_eq!(is_in_same_subnet(x, y), is_in_same_subnet(y, x));
    }
}

#[test]
fn ids_stay_distinct_through_changes() {
    let mut ctx = ready();
    add(&mut ctx, "a", "10.0.0.1");
    add(&mut ctx, "b", "10.0.0.2");
    add(&mut ctx, "c", "10.0.0.3");
    handle_swap(&mut ctx, 1, 3).unwrap();
    handle_swap(&mut ctx, 2, 8).unwrap();
    handle_edit(&mut ctx, &Answer { ok: true }, "c", None, None, None, None, None, Some("z"), None, None).unwrap();
    let store = ctx.storage.load_connections().unwrap();
    let mut ids: Vec<u32> = store.connections.iter().map(|c| c.id).collect();
    ids.sort();
    ids.dedup();
    assert_eq!(ids.len(), 3);
    assert_eq!(store.find("z").unwrap().id, 1);
}

#[test]
fn config_dir_is_dot_sshman_in_home() {
    assert_eq!(Storage::dir_in_home(Some("/home/u".to_string())), "/home/u/.sshman");
    assert_eq!(Storage::dir_in_home(None), "./.sshman");
    assert_eq!(Storage::dir_in_home(Some("/home/u/".to_string())), "/home/u/.sshman");
}

#[test]
fn listing_notice_only_for_an_empty_address_list() {
    let mut store = ConnectionStore::new();
    store.add(plain("near", "192.168.1.7")).unwrap();
    assert!(matches!(sshman::commands::listing::listing_for(&store, None, None, Some(vec![])), Listing::NoLocalInterfaces));
    let ips: Vec<IpAddr> = vec!["192.168.1.50".parse().unwrap()];
    match sshman::commands::listing::listing_for(&store, None, None, Some(ips)) {
        Listing::Table(t) => {
            assert_eq!(t.rows.len(), 1);
            assert_eq!(t.total, 1);
            assert!(t.local_ips.is_some());
        }
        Listing::NoLocalInterfaces => panic!("expected a table"),
    }
}
