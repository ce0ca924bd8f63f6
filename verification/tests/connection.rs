use sshman::models::connection::{Connection, ConnectionStore};
use sshman::network::subnet::IpAddr;

fn make_conn(alias: &str, host: &str) -> Connection {
    Connection::new(alias.to_string(), host.to_string(), 22, "root".to_string())
}

fn make_conn_full(alias: &str, host: &str, tags: Vec<&str>, color: Option<&str>) -> Connection {
    let mut conn = Connection::new(alias.to_string(), host.to_string(), 22, "root".to_string());
    conn.tags = tags.into_iter().map(String::from).collect();
    conn.color = color.map(String::from);
    conn
}

#[test]
fn test_connection_new() {
    let conn = Connection::new("test".into(), "1.2.3.4".into(), 22, "admin".into());
    assert_eq!(conn.alias, "test");
    assert_eq!(conn.host, "1.2.3.4");
    assert_eq!(conn.port, 22);
    assert_eq!(conn.user, "admin");
    assert!(conn.tags.is_empty());
    assert_eq!(conn.color, None);
    assert!(conn.last_connected.is_none());
}

#[test]
fn test_builder_pattern() {
    let conn = make_conn_full("app", "10.0.0.1", vec!["web", "nginx"], Some("red"));
    assert_eq!(conn.tags, vec!["web", "nginx"]);
    assert_eq!(conn.color.as_deref(), Some("red"));
}

#[test]
fn test_display_host() {
    let conn = Connection::new("db".into(), "192.168.1.100".into(), 3306, "admin".into());
    assert_eq!(conn.display_host(), "admin@192.168.1.100:3306");
}

#[test]
fn test_matches_keyword_by_alias() {
    let conn = make_conn("prod-web-01", "10.0.0.1");
    assert!(conn.matches_keyword("prod"));
    assert!(conn.matches_keyword("WEB"));
    assert!(!conn.matches_keyword("staging"));
}

#[test]
fn test_matches_keyword_by_host() {
    let conn = make_conn("app", "192.168.1.100");
    assert!(conn.matches_keyword("192.168"));
    assert!(conn.matches_keyword("1.100"));
}

#[test]
fn test_matches_keyword_by_user() {
    let conn = Connection::new("app".into(), "1.1.1.1".into(), 22, "deployer".into());
    assert!(conn.matches_keyword("deploy"));
}

#[test]
fn test_matches_keyword_by_tag() {
    let conn = make_conn_full("app", "1.1.1.1", vec!["nginx", "web"], None);
    assert!(conn.matches_keyword("nginx"));
    assert!(conn.matches_keyword("WEB"));
}

#[test]
fn test_matches_tag() {
    let conn = make_conn_full("app", "1.1.1.1", vec!["web", "nginx"], None);
    assert!(conn.matches_tag("web"));
    assert!(conn.matches_tag("WEB"));
    assert!(conn.matches_tag("nginx"));
    assert!(!conn.matches_tag("mysql"));
}

#[test]
fn test_is_local_network_same_subnet() {
    let conn = make_conn("app", "192.168.1.100");
    let local_ips: Vec<IpAddr> = vec!["192.168.1.50".parse().unwrap()];
    assert!(conn.is_local_network(&local_ips));
}

#[test]
fn test_is_local_network_different_subnet() {
    let conn = make_conn("app", "10.0.0.100");
    let local_ips: Vec<IpAddr> = vec!["192.168.1.50".parse().unwrap()];
    assert!(!conn.is_local_network(&local_ips));
}

#[test]
fn test_is_local_network_invalid_host() {
    let mut conn = make_conn("app", "example.com");
    conn.host = "example.com".into();
    let local_ips: Vec<IpAddr> = vec!["192.168.1.50".parse().unwrap()];
    assert!(!conn.is_local_network(&local_ips));
}

#[test]
fn test_store_add_and_find() {
    let mut store = ConnectionStore::new();
    let conn = make_conn("app", "10.0.0.1");
    store.add(conn).unwrap();

    let found = store.find("app").unwrap();
    assert_eq!(found.alias, "app");
    assert_eq!(found.host, "10.0.0.1");
}

#[test]
fn test_store_add_duplicate_alias() {
    let mut store = ConnectionStore::new();
    store.add(make_conn("app", "10.0.0.1")).unwrap();
    let result = store.add(make_conn("app", "10.0.0.2"));
    assert!(result.is_err());
    assert!(result.unwrap_err().contains("already exists"));
}

#[test]
fn test_store_remove() {
    let mut store = ConnectionStore::new();
    store.add(make_conn("app", "10.0.0.1")).unwrap();
    let removed = store.remove("app").unwrap();
    assert_eq!(removed.alias, "app");
    assert!(store.find("app").is_none());
}

#[test]
fn test_store_remove_not_found() {
    let mut store = ConnectionStore::new();
    let result = store.remove("nonexist");
    assert!(result.is_err());
    assert!(result.unwrap_err().contains("not found"));
}

#[test]
fn test_store_find_not_found() {
    let store = ConnectionStore::new();
    assert!(store.find("nothing").is_none());
}

#[test]
fn test_store_find_mut() {
    let mut store = ConnectionStore::new();
    store.add(make_conn("app", "10.0.0.1")).unwrap();
    let conn = store.find_mut("app").unwrap();
    conn.host = "10.0.0.2".to_string();
    assert_eq!(store.find("app").unwrap().host, "10.0.0.2");
}

#[test]
fn test_store_search() {
    let mut store = ConnectionStore::new();
    store.add(make_conn("prod-web-01", "192.168.1.100")).unwrap();
    store.add(make_conn("staging-db", "10.0.0.5")).unwrap();
    store.add(make_conn("dev-app", "172.16.0.10")).unwrap();

    let results = store.search("prod");
    assert_eq!(results.len(), 1);
    assert_eq!(results[0].alias, "prod-web-01");

    let results = store.search("192.168");
    assert_eq!(results.len(), 1);

    let results = store.search("nothing");
    assert!(results.is_empty());
}

#[test]
fn test_store_filter_by_tag() {
    let mut store = ConnectionStore::new();
    store.add(make_conn_full("web1", "10.0.0.1", vec!["web", "nginx"], None)).unwrap();
    store.add(make_conn_full("db1", "10.0.0.2", vec!["mysql"], None)).unwrap();
    store.add(make_conn_full("web2", "10.0.0.3", vec!["web"], None)).unwrap();

    let results = store.filter_by_tag("web");
    assert_eq!(results.len(), 2);

    let results = store.filter_by_tag("nginx");
    assert_eq!(results.len(), 1);

    let results = store.filter_by_tag("redis");
    assert!(results.is_empty());
}

#[test]
fn test_store_filter_local() {
    let mut store = ConnectionStore::new();
    store.add(make_conn("local1", "192.168.1.100")).unwrap();
    store.add(make_conn("remote1", "8.8.8.8")).unwrap();
    store.add(make_conn("local2", "192.168.1.200")).unwrap();

    let local_ips: Vec<IpAddr> = vec!["192.168.1.50".parse().unwrap()];
    let results = store.filter_local(&local_ips);
    assert_eq!(results.len(), 2);
}

#[test]
fn test_store_list_all_tags() {
    let mut store = ConnectionStore::new();
    store.add(make_conn_full("a", "1.1.1.1", vec!["web", "nginx"], None)).unwrap();
    store.add(make_conn_full("b", "2.2.2.2", vec!["web", "mysql"], None)).unwrap();

    let tags = store.list_all_tags();
    assert_eq!(tags, vec!["mysql", "nginx", "web"]);
}

#[test]
fn test_store_default() {
    let store = ConnectionStore::default();
    assert!(store.connections.is_empty());
}

#[test]
fn test_store_multiple_local_ips() {
    let mut store = ConnectionStore::new();
    store.add(make_conn("a", "192.168.1.100")).unwrap();
    store.add(make_conn("b", "10.0.0.50")).unwrap();
    store.add(make_conn("c", "8.8.8.8")).unwrap();

    let local_ips: Vec<IpAddr> = vec!["192.168.1.50".parse().unwrap(), "10.0.0.10".parse().unwrap()];
    let results = store.filter_local(&local_ips);
    assert_eq!(results.len(), 2);
}
