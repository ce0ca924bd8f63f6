use sshman::network::subnet::{get_local_ips, is_in_same_subnet, is_ipv4_same_class_c, IpAddr, Ipv4Addr};

#[test]
fn test_same_class_c() {
    let a: IpAddr = "192.168.1.1".parse().unwrap();
    let b: IpAddr = "192.168.1.100".parse().unwrap();
    assert!(is_in_same_subnet(a, b));
}

#[test]
fn test_different_class_c() {
    let a: IpAddr = "192.168.1.1".parse().unwrap();
    let b: IpAddr = "192.168.2.1".parse().unwrap();
    assert!(!is_in_same_subnet(a, b));
}

#[test]
fn test_different_class_b() {
    let a: IpAddr = "192.168.1.1".parse().unwrap();
    let b: IpAddr = "192.169.1.1".parse().unwrap();
    assert!(!is_in_same_subnet(a, b));
}

#[test]
fn test_10_network_same() {
    let a: IpAddr = "10.0.0.1".parse().unwrap();
    let b: IpAddr = "10.0.0.200".parse().unwrap();
    assert!(is_in_same_subnet(a, b));
}

#[test]
fn test_10_network_different() {
    let a: IpAddr = "10.0.0.1".parse().unwrap();
    let b: IpAddr = "10.0.1.1".parse().unwrap();
    assert!(!is_in_same_subnet(a, b));
}

#[test]
fn test_172_network() {
    let a: IpAddr = "172.16.0.10".parse().unwrap();
    let b: IpAddr = "172.16.0.20".parse().unwrap();
    assert!(is_in_same_subnet(a, b));
}

#[test]
fn test_loopback_filtered() {
    let ips = get_local_ips();
    assert!(!ips.iter().any(|ip| ip.is_loopback()));
}

#[test]
fn test_unspecified_filtered() {
    let ips = get_local_ips();
    assert!(!ips.iter().any(|ip| ip.is_unspecified()));
}

#[test]
fn test_ipv4_same_class_c_helper() {
    assert!(is_ipv4_same_class_c(Ipv4Addr::new(192, 168, 1, 1), Ipv4Addr::new(192, 168, 1, 254)));
    assert!(!is_ipv4_same_class_c(Ipv4Addr::new(192, 168, 1, 1), Ipv4Addr::new(192, 168, 2, 1)));
}

#[test]
fn test_mixed_ip_versions() {
    let v4: IpAddr = "192.168.1.1".parse().unwrap();
    let v6: IpAddr = "::1".parse().unwrap();
    assert!(!is_in_same_subnet(v4, v6));
}
