use edt_down_for_me::host::parse_target;
use edt_down_for_me::ip::{parse_ip, precedes, IpAddress};
use edt_down_for_me::probe::{
    distinct_addresses, host_port, http_destination, http_head_request, is_http_response,
    probe_plan, Probe, PROBE_CYCLE_SECS,
};

#[test]
fn plan_for_a_name_without_port() {
    let t = parse_target("example.com").unwrap();
    let v4 = IpAddress::V4([1, 2, 3, 4]);
    let v6 = IpAddress::V6([0, 0, 0, 0, 0, 0, 0, 1]);
    let plan = probe_plan(&t, &vec![v4, v6], true, false);
    assert_eq!(
        plan,
        vec![
            Probe::Ping(v4),
            Probe::Tcp(v4, 443),
            Probe::Tcp(v4, 80),
            Probe::Tcp(v6, 443),
            Probe::Tcp(v6, 80),
            Probe::TcpHost("example.com".to_string(), 443),
            Probe::TcpHost("example.com".to_string(), 80),
            Probe::HttpHead("example.com".to_string(), 80),
        ]
    );
}

#[test]
fn plan_for_an_address_with_port() {
    let t = parse_target("[::1]:8080").unwrap();
    let v6 = IpAddress::V6([0, 0, 0, 0, 0, 0, 0, 1]);
    let plan = probe_plan(&t, &vec![v6], true, true);
    assert_eq!(
        plan,
        vec![
            Probe::Ping(v6),
            Probe::Tcp(v6, 8080),
            Probe::TcpHost("[::1]".to_string(), 8080),
            Probe::HttpHead("::1".to_string(), 80),
        ]
    );
}

#[test]
fn http_helpers() {
    assert_eq!(host_port("[::1]", 443), "[::1]:443");
    assert_eq!(http_destination("::1", 80), "[::1]:80");
    assert_eq!(http_destination("example.com", 80), "example.com:80");
    assert_eq!(
        http_head_request("example.com"),
        "HEAD / HTTP/1.0\r\nHost: example.com\r\nUser-Agent: edt-down-for-me/0.1\r\nConnection: close\r\n\r\n"
    );
    let mut buf = [0u8; 12];
    buf[..8].copy_from_slice(b"HTTP/1.1");
    assert!(is_http_response(&buf, 8));
    assert!(!is_http_response(&buf, 4));
    assert!(!is_http_response(b"HTTX/1.1", 8));
    assert!(!is_http_response(b"HTT", 3));
}

fn addr(t: &str) -> IpAddress {
    parse_ip(&t.chars().collect()).unwrap()
}

#[test]
fn addresses_are_sorted_and_deduplicated() {
    let texts = ["::1", "10.0.0.2", "9.255.255.255", "10.0.0.2", "2001:db8::1", "::1", "1.1.1.1"];
    let mine: Vec<IpAddress> = texts.iter().map(|t| addr(t)).collect();
    let got = distinct_addresses(&mine);
    let expected: Vec<IpAddress> = ["1.1.1.1", "9.255.255.255", "10.0.0.2", "::1", "2001:db8::1"]
        .iter()
        .map(|t| addr(t))
        .collect();
    assert_eq!(got, expected);
    assert_eq!(got[0], IpAddress::V4([1, 1, 1, 1]));
    assert_eq!(got[4], IpAddress::V6([0x2001, 0xdb8, 0, 0, 0, 0, 0, 1]));
    assert!(distinct_addresses(&vec![]).is_empty());
}

#[test]
fn address_order_puts_ipv4_first() {
    let a = IpAddress::V4([255, 255, 255, 255]);
    let b = IpAddress::V6([0, 0, 0, 0, 0, 0, 0, 0]);
    assert!(precedes(&a, &b));
    assert!(!precedes(&b, &a));
    assert!(!precedes(&a, &a));
    assert!(precedes(&IpAddress::V4([9, 255, 0, 0]), &IpAddress::V4([10, 0, 0, 0])));
    assert!(precedes(
        &IpAddress::V6([1, 0, 0, 0, 0, 0, 0, 0xffff]),
        &IpAddress::V6([1, 0, 0, 0, 0, 0, 1, 0])
    ));
}

#[test]
fn http_fallback_is_planned_for_a_custom_port_too() {
    let t = parse_target("example.com:8443").unwrap();
    let plan = probe_plan(&t, &vec![], false, false);
    assert_eq!(
        plan,
        vec![
            Probe::TcpHost("example.com".to_string(), 8443),
            Probe::HttpHead("example.com".to_string(), 80),
        ]
    );
    assert_eq!(PROBE_CYCLE_SECS, 6);
}
