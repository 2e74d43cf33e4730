use edt_down_for_me::host::{parse_target, ParseError, Target};

#[test]
fn parses_plain_hostname() {
    let t = parse_target("Google.COM").unwrap();
    assert_eq!(t.display, "google.com");
    assert_eq!(t.host, "google.com");
    assert_eq!(t.port, None);
}

#[test]
fn parses_url() {
    let t = parse_target("https://github.com/foo").unwrap();
    assert_eq!(t.display, "github.com");
    let t = parse_target("HTTPS://GitHub.COM/foo").unwrap();
    assert_eq!(t.display, "github.com");
}

#[test]
fn parses_ipv4() {
    let t = parse_target("8.8.8.8").unwrap();
    assert_eq!(t.display, "8.8.8.8");
}

#[test]
fn parses_ipv4_with_port() {
    let t = parse_target("8.8.8.8:53").unwrap();
    assert_eq!(t.display, "8.8.8.8:53");
    assert_eq!(t.port, Some(53));
}

#[test]
fn default_ports_are_stripped() {
    let t = parse_target("example.com:443").unwrap();
    assert_eq!(t.display, "example.com");
    assert_eq!(t.port, None);
}

#[test]
fn parses_ipv6() {
    let t = parse_target("2001:4860:4860::8888").unwrap();
    assert_eq!(t.host, "2001:4860:4860::8888");
    assert_eq!(t.display, "2001:4860:4860::8888");
}

#[test]
fn parses_bracketed_ipv6_with_port() {
    let t = parse_target("[::1]:8080").unwrap();
    assert_eq!(t.display, "[::1]:8080");
    assert_eq!(t.port, Some(8080));
}

#[test]
fn rejects_empty_and_garbage() {
    assert_eq!(parse_target("  "), Err(ParseError::Empty));
    assert!(parse_target("not a host").is_err());
    assert!(parse_target("http://").is_err());
    assert!(parse_target("-bad.com").is_err());
}

#[test]
fn accepts_localhost() {
    assert_eq!(parse_target("localhost").unwrap().display, "localhost");
}

fn target(display: &str, host: &str, port: Option<u16>) -> Target {
    Target { display: display.to_string(), host: host.to_string(), port }
}

#[test]
fn strips_credentials_path_and_whitespace() {
    assert_eq!(
        parse_target("  http://user:pw@Example.ORG:8443/a/b?c  "),
        Ok(target("example.org:8443", "example.org", Some(8443)))
    );
    assert_eq!(parse_target("//host.example"), Ok(target("host.example", "host.example", None)));
    assert_eq!(parse_target("\t\u{3000}a.b\u{a0}"), Ok(target("a.b", "a.b", None)));
}

#[test]
fn inner_whitespace_is_invalid() {
    assert_eq!(parse_target("a .b"), Err(ParseError::Invalid));
    assert_eq!(parse_target("a\u{2003}b"), Err(ParseError::Invalid));
    assert_eq!(parse_target(" \t\n "), Err(ParseError::Empty));
    assert_eq!(parse_target(""), Err(ParseError::Empty));
}

#[test]
fn ports_are_checked() {
    assert_eq!(parse_target("a.com:0"), Err(ParseError::Invalid));
    assert_eq!(parse_target("a.com:65536"), Err(ParseError::Invalid));
    assert_eq!(parse_target("a.com:65535"), Ok(target("a.com:65535", "a.com", Some(65535))));
    assert_eq!(parse_target("a.com:0080"), Ok(target("a.com", "a.com", None)));
    assert_eq!(parse_target("[::1]:+81"), Ok(target("[::1]:81", "::1", Some(81))));
    assert_eq!(parse_target("[::1]:-81"), Err(ParseError::Invalid));
    assert_eq!(parse_target("[::1]:"), Err(ParseError::Invalid));
    assert_eq!(parse_target("[::1]x"), Err(ParseError::Invalid));
    assert_eq!(parse_target("[::1"), Err(ParseError::Invalid));
    assert_eq!(parse_target("[1.2.3.4]"), Err(ParseError::Invalid));
    assert_eq!(parse_target("[::1]:443"), Ok(target("::1", "::1", None)));
}

#[test]
fn hostnames_are_checked() {
    assert_eq!(parse_target("a-.com"), Err(ParseError::Invalid));
    assert_eq!(parse_target("a..com"), Err(ParseError::Invalid));
    assert_eq!(parse_target(".a.com"), Err(ParseError::Invalid));
    assert_eq!(parse_target("a.com."), Err(ParseError::Invalid));
    assert_eq!(parse_target("a_b.com"), Err(ParseError::Invalid));
    assert_eq!(parse_target("bücher.de"), Err(ParseError::Invalid));
    let label = "a".repeat(63);
    assert!(parse_target(&label).is_ok());
    assert_eq!(parse_target(&"a".repeat(64)), Err(ParseError::Invalid));
    let long = format!("{}.{}.{}.{}", label, label, label, "a".repeat(61));
    assert_eq!(long.len(), 253);
    assert!(parse_target(&long).is_ok());
    assert_eq!(parse_target(&format!("{}a", long)), Err(ParseError::Invalid));
}

#[test]
fn addresses_are_canonical() {
    assert_eq!(
        parse_target("2001:0DB8:0000:0000:0000:0000:0000:0001"),
        Ok(target("2001:db8::1", "2001:db8::1", None))
    );
    assert_eq!(parse_target("::ffff:1.2.3.4"), Ok(target("::ffff:1.2.3.4", "::ffff:1.2.3.4", None)));
    assert_eq!(
        parse_target("::ffff:0102:0304"),
        Ok(target("::ffff:1.2.3.4", "::ffff:1.2.3.4", None))
    );
    assert_eq!(parse_target("1:0:0:1:0:0:0:1"), Ok(target("1:0:0:1::1", "1:0:0:1::1", None)));
    assert_eq!(parse_target("1:0:0:2:0:0:3:4"), Ok(target("1::2:0:0:3:4", "1::2:0:0:3:4", None)));
    assert_eq!(parse_target("1:2:3:4:5:6:7:0"), Ok(target("1:2:3:4:5:6:7:0", "1:2:3:4:5:6:7:0", None)));
    assert_eq!(parse_target("1:2:3:4:5:6:7::"), Ok(target("1:2:3:4:5:6:7:0", "1:2:3:4:5:6:7:0", None)));
    assert_eq!(
        parse_target("1:2:3:4:5:6:7:8:8080"),
        Ok(target("[1:2:3:4:5:6:7:8]:8080", "1:2:3:4:5:6:7:8", Some(8080)))
    );
    // Not IPv4 addresses, but valid hostnames.
    assert_eq!(parse_target("010.1.1.1"), Ok(target("010.1.1.1", "010.1.1.1", None)));
    assert_eq!(parse_target("256.1.1.1"), Ok(target("256.1.1.1", "256.1.1.1", None)));
    assert_eq!(parse_target("0.0.0.0"), Ok(target("0.0.0.0", "0.0.0.0", None)));
}

#[test]
fn tcp_host_brackets_ipv6() {
    assert_eq!(parse_target("[::1]:8080").unwrap().tcp_host(), "[::1]");
    assert_eq!(parse_target("example.com").unwrap().tcp_host(), "example.com");
    assert_eq!(parse_target("1.2.3.4").unwrap().tcp_host(), "1.2.3.4");
}

#[test]
fn probe_ports_default_to_https_then_http() {
    assert_eq!(parse_target("example.com").unwrap().probe_ports(), vec![443, 80]);
    assert_eq!(parse_target("example.com:8080").unwrap().probe_ports(), vec![8080]);
}

#[test]
fn error_messages() {
    assert_eq!(ParseError::Empty.message(), "Enter a host or IP");
    assert_eq!(ParseError::Invalid.message(), "Invalid host or IP");
}

#[test]
fn display_parses_back_to_the_same_target() {
    for raw in [
        "Google.COM",
        "https://GitHub.com:8443/x",
        "8.8.8.8:53",
        "[2001:DB8::0:1]:8080",
        "::FFFF:10.0.0.1",
        "1:2:3:4:5:6:7:8:99",
        "fe80::1",
        "LOCALHOST:80",
    ] {
        let t = parse_target(raw).unwrap();
        assert_eq!(parse_target(&t.display), Ok(t.clone()), "{}", raw);
    }
}

#[test]
fn a_pasted_url_names_its_host() {
    for (url, host) in [
        ("HtTpS://user@Example.com/a/b", "user@Example.com"),
        ("http://[::1]:8080/x", "[::1]:8080"),
        ("//8.8.8.8:53/", "8.8.8.8:53"),
        ("HTTP://localhost", "localhost"),
    ] {
        assert_eq!(parse_target(url), parse_target(host));
        assert!(parse_target(host).is_ok());
    }
}
