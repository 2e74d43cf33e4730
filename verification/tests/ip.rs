use edt_down_for_me::ip::{ip_to_text, parse_ip, IpAddress};

fn text_of(s: &str) -> Option<String> {
    let v: Vec<char> = s.chars().collect();
    parse_ip(&v).map(|a| ip_to_text(&a).into_iter().collect())
}

#[test]
fn ipv4_forms() {
    let v: Vec<char> = "192.168.0.255".chars().collect();
    assert_eq!(parse_ip(&v), Some(IpAddress::V4([192, 168, 0, 255])));
    assert_eq!(text_of("0.0.0.0").as_deref(), Some("0.0.0.0"));
    assert_eq!(text_of("255.255.255.255").as_deref(), Some("255.255.255.255"));
    for bad in ["", "1.2.3", "1.2.3.4.5", "256.0.0.0", "01.2.3.4", "1.2.3.04", "1.2.3.4 ", "+1.2.3.4",
        "1.2.3.+4", "1..2.3", "1.2.3.", ".1.2.3", "1.2.3.1000", "a.b.c.d"] {
        assert_eq!(text_of(bad), None, "{:?}", bad);
    }
}

#[test]
fn ipv6_forms() {
    let v: Vec<char> = "1:2:3:4:5:6:7:8".chars().collect();
    assert_eq!(parse_ip(&v), Some(IpAddress::V6([1, 2, 3, 4, 5, 6, 7, 8])));
    let cases = [
        ("::", Some("::")),
        ("::1", Some("::1")),
        ("1::", Some("1::")),
        ("ABCD::EF01", Some("abcd::ef01")),
        ("0001:0002::", Some("1:2::")),
        ("1:2:3:4:5:6:7::", Some("1:2:3:4:5:6:7:0")),
        ("::2:3:4:5:6:7:8", Some("0:2:3:4:5:6:7:8")),
        ("1::2:3:4:5:6:7", Some("1:0:2:3:4:5:6:7")),
        ("0:0:0:0:0:0:0:0", Some("::")),
        ("1:0:0:0:0:0:0:0", Some("1::")),
        ("1:0:1:0:0:1:0:0", Some("1:0:1::1:0:0")),
        ("0:0:1:0:0:1:0:0", Some("::1:0:0:1:0:0")),
        ("::ffff:1.2.3.4", Some("::ffff:1.2.3.4")),
        ("0:0:0:0:0:ffff:102:304", Some("::ffff:1.2.3.4")),
        ("::ffff:0:0", Some("::ffff:0.0.0.0")),
        ("::1.2.3.4", Some("::102:304")),
        ("0:0:0:0:0:fffe:102:304", Some("::fffe:102:304")),
        ("1:2:3:4:5:6:1.2.3.4", Some("1:2:3:4:5:6:102:304")),
        ("1:2:3:4:5::1.2.3.4", Some("1:2:3:4:5:0:102:304")),
        ("::0.0.0.0", Some("::")),
        (":", None),
        (":::", None),
        ("1:::2", None),
        ("1::2::3", None),
        ("1:2:3:4:5:6:7:8:9", None),
        ("1:2:3:4:5:6::1.2.3.4", None),
        ("1:2:3:4:5:6:7:1.2.3.4", None),
        ("1.2.3.4::", None),
        ("1.2.3.4:1:2:3:4:5:6", None),
        ("12345::", None),
        ("::12345", None),
        ("1:2:3:4:5:6:7:8:", None),
        (":1:2:3:4:5:6:7", None),
        ("::1.2.3", None),
        ("::1.2.3.4a", None),
        ("g::1", None),
        ("fe80::1%1", None),
        ("1::2:3:4:5:6:7:8", None),
        ("1:2:3:4:5:6:7", None),
        ("::1.2.3.04", None),
    ];
    for (input, expected) in cases {
        assert_eq!(text_of(input).as_deref(), expected, "{:?}", input);
    }
}

#[test]
fn canonical_text_parses_back() {
    let mut seed: u64 = 0x9e3779b97f4a7c15;
    for _ in 0..3000 {
        let mut g = [0u16; 8];
        for x in g.iter_mut() {
            seed ^= seed << 13;
            seed ^= seed >> 7;
            seed ^= seed << 17;
            *x = match seed % 4 {
                0 | 1 => 0,
                2 => (seed >> 20) as u16,
                _ => (seed >> 40) as u16 & 0xff,
            };
        }
        if seed % 7 == 0 {
            g[..5].copy_from_slice(&[0, 0, 0, 0, 0]);
            g[5] = 0xffff;
        }
        let text: String = ip_to_text(&IpAddress::V6(g)).into_iter().collect();
        let chars: Vec<char> = text.chars().collect();
        assert_eq!(parse_ip(&chars), Some(IpAddress::V6(g)), "{}", text);
        assert!(!text.contains(":::"));
    }
}
