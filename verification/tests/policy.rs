//! Policies, hosts and addresses.
use serde_json::Value;
use world::ip::{public_ip, Ip};
use world::policy::{authority, canonical_host, Endpoint, HostError, Policy, PolicyError};

/// A policy document, strictly: known fields only, `allow` optional.
fn parse(data: &[u8]) -> Option<Policy> {
    let value: Value = serde_json::from_slice(data).ok()?;
    let fields = value.as_object()?;
    if fields.keys().any(|k| k != "network_id" && k != "allow") {
        return None;
    }
    let network_id = fields.get("network_id")?.as_str()?.to_string();
    let mut allow = Vec::new();
    if let Some(list) = fields.get("allow") {
        for entry in list.as_array()? {
            let entry = entry.as_object()?;
            if entry.keys().any(|k| k != "host" && k != "port") {
                return None;
            }
            allow.push(Endpoint {
                host: entry.get("host")?.as_str()?.to_string(),
                port: u16::try_from(entry.get("port")?.as_u64()?).ok()?,
            });
        }
    }
    Some(Policy { network_id, allow })
}

fn read(text: &str) -> Result<Policy, PolicyError> {
    Policy::read(text.as_bytes(), parse)
}

fn policy(id: &str, allow: &[(&str, u16)]) -> Policy {
    Policy {
        network_id: id.to_string(),
        allow: allow.iter().map(|(h, p)| Endpoint { host: h.to_string(), port: *p }).collect(),
    }
}

#[test]
fn strict_policy() {
    for input in [
        "{}",
        "null",
        r#"{"network_id":"a","unknown":true}"#,
        r#"{"network_id":"a"} {}"#,
        r#"{"network_id":"a","allow":[{"host":"*","port":80}]}"#,
        r#"{"network_id":"a","allow":[{"host":"x","port":0}]}"#,
    ] {
        assert!(read(input).is_err(), "{input}");
    }
    assert!(read(r#"{"network_id":"a","allow":[]}"#).is_ok());
}

#[test]
fn each_fault_has_its_error() {
    assert_eq!(read("null").err(), Some(PolicyError::Syntax));
    assert_eq!(policy("", &[]).validate(), Err(PolicyError::NetworkId));
    assert_eq!(policy("a\nb", &[]).validate(), Err(PolicyError::NetworkId));
    assert_eq!(policy("a\rb", &[]).validate(), Err(PolicyError::NetworkId));
    assert_eq!(policy("a\0b", &[]).validate(), Err(PolicyError::NetworkId));
    assert_eq!(policy(&"x".repeat(129), &[]).validate(), Err(PolicyError::NetworkId));
    assert_eq!(policy(&"x".repeat(128), &[]).validate(), Ok(()));
    assert_eq!(
        policy("a", &[("*", 80)]).validate(),
        Err(PolicyError::Host(HostError::InvalidHost))
    );
    assert_eq!(
        policy("a", &[("0.0.0.0", 80)]).validate(),
        Err(PolicyError::Host(HostError::UnsupportedIp))
    );
    assert_eq!(policy("a", &[("x", 0)]).validate(), Err(PolicyError::Port));
    let many = vec![("x", 80u16); 257];
    assert_eq!(policy("a", &many).validate(), Err(PolicyError::TooMany));
    assert_eq!(policy("a", &many[..256]).validate(), Ok(()));
    let large = format!("{{\"network_id\":\"a\"}}{}", " ".repeat(64 * 1024));
    assert_eq!(read(&large).err(), Some(PolicyError::TooLarge));
    assert_eq!(PolicyError::TooLarge.message(), "policy exceeds 64 KiB");
    assert_eq!(PolicyError::Port.message(), "destination port must be positive");
    assert_eq!(
        PolicyError::Host(HostError::UnsupportedIp).message(),
        "unsupported destination IP"
    );
}

#[test]
fn hosts_have_one_form() {
    for (input, expected) in [
        ("Example.COM.", "example.com"),
        ("example.com", "example.com"),
        ("127.0.0.1", "127.0.0.1"),
        ("::1", "::1"),
        ("2001:DB8:0:0:0:0:0:1", "2001:db8::1"),
        ("a-b.c9", "a-b.c9"),
    ] {
        assert_eq!(canonical_host(input).as_deref(), Ok(expected), "{input}");
    }
    for input in ["", "*", "a b", "a..b", "-a", "a-", "a_b", "[::1]", "host/path"] {
        assert_eq!(canonical_host(input), Err(HostError::InvalidHost), "{input}");
    }
    for input in ["0.0.0.0", "::", "224.0.0.1", "ff02::1"] {
        assert_eq!(canonical_host(input), Err(HostError::UnsupportedIp), "{input}");
    }
}

#[test]
fn canonical_hosts_stay_as_they_are() {
    for input in ["Example.COM.", "10.0.0.1", "2001:db8::0:1", "x"] {
        let once = canonical_host(input).unwrap();
        assert_eq!(canonical_host(&once), Ok(once.clone()), "{input}");
        assert!(!once.is_empty() && !once.ends_with('.'), "{input}");
        assert_eq!(once, once.to_ascii_lowercase(), "{input}");
    }
}

#[test]
fn authorities_bracket_addresses_with_colons() {
    assert_eq!(authority("example.com", 443), "example.com:443");
    assert_eq!(authority("127.0.0.1", 1), "127.0.0.1:1");
    assert_eq!(authority("::1", 65535), "[::1]:65535");
    assert_ne!(authority("::1", 1), authority("::1:1", 0));
    assert_ne!(authority("[::1]", 1), authority("::1", 1));
    assert_ne!(authority("", 80), authority(":", 80));
}

fn ip(text: &str) -> Option<Ip> {
    Ip::parse(&text.chars().collect::<Vec<char>>())
}

fn shown(ip: Ip) -> String {
    ip.text().into_iter().collect()
}

#[test]
fn literals_read_and_print_as_the_standard_library_does() {
    for text in [
        "0.0.0.0",
        "1.2.3.4",
        "255.255.255.255",
        "::",
        "::1",
        "1::",
        "1:2:3:4:5:6:7:8",
        "2001:db8::1",
        "2001:0db8:0000:0000:0001:0000:0000:0001",
        "::ffff:1.2.3.4",
        "::1.2.3.4",
        "64:ff9b::1.2.3.4",
        "fe80::1:0:0:1",
        "1:0:0:2:0:0:0:3",
        "1.2.3",
        "1.2.3.4.5",
        "01.2.3.4",
        "256.1.1.1",
        "1.2.3.+4",
        ":1",
        "1:",
        "1::2::3",
        "12345::",
        "1:2:3:4:5:6:7",
        "1:2:3:4:5:6:7:8:9",
        "1:2:3:4:5:6:1.2.3.4",
        "::1.2.3.4:5",
        "fe80::1%eth0",
        "",
        " 1.2.3.4",
    ] {
        let expected = text.parse::<core::net::IpAddr>().ok();
        // A mapped address goes by its IPv4 address.
        let expected = expected.map(|a| a.to_canonical().to_string());
        assert_eq!(ip(text).map(shown), expected, "{text}");
    }
}

#[test]
fn printed_addresses_read_back() {
    for a in [
        Ip::V4([9, 8, 7, 6]),
        Ip::V6([0, 0, 0, 0, 0, 0, 0, 0]),
        Ip::V6([0x2001, 0xdb8, 0, 0, 1, 0, 0, 0]),
    ] {
        assert_eq!(ip(&shown(a)), Some(a));
    }
    let mapped = Ip::V6([0, 0, 0, 0, 0, 0xffff, 0x0102, 0x0304]);
    assert_eq!(ip(&shown(mapped)), Some(Ip::V4([1, 2, 3, 4])));
}

#[test]
fn special_addresses_are_not_public() {
    for text in [
        "10.0.0.1",
        "172.16.0.1",
        "172.31.255.255",
        "192.168.1.1",
        "127.0.0.1",
        "169.254.1.1",
        "0.0.0.0",
        "224.0.0.1",
        "255.255.255.255",
        "192.0.2.1",
        "198.51.100.1",
        "203.0.113.1",
        "::1",
        "::",
        "ff02::1",
        "fc00::1",
        "fd12::1",
        "fe80::1",
        "::ffff:127.0.0.1",
        "::ffff:10.0.0.1",
    ] {
        assert!(!public_ip(ip(text).unwrap()), "{text}");
    }
    for text in ["1.1.1.1", "172.32.0.1", "192.0.3.1", "2606:4700::1", "::ffff:8.8.8.8"] {
        assert!(public_ip(ip(text).unwrap()), "{text}");
    }
}
