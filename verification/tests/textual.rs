use zond::iptext::{ipv4_to_string, parse_ip, parse_ipv4, parse_ipv6, reverse_address_to_ptr};
use zond::net::{get_ipv6_type, is_private, IpAddress, Ipv6AddressType, Mac};
use zond::redact;

fn v4(a: u8, b: u8, c: u8, d: u8) -> u32 {
    ((a as u32) << 24) | ((b as u32) << 16) | ((c as u32) << 8) | (d as u32)
}

fn segs(s: [u16; 8]) -> u128 {
    let mut v: u128 = 0;
    for x in s {
        v = (v << 16) | (x as u128);
    }
    v
}

#[test]
fn test_redact_hostname_standard() {
    assert_eq!(redact::hostname("kabelbox.local"), "kaXXXXXal");
    assert_eq!(redact::hostname("raspberrypi"), "raXXXXXpi");
}

#[test]
fn test_redact_hostname_short() {
    assert_eq!(redact::hostname("ipad"), "XXXXX");
    assert_eq!(redact::hostname("pc"), "XXXXX");
    assert_eq!(redact::hostname(""), "XXXXX");
}

#[test]
fn test_redact_hostname_medium() {
    assert_eq!(redact::hostname("iphone"), "ipXXXXXne");
}

#[test]
fn test_redact_mac_addr() {
    let mac = Mac::new(0x2c, 0xcf, 0x67, 0xf2, 0x51, 0xe3);
    assert_eq!(redact::mac_addr(&mac), "2c:cf:67:XX:XX:XX");
}

#[test]
fn mac_redaction_standard() {
    let mac = Mac::new(0x2c, 0xcf, 0x67, 0xf2, 0x51, 0xe3);
    assert_eq!(redact::mac_addr(&mac), "2c:cf:67:XX:XX:XX");
}

#[test]
fn mac_redaction_leading_zeros() {
    let mac = Mac::new(0x00, 0x05, 0x09, 0xaa, 0xbb, 0xcc);
    assert_eq!(redact::mac_addr(&mac), "00:05:09:XX:XX:XX");
}

#[test]
fn mac_redaction_upper_boundary() {
    let mac = Mac::new(0xff, 0xff, 0xff, 0x00, 0x11, 0x22);
    assert_eq!(redact::mac_addr(&mac), "ff:ff:ff:XX:XX:XX");
}

#[test]
fn gua_redaction_standard() {
    let ip = segs([0x2001, 0xdb8, 0x0, 0x0, 0x8a2e, 0x370, 0x7334, 0x1234]);
    assert_eq!(redact::global_unicast(ip), "2001::XXXX");
}

#[test]
fn gua_redaction_short_prefix() {
    let ip = segs([0x2001, 0, 0, 0, 0, 0, 0, 0x1]);
    assert_eq!(redact::global_unicast(ip), "2001::XXXX");
}

#[test]
fn lla_redaction_standard() {
    let ip = parse_ipv6("fe80::ca52:61ff:fec7:594").unwrap();
    assert_eq!(redact::link_local(ip), "fe80::ca52:61ff:XXXX:XXXX");
}

#[test]
fn lla_redaction_zero_segments() {
    let ip = parse_ipv6("fe80::ff:fe00:1").unwrap();
    assert_eq!(redact::link_local(ip), "fe80::0:ff:XXXX:XXXX");
}

#[test]
fn ula_redaction_standard() {
    let ip = segs([0xfd12, 0x3456, 0x789a, 0x1, 0xa8b2, 0xc3d4, 0xe5f6, 0x1234]);
    assert_eq!(redact::unique_local(ip), "fd12::XXXX");
}

#[test]
fn ula_redaction_zero_compression() {
    let ip = parse_ipv6("fd00::1").unwrap();
    assert_eq!(redact::unique_local(ip), "fd00::XXXX");
}

#[test]
fn ula_redaction_hides_global_id() {
    let ip1 = parse_ipv6("fd00:1111:1111::1").unwrap();
    let ip2 = parse_ipv6("fd00:2222:2222::1").unwrap();
    assert_eq!(redact::unique_local(ip1), redact::unique_local(ip2));
    assert_eq!(redact::unique_local(ip1), "fd00::XXXX");
}

#[test]
fn ipv4_text_round_trips() {
    let a = v4(203, 0, 113, 7);
    let text = ipv4_to_string(a);
    assert_eq!(text, "203.0.113.7");
    assert_eq!(parse_ipv4(&text), Some(a));
}

#[test]
fn ipv4_parser_rejects_malformed_quads() {
    assert_eq!(parse_ipv4("1.2.3"), None);
    assert_eq!(parse_ipv4("1.2.3.4.5"), None);
    assert_eq!(parse_ipv4("256.1.1.1"), None);
    assert_eq!(parse_ipv4("01.2.3.4"), None);
    assert_eq!(parse_ipv4("a.b.c.d"), None);
    assert_eq!(parse_ipv4(""), None);
}

#[test]
fn ipv6_parser_reads_full_and_compressed_forms() {
    assert_eq!(parse_ipv6("::1"), Some(1));
    assert_eq!(parse_ipv6("::"), Some(0));
    assert_eq!(
        parse_ipv6("2001:db8:0:0:0:0:0:1"),
        Some(segs([0x2001, 0xdb8, 0, 0, 0, 0, 0, 1]))
    );
    assert_eq!(parse_ipv6("2001:db8::1"), Some(segs([0x2001, 0xdb8, 0, 0, 0, 0, 0, 1])));
    assert_eq!(parse_ipv6("fe80::1"), Some(segs([0xfe80, 0, 0, 0, 0, 0, 0, 1])));
    assert_eq!(parse_ipv6("1:2:3:4:5:6:7::"), Some(segs([1, 2, 3, 4, 5, 6, 7, 0])));
    assert_eq!(parse_ipv6("FE80::A"), Some(segs([0xfe80, 0, 0, 0, 0, 0, 0, 0xa])));
}

#[test]
fn ipv6_parser_rejects_malformed_text() {
    assert_eq!(parse_ipv6(":"), None);
    assert_eq!(parse_ipv6(":::"), None);
    assert_eq!(parse_ipv6("1:2:3"), None);
    assert_eq!(parse_ipv6("1:2:3:4:5:6:7:8:9"), None);
    assert_eq!(parse_ipv6("1::2::3"), None);
    assert_eq!(parse_ipv6("12345::"), None);
    assert_eq!(parse_ipv6("g::1"), None);
}

#[test]
fn parse_ip_picks_the_family_by_shape() {
    assert_eq!(parse_ip("10.0.0.1"), Some(IpAddress::V4(v4(10, 0, 0, 1))));
    assert_eq!(parse_ip("::1"), Some(IpAddress::V6(1)));
    assert_eq!(parse_ip("neither"), None);
}

#[test]
fn reverse_ptr_name_for_ipv4() {
    let name = reverse_address_to_ptr(&IpAddress::V4(v4(192, 168, 1, 7)));
    assert_eq!(name, "7.1.168.192.in-addr.arpa");
}

#[test]
fn reverse_ptr_name_for_ipv6() {
    let ip = parse_ipv6("2001:db8::567:89ab").unwrap();
    let name = reverse_address_to_ptr(&IpAddress::V6(ip));
    assert_eq!(
        name,
        "b.a.9.8.7.6.5.0.0.0.0.0.0.0.0.0.0.0.0.0.0.0.0.0.8.b.d.0.1.0.0.2.ip6.arpa"
    );
}

#[test]
fn ipv6_type_classification() {
    assert_eq!(
        get_ipv6_type(segs([0x2001, 0xdb8, 0, 0, 0, 0, 0, 1])),
        Ipv6AddressType::GlobalUnicast
    );
    assert_eq!(get_ipv6_type(segs([0xfd00, 0, 0, 0, 0, 0, 0, 1])), Ipv6AddressType::UniqueLocal);
    assert_eq!(get_ipv6_type(segs([0xfe80, 0, 0, 0, 0, 0, 0, 1])), Ipv6AddressType::LinkLocal);
    assert_eq!(get_ipv6_type(1), Ipv6AddressType::Loopback);
    assert_eq!(get_ipv6_type(segs([0xff02, 0, 0, 0, 0, 0, 0, 1])), Ipv6AddressType::Unspecified);
}

#[test]
fn private_address_classification() {
    assert!(is_private(&IpAddress::V4(v4(10, 1, 2, 3))));
    assert!(is_private(&IpAddress::V4(v4(172, 16, 0, 1))));
    assert!(is_private(&IpAddress::V4(v4(172, 31, 255, 255))));
    assert!(!is_private(&IpAddress::V4(v4(172, 32, 0, 1))));
    assert!(is_private(&IpAddress::V4(v4(192, 168, 0, 1))));
    assert!(!is_private(&IpAddress::V4(v4(8, 8, 8, 8))));
    assert!(is_private(&IpAddress::V6(segs([0xfe80, 0, 0, 0, 0, 0, 0, 1]))));
    assert!(is_private(&IpAddress::V6(segs([0xfd00, 0, 0, 0, 0, 0, 0, 1]))));
    assert!(!is_private(&IpAddress::V6(segs([0x2001, 0xdb8, 0, 0, 0, 0, 0, 1]))));
}

#[test]
fn resolv_conf_yields_first_nameserver() {
    let lines = vec![
        "# generated".to_string(),
        "search lan".to_string(),
        "nameserver 192.168.1.1".to_string(),
        "nameserver 1.1.1.1".to_string(),
    ];
    let (ip, port) = zond::services::parse_resolv_conf(&lines).unwrap();
    assert_eq!(ip, IpAddress::V4(v4(192, 168, 1, 1)));
    assert_eq!(port, 53);
}

#[test]
fn resolv_conf_without_nameserver_yields_nothing() {
    let lines = vec!["search lan".to_string()];
    assert!(zond::services::parse_resolv_conf(&lines).is_none());
}

#[test]
fn service_listing_parses_and_groups() {
    let lines = vec![
        "tcp LISTEN 0 128 0.0.0.0:22 0.0.0.0:* users:((\"sshd\",pid=123,fd=3))".to_string(),
        "tcp LISTEN 0 128 0.0.0.0:80 0.0.0.0:* users:((\"nginx\",pid=5,fd=6))".to_string(),
        "tcp ESTAB 0 0 10.0.0.5:22 10.0.0.9:51000 users:((\"sshd\",pid=123,fd=4))".to_string(),
        "udp UNCONN 0 0 127.0.0.1:53 0.0.0.0:* users:((\"dnsmasq\",pid=77,fd=4))".to_string(),
    ];
    let groups = zond::services::parse_local_services(&lines);
    assert_eq!(groups.len(), 2);
    let any = &groups[0];
    assert_eq!(any.ip_addr, IpAddress::V4(0));
    assert_eq!(any.tcp_services.len(), 2);
    assert_eq!(any.tcp_services[0].name, "sshd");
    assert_eq!(any.tcp_services[0].local_ports.as_slice(), &[22]);
    assert_eq!(any.tcp_services[1].name, "nginx");
    let local = &groups[1];
    assert_eq!(local.ip_addr, IpAddress::V4(v4(127, 0, 0, 1)));
    assert_eq!(local.udp_services.len(), 1);
    assert_eq!(local.udp_services[0].local_ports.as_slice(), &[53]);
}
