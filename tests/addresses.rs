use asn_lookup::addr::parse_ip_addr;
use asn_lookup::IpAddr;

#[test]
fn dotted_quads() {
    assert_eq!(parse_ip_addr("0.0.0.0"), Some(IpAddr::V4(0)));
    assert_eq!(parse_ip_addr("255.255.255.255"), Some(IpAddr::V4(u32::MAX)));
    assert_eq!(parse_ip_addr("192.168.1.10"), Some(IpAddr::V4(0xC0A8_010A)));
}

#[test]
fn bad_dotted_quads() {
    assert_eq!(parse_ip_addr("256.0.0.1"), None);
    assert_eq!(parse_ip_addr("1.2.3"), None);
    assert_eq!(parse_ip_addr("1.2.3.4.5"), None);
    assert_eq!(parse_ip_addr("01.2.3.4"), None);
    assert_eq!(parse_ip_addr("1..3.4"), None);
    assert_eq!(parse_ip_addr("1.2.3.4 "), None);
    assert_eq!(parse_ip_addr("+1.2.3.4"), None);
    assert_eq!(parse_ip_addr("1.2.3.0004"), None);
    assert_eq!(parse_ip_addr(""), None);
}

#[test]
fn ipv6_literals() {
    assert_eq!(parse_ip_addr("::"), Some(IpAddr::V6(0)));
    assert_eq!(parse_ip_addr("::1"), Some(IpAddr::V6(1)));
    assert_eq!(
        parse_ip_addr("2001:db8::1"),
        Some(IpAddr::V6(0x2001_0db8_0000_0000_0000_0000_0000_0001))
    );
    assert_eq!(
        parse_ip_addr("1:2:3:4:5:6:7:8"),
        Some(IpAddr::V6(0x0001_0002_0003_0004_0005_0006_0007_0008))
    );
    assert_eq!(
        parse_ip_addr("1:2:3:4:5:6:7::"),
        Some(IpAddr::V6(0x0001_0002_0003_0004_0005_0006_0007_0000))
    );
    assert_eq!(
        parse_ip_addr("::2:3:4:5:6:7:8"),
        Some(IpAddr::V6(0x0000_0002_0003_0004_0005_0006_0007_0008))
    );
    assert_eq!(
        parse_ip_addr("FFFF:abcd::"),
        Some(IpAddr::V6(0xffff_abcd_0000_0000_0000_0000_0000_0000))
    );
}

#[test]
fn ipv6_with_dotted_quad() {
    assert_eq!(
        parse_ip_addr("::ffff:1.2.3.4"),
        Some(IpAddr::V6(0x0000_0000_0000_0000_0000_ffff_0102_0304))
    );
    assert_eq!(
        parse_ip_addr("1:2:3:4:5:6:1.2.3.4"),
        Some(IpAddr::V6(0x0001_0002_0003_0004_0005_0006_0102_0304))
    );
    assert_eq!(parse_ip_addr("1.2.3.4::"), None);
    assert_eq!(parse_ip_addr("::1.2.3.4:5"), None);
    assert_eq!(parse_ip_addr("1:2:3:4:5:6:7:1.2.3.4"), None);
}

#[test]
fn bad_ipv6_literals() {
    assert_eq!(parse_ip_addr("1::2::3"), None);
    assert_eq!(parse_ip_addr(":::"), None);
    assert_eq!(parse_ip_addr("1:2:3:4:5:6:7:8:9"), None);
    assert_eq!(parse_ip_addr("1:2:3:4:5:6:7"), None);
    assert_eq!(parse_ip_addr("1:2:3:4:5:6:7:8::"), None);
    assert_eq!(parse_ip_addr("1:2:3:4::5:6:7:8"), None);
    assert_eq!(parse_ip_addr("12345::"), None);
    assert_eq!(parse_ip_addr("g::"), None);
    assert_eq!(parse_ip_addr(":1::2"), None);
    assert_eq!(parse_ip_addr("1:"), None);
}

#[test]
fn families_are_told_apart() {
    assert!(parse_ip_addr("1.2.3.4").unwrap().is_ipv4());
    assert!(!parse_ip_addr("::1").unwrap().is_ipv4());
}

#[test]
fn every_ipv4_address_precedes_every_ipv6_address() {
    assert!(IpAddr::V4(u32::MAX).le(&IpAddr::V6(0)));
    assert!(!IpAddr::V6(0).le(&IpAddr::V4(0)));
    assert!(IpAddr::V4(3).le(&IpAddr::V4(3)));
    assert!(!IpAddr::V4(4).le(&IpAddr::V4(3)));
}
