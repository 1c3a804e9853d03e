use asn_lookup::{line_to_ip_range, IpAddr, IpRange};

#[test]
fn written_line_matches_record() {
    let line = "10.20.30.40\t10.20.30.50\t12345\tVN\tDescription Goes Here";
    let range = line_to_ip_range(line).unwrap();
    assert_eq!(range.to_line(), line);
}

#[test]
fn written_line_is_canonical() {
    let range = line_to_ip_range(" 1.0.0.0 \t1.0.0.255\t+0042\t AU \tSome Net ").unwrap();
    assert_eq!(range.to_line(), "1.0.0.0\t1.0.0.255\t42\tAU\tSome Net");
}

#[test]
fn ipv6_line_round_trips() {
    let range = line_to_ip_range("2001:DB8::\t2001:db8::ffff\t64500\tNL\tDoc").unwrap();
    let line = range.to_line();
    assert_eq!(line, "2001:db8:0:0:0:0:0:0\t2001:db8:0:0:0:0:0:ffff\t64500\tNL\tDoc");
    assert_eq!(line_to_ip_range(&line).unwrap(), range);
}

#[test]
fn extreme_values_round_trip() {
    let range = IpRange {
        start_ip: IpAddr::V6(0),
        end_ip: IpAddr::V6(u128::MAX),
        number: u32::MAX,
        country: "ZZ".to_string(),
        description: "all of it".to_string(),
    };
    let line = range.to_line();
    assert_eq!(
        line,
        "0:0:0:0:0:0:0:0\tffff:ffff:ffff:ffff:ffff:ffff:ffff:ffff\t4294967295\tZZ\tall of it"
    );
    assert_eq!(line_to_ip_range(&line).unwrap(), range);
    let v4 = IpRange {
        start_ip: IpAddr::V4(0),
        end_ip: IpAddr::V4(u32::MAX),
        number: 0,
        country: String::new(),
        description: String::new(),
    };
    assert_eq!(v4.to_line(), "0.0.0.0\t255.255.255.255\t0\t\t");
    assert_eq!(line_to_ip_range(&v4.to_line()).unwrap(), v4);
}
