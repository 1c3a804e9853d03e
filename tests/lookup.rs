use asn_lookup::addr::parse_ip_addr;
use asn_lookup::record::line_to_ip_range;
use asn_lookup::{find_asn, IpAddr, IpRange};

fn table() -> Vec<IpRange> {
    vec![
        line_to_ip_range("1.0.0.0\t1.0.0.255\t1\tAU\tAS1").unwrap(),
        line_to_ip_range("1.0.1.0\t1.0.1.255\t2\tCN\tAS2").unwrap(),
    ]
}

#[test]
fn lookup_finds_containing_range() {
    let found = find_asn(&table(), parse_ip_addr("1.0.1.10").unwrap()).unwrap();
    assert_eq!(found.number, 2);
    assert_eq!(found.description, "AS2");
    assert_eq!(found, table()[1]);
}

#[test]
fn lookup_in_gap_finds_nothing() {
    assert_eq!(find_asn(&table(), parse_ip_addr("1.0.2.10").unwrap()), None);
    assert_eq!(find_asn(&table(), parse_ip_addr("0.255.255.255").unwrap()), None);
}

#[test]
fn range_ends_are_inclusive() {
    let t = table();
    for r in &t {
        assert_eq!(find_asn(&t, r.start_ip).as_ref(), Some(r));
        assert_eq!(find_asn(&t, r.end_ip).as_ref(), Some(r));
    }
}

#[test]
fn empty_table_finds_nothing() {
    assert_eq!(find_asn(&[], IpAddr::V4(0)), None);
    assert_eq!(find_asn(&[], IpAddr::V6(u128::MAX)), None);
}

#[test]
fn lookup_over_many_ranges() {
    let mut t = Vec::new();
    for i in 0..100u32 {
        let line = format!("10.0.{}.0\t10.0.{}.127\t{}\tXX\tnet {}", i, i, i, i);
        t.push(line_to_ip_range(&line).unwrap());
    }
    for i in 0..100u32 {
        let inside = parse_ip_addr(&format!("10.0.{}.64", i)).unwrap();
        assert_eq!(find_asn(&t, inside).unwrap().number, i);
        let gap = parse_ip_addr(&format!("10.0.{}.200", i)).unwrap();
        assert_eq!(find_asn(&t, gap), None);
    }
}

#[test]
fn ipv6_table_lookup() {
    let t = vec![
        line_to_ip_range("2001:db8::\t2001:db8::ffff\t10\tNL\ta").unwrap(),
        line_to_ip_range("2001:db8::1:0\t2001:db8::1:ffff\t20\tDE\tb").unwrap(),
    ];
    let found = find_asn(&t, parse_ip_addr("2001:db8::1:5").unwrap()).unwrap();
    assert_eq!(found.number, 20);
    assert_eq!(find_asn(&t, parse_ip_addr("2001:db8::2:0").unwrap()), None);
}
