use asn_lookup::addr::parse_ip_addr;
use asn_lookup::record::line_to_ip_range;
use asn_lookup::{load_ranges, IpAddr, ParseError};

#[test]
fn test_line_to_ip_range() {
    let line = "10.20.30.40\t10.20.30.50\t12345\tVN\tDescription Goes Here";
    let range = line_to_ip_range(line).unwrap();
    assert_eq!(range.start_ip, parse_ip_addr("10.20.30.40").unwrap());
    assert_eq!(range.end_ip, parse_ip_addr("10.20.30.50").unwrap());
    assert_eq!(range.number, "12345".parse::<u32>().unwrap());
    assert_eq!(range.country, "VN".to_string());
    assert_eq!(range.description, "Description Goes Here".to_string());
}

#[test]
fn test_line_to_ip_range_when_parse_invalid_ip_address() {
    let line = "10.20.30.400\t10.20.30.50\t12345\tVN\tDescription Goes Here";
    assert_eq!(
        matches!(line_to_ip_range(line), Err(ParseError::InvalidAddress)),
        true
    );
}

#[test]
fn test_line_to_ip_range_when_parse_invalid_number() {
    let line = "10.20.30.40\t10.20.30.50\tfoo\tVN\tDescription Goes Here";
    assert_eq!(
        matches!(line_to_ip_range(line), Err(ParseError::InvalidNumber)),
        true
    );
}

#[test]
fn test_line_to_ip_range_when_parse_missing_fields() {
    let line = "10.20.30.40\t10.20.30.50\t12345";
    assert_eq!(
        matches!(line_to_ip_range(line), Err(ParseError::MalformedRecord)),
        true
    );
}

#[test]
fn parsed_addresses_have_their_numeric_value() {
    let range = line_to_ip_range("10.20.30.40\t10.20.30.50\t12345\tVN\tDescription Goes Here").unwrap();
    assert_eq!(range.start_ip, IpAddr::V4(0x0A14_1E28));
    assert_eq!(range.end_ip, IpAddr::V4(0x0A14_1E32));
}

#[test]
fn fields_are_trimmed() {
    let range = line_to_ip_range(" 1.0.0.0 \t 1.0.0.255\t  13335 \t US \t  Cloud Co \r").unwrap();
    assert_eq!(range.start_ip, IpAddr::V4(0x0100_0000));
    assert_eq!(range.end_ip, IpAddr::V4(0x0100_00FF));
    assert_eq!(range.number, 13335);
    assert_eq!(range.country, "US");
    assert_eq!(range.description, "Cloud Co");
}

#[test]
fn unicode_white_space_is_trimmed() {
    let range = line_to_ip_range("1.0.0.0\t1.0.0.255\t7\t\u{3000}JP\u{a0}\t\u{2003}x").unwrap();
    assert_eq!(range.country, "JP");
    assert_eq!(range.description, "x");
}

#[test]
fn zero_as_number_is_kept() {
    let range = line_to_ip_range("0.0.0.0\t0.255.255.255\t0\tNone\tNot routed").unwrap();
    assert_eq!(range.number, 0);
    assert_eq!(range.country, "None");
    assert_eq!(range.start_ip, IpAddr::V4(0));
    assert_eq!(range.end_ip, IpAddr::V4(0x00FF_FFFF));
}

#[test]
fn number_limits() {
    let max = line_to_ip_range("1.0.0.0\t1.0.0.1\t4294967295\tUS\tx").unwrap();
    assert_eq!(max.number, u32::MAX);
    assert_eq!(
        line_to_ip_range("1.0.0.0\t1.0.0.1\t4294967296\tUS\tx"),
        Err(ParseError::InvalidNumber)
    );
    assert_eq!(
        line_to_ip_range("1.0.0.0\t1.0.0.1\t-1\tUS\tx"),
        Err(ParseError::InvalidNumber)
    );
    assert_eq!(
        line_to_ip_range("1.0.0.0\t1.0.0.1\t\tUS\tx"),
        Err(ParseError::InvalidNumber)
    );
    let plus = line_to_ip_range("1.0.0.0\t1.0.0.1\t+0042\tUS\tx").unwrap();
    assert_eq!(plus.number, 42);
}

#[test]
fn too_many_fields_is_malformed() {
    assert_eq!(
        line_to_ip_range("1.0.0.0\t1.0.0.1\t5\tUS\tdesc\twith tab"),
        Err(ParseError::MalformedRecord)
    );
    assert_eq!(line_to_ip_range(""), Err(ParseError::MalformedRecord));
}

#[test]
fn address_error_comes_before_number_error() {
    assert_eq!(
        line_to_ip_range("1.0.0.0\tnope\tfoo\tUS\tx"),
        Err(ParseError::InvalidAddress)
    );
}

#[test]
fn ipv6_records_parse() {
    let range = line_to_ip_range("2001:db8::\t2001:db8::ffff\t64500\tNL\tDoc").unwrap();
    assert_eq!(range.start_ip, IpAddr::V6(0x2001_0db8_0000_0000_0000_0000_0000_0000));
    assert_eq!(range.end_ip, IpAddr::V6(0x2001_0db8_0000_0000_0000_0000_0000_ffff));
    assert_eq!(range.number, 64500);
}

#[test]
fn load_ranges_skips_bad_records() {
    let lines = vec![
        "1.0.0.0\t1.0.0.255\t1\tAU\tfirst".to_string(),
        "garbage".to_string(),
        "1.0.1.0\t1.0.1.255\tx\tCN\tbad number".to_string(),
        "1.0.2.0\t1.0.2.255\t3\tCN\tthird".to_string(),
    ];
    let (ranges, rejected) = load_ranges(&lines);
    assert_eq!(ranges.len(), 2);
    assert_eq!(ranges[0].number, 1);
    assert_eq!(ranges[1].number, 3);
    assert_eq!(ranges[1].description, "third");
    assert_eq!(
        rejected,
        vec![(1, ParseError::MalformedRecord), (2, ParseError::InvalidNumber)]
    );
}

#[test]
fn load_ranges_of_nothing() {
    let (ranges, rejected) = load_ranges(&Vec::new());
    assert!(ranges.is_empty());
    assert!(rejected.is_empty());
}
