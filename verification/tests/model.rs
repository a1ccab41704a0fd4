use ipscan::bitmap::PortBitmap;
use ipscan::ip::{index_to_ipv4, ipv4_to_index, is_private_ipv4, u64_to_string};
use ipscan::ports::parse_port_range;
use ipscan::range::{generate_addresses, IpRange};

#[test]
fn test_bitmap_operations() {
    let mut bitmap = PortBitmap::new();

    bitmap.set(100, true);
    assert!(bitmap.get(100));
    assert!(!bitmap.get(101));

    bitmap.set(100, false);
    assert!(!bitmap.get(100));
}

#[test]
fn test_count_ones() {
    let mut bitmap = PortBitmap::new();
    bitmap.set(1, true);
    bitmap.set(100, true);
    bitmap.set(1000, true);
    assert_eq!(bitmap.count_ones(), 3);
}

#[test]
fn test_serialization() {
    let mut bitmap = PortBitmap::new();
    bitmap.set(100, true);
    bitmap.set(200, true);

    let blob = bitmap.to_blob();
    let restored = PortBitmap::from_blob(&blob).unwrap();

    assert!(restored.get(100));
    assert!(restored.get(200));
    assert!(!restored.get(300));
}

#[test]
fn test_serialization_rejects_garbage() {
    assert!(PortBitmap::from_blob(&[1, 2]).is_err());
    assert!(PortBitmap::from_blob(&[1, 0, 0, 0, 7]).is_err());
    let empty = PortBitmap::new().to_blob();
    assert_eq!(empty, vec![0, 0, 0, 0]);
    assert!(PortBitmap::from_blob(&empty).unwrap().count_ones() == 0);
}

#[test]
fn test_serialization_cross_segment() {
    let mut bitmap = PortBitmap::new();
    // One bit in segment 0, one in segment 10, one in segment 255.
    bitmap.set(5, true);
    bitmap.set((10 << 24) | 123, true);
    bitmap.set((255 << 24) | 9999, true);
    let blob = bitmap.to_blob();
    let restored = PortBitmap::from_blob(&blob).unwrap();
    assert!(restored.get(5));
    assert!(restored.get((10 << 24) | 123));
    assert!(restored.get((255 << 24) | 9999));
    assert!(!restored.get(6));
    assert_eq!(restored.count_ones(), 3);
    // The wire form is stable: serializing the restored bitmap gives the
    // same bytes back.
    assert_eq!(restored.to_blob(), blob);
}

#[test]
fn test_ip_conversion() {
    let ip = "192.168.1.100";
    let index = ipv4_to_index(ip).unwrap();
    let converted = index_to_ipv4(index);
    assert_eq!(ip, converted);
}

#[test]
fn test_ip_conversion_edges() {
    assert_eq!(ipv4_to_index("0.0.0.0").unwrap(), 0);
    assert_eq!(ipv4_to_index("255.255.255.255").unwrap(), u32::MAX);
    assert_eq!(index_to_ipv4(0), "0.0.0.0");
    assert_eq!(index_to_ipv4(u32::MAX), "255.255.255.255");
    assert_eq!(index_to_ipv4(0x01020304), "1.2.3.4");
    assert!(ipv4_to_index("1.2.3").is_err());
    assert!(ipv4_to_index("1.2.3.4.5").is_err());
    assert!(ipv4_to_index("1.2.3.256").is_err());
    assert!(ipv4_to_index("01.2.3.4").is_err());
    assert!(ipv4_to_index("a.b.c.d").is_err());
    assert!(ipv4_to_index("").is_err());
    assert!(ipv4_to_index("2001:db8::1").is_err());
}

#[test]
fn test_is_private() {
    assert!(is_private_ipv4("10.0.0.1"));
    assert!(is_private_ipv4("172.16.0.1"));
    assert!(is_private_ipv4("172.31.255.255"));
    assert!(!is_private_ipv4("172.32.0.1"));
    assert!(is_private_ipv4("192.168.1.1"));
    assert!(is_private_ipv4("127.0.0.1"));
    assert!(is_private_ipv4("169.254.0.1"));
    assert!(is_private_ipv4("224.0.0.1"));
    assert!(is_private_ipv4("240.0.0.1"));
    assert!(!is_private_ipv4("8.8.8.8"));
    assert!(!is_private_ipv4("not an ip"));
}

#[test]
fn test_parse_port_range() {
    assert_eq!(parse_port_range("80").unwrap(), vec![80]);
    assert_eq!(parse_port_range("80,443").unwrap(), vec![80, 443]);
    assert_eq!(parse_port_range("1-5").unwrap(), vec![1, 2, 3, 4, 5]);
    assert!(parse_port_range("1-").is_err());
    assert!(parse_port_range("a").is_err());
    assert!(parse_port_range("5-1").is_err());
}

#[test]
fn test_parse_port_range_more() {
    assert_eq!(parse_port_range("22,80,443").unwrap(), vec![22, 80, 443]);
    assert_eq!(parse_port_range("443,80,22").unwrap(), vec![22, 80, 443]);
    assert_eq!(parse_port_range("80,80,80").unwrap(), vec![80]);
    assert_eq!(parse_port_range("22, 80 ,443").unwrap(), vec![22, 80, 443]);
    assert_eq!(parse_port_range("65535").unwrap(), vec![65535]);
    assert!(parse_port_range("65536").is_err());
    assert!(parse_port_range("").is_err());
    assert!(parse_port_range("1-70000").is_err());
    assert!(parse_port_range("80,,443").is_err());
}

#[test]
fn test_ip_range_ipv4() {
    let range = IpRange::new("192.168.1.1", "192.168.1.5").unwrap();
    let mut iter = range.iter();
    let mut ips: Vec<u32> = Vec::new();
    while let Some(ip) = iter.next() {
        ips.push(ip);
    }
    assert_eq!(ips.len(), 5);
    assert_eq!(index_to_ipv4(ips[0]), "192.168.1.1");
    assert_eq!(index_to_ipv4(ips[4]), "192.168.1.5");
}

#[test]
fn test_single_ip() {
    let range = IpRange::new("192.168.1.1", "192.168.1.1").unwrap();
    let mut iter = range.iter();
    let mut ips: Vec<u32> = Vec::new();
    while let Some(ip) = iter.next() {
        ips.push(ip);
    }
    assert_eq!(ips.len(), 1);
    assert_eq!(index_to_ipv4(ips[0]), "192.168.1.1");
}

#[test]
fn test_invalid_range() {
    assert!(IpRange::new("192.168.1.1", "2001:db8::1").is_err());
}

#[test]
fn test_address_generator() {
    let ips = generate_addresses("192.168.1.1", "192.168.1.3", false).unwrap();
    assert_eq!(ips, vec!["192.168.1.1", "192.168.1.2", "192.168.1.3"]);

    let skipped = generate_addresses("192.168.1.1", "192.168.1.3", true).unwrap();
    assert!(skipped.is_empty());
}

#[test]
fn test_address_generator_skips_zero_block() {
    let ips = generate_addresses("0.0.0.5", "1.0.0.1", false).unwrap();
    assert_eq!(ips, vec!["1.0.0.0", "1.0.0.1"]);
    assert!(generate_addresses("1.0.0.2", "1.0.0.1", false).is_err());
    assert!(generate_addresses("bogus", "1.0.0.1", false).is_err());
}

#[test]
fn test_u64_to_string() {
    assert_eq!(u64_to_string(0), "0");
    assert_eq!(u64_to_string(7), "7");
    assert_eq!(u64_to_string(100), "100");
    assert_eq!(u64_to_string(1234567890), "1234567890");
    assert_eq!(u64_to_string(u64::MAX), "18446744073709551615");
}
