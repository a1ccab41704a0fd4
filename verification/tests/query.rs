use ipscan::config::{FilterQuery, PaginationQuery, ResultsQuery};
use ipscan::store::{IpType, ScanStore};

fn seeded_store() -> ScanStore {
    let mut db = ScanStore::new();
    // Round 1: three addresses on port 80, one on port 443.
    db.set_port_status(&"1.2.3.4".to_string(), 80, true, 1, 100)
        .unwrap();
    db.set_port_status(&"1.2.3.5".to_string(), 80, true, 1, 110)
        .unwrap();
    db.set_port_status(&"10.2.3.6".to_string(), 80, true, 1, 120)
        .unwrap();
    db.set_port_status(&"1.2.3.4".to_string(), 443, true, 1, 130)
        .unwrap();
    // Round 2: one more address on port 22.
    db.set_port_status(&"1.2.3.7".to_string(), 22, true, 2, 200)
        .unwrap();
    db
}

fn query(page: usize, page_size: usize, filter: FilterQuery) -> ResultsQuery {
    ResultsQuery {
        pagination: PaginationQuery { page, page_size },
        filter,
    }
}

fn no_filter() -> FilterQuery {
    FilterQuery {
        ip: None,
        port: None,
        round: None,
        ip_type: None,
    }
}

#[test]
fn test_get_scan_results_pagination() {
    let db = seeded_store();
    let p = db.get_scan_results(&query(1, 2, no_filter())).unwrap();
    assert_eq!(p.total, 5);
    assert_eq!(p.total_pages, 3);
    assert_eq!(p.page, 1);
    assert_eq!(p.page_size, 2);
    assert_eq!(p.results.len(), 2);
    assert_eq!(p.results[0].ip_address, "1.2.3.4");
    assert_eq!(p.results[0].port, 80);
    assert_eq!(p.results[1].ip_address, "1.2.3.5");

    let p3 = db.get_scan_results(&query(3, 2, no_filter())).unwrap();
    assert_eq!(p3.results.len(), 1);
    assert_eq!(p3.results[0].ip_address, "1.2.3.7");

    let beyond = db.get_scan_results(&query(9, 2, no_filter())).unwrap();
    assert!(beyond.results.is_empty());
    assert_eq!(beyond.total, 5);

    assert!(db.get_scan_results(&query(0, 2, no_filter())).is_err());
    assert!(db.get_scan_results(&query(1, 0, no_filter())).is_err());
    assert!(db.get_scan_results(&query(1, 501, no_filter())).is_err());
}

#[test]
fn test_get_scan_results_filters() {
    let db = seeded_store();
    let by_port = db
        .get_scan_results(&query(
            1,
            50,
            FilterQuery {
                port: Some(80),
                ..no_filter()
            },
        ))
        .unwrap();
    assert_eq!(by_port.total, 3);

    let by_round = db
        .get_scan_results(&query(
            1,
            50,
            FilterQuery {
                round: Some(2),
                ..no_filter()
            },
        ))
        .unwrap();
    assert_eq!(by_round.total, 1);
    assert_eq!(by_round.results[0].ip_address, "1.2.3.7");

    // The address filter is a substring match.
    let by_ip = db
        .get_scan_results(&query(
            1,
            50,
            FilterQuery {
                ip: Some("2.3.4".to_string()),
                ..no_filter()
            },
        ))
        .unwrap();
    assert_eq!(by_ip.total, 2);

    let by_type = db
        .get_scan_results(&query(
            1,
            50,
            FilterQuery {
                ip_type: Some(IpType::V6),
                ..no_filter()
            },
        ))
        .unwrap();
    assert_eq!(by_type.total, 0);

    let none = db
        .get_scan_results(&query(
            1,
            50,
            FilterQuery {
                ip: Some("9.9.9".to_string()),
                ..no_filter()
            },
        ))
        .unwrap();
    assert_eq!(none.total, 0);
}

#[test]
fn test_results_by_key() {
    let db = seeded_store();
    let by_ip = db.get_results_by_ip(&"1.2.3.4".to_string());
    assert_eq!(by_ip.len(), 2);
    assert_eq!(by_ip[0].port, 80);
    assert_eq!(by_ip[1].port, 443);

    let by_port = db.get_results_by_port(80);
    assert_eq!(by_port.len(), 3);
    assert!(by_port.iter().all(|r| r.port == 80));

    let by_round = db.get_results_by_round(1);
    assert_eq!(by_round.len(), 4);
    assert!(by_round.iter().all(|r| r.scan_round == 1));
    assert!(db.get_results_by_round(7).is_empty());
}

#[test]
fn test_top_ports() {
    let db = seeded_store();
    let top = db.get_top_ports(10);
    assert_eq!(top, vec![(80, 3), (22, 1), (443, 1)]);

    let top1 = db.get_top_ports(1);
    assert_eq!(top1, vec![(80, 3)]);

    assert!(db.get_top_ports(0).is_empty());
    assert!(ScanStore::new().get_top_ports(10).is_empty());
}

#[test]
fn test_stats_by_port() {
    let db = seeded_store();
    let round1 = db.get_stats_by_port(1);
    assert_eq!(round1, vec![(80, 3), (443, 1)]);
    let round2 = db.get_stats_by_port(2);
    assert_eq!(round2, vec![(22, 1)]);
    assert!(db.get_stats_by_port(9).is_empty());
}

#[test]
fn test_scan_history() {
    let db = seeded_store();
    let history = db.get_scan_history(50);
    assert_eq!(history.len(), 2);
    // Newest round first.
    assert_eq!(history[0].round, 2);
    assert_eq!(history[0].start_time, 200);
    assert_eq!(history[0].end_time, 200);
    assert_eq!(history[0].total_open_ports, 1);
    assert_eq!(history[0].ports_scanned, 1);

    assert_eq!(history[1].round, 1);
    // Round 1 has rows for ports 80 and 443; both were last written at the
    // times of their latest upserts.
    assert_eq!(history[1].ports_scanned, 2);
    assert_eq!(history[1].total_open_ports, 4);
    assert!(history[1].start_time <= history[1].end_time);

    let latest = db.get_scan_history(1);
    assert_eq!(latest.len(), 1);
    assert_eq!(latest[0].round, 2);
}

#[test]
fn test_pick_source_ip() {
    let a = ipscan::ip::ipv4_to_index("10.0.0.5").unwrap();
    let b = ipscan::ip::ipv4_to_index("10.0.1.5").unwrap();
    let lo = ipscan::ip::ipv4_to_index("127.0.0.1").unwrap();
    let dst_near = ipscan::ip::ipv4_to_index("10.0.1.77").unwrap();
    let dst_far = ipscan::ip::ipv4_to_index("8.8.8.8").unwrap();

    // Longest matching prefix wins.
    let candidates = vec![(lo, 8u8), (a, 8u8), (b, 24u8)];
    assert_eq!(
        ipscan::packet::pick_source_ip(&candidates, dst_near),
        Some(b)
    );
    // No match: the first non-loopback address.
    assert_eq!(ipscan::packet::pick_source_ip(&candidates, dst_far), Some(a));
    // Only loopback: nothing usable... and an empty list gives nothing.
    assert_eq!(
        ipscan::packet::pick_source_ip(&vec![(lo, 8u8)], dst_far),
        None
    );
    assert_eq!(ipscan::packet::pick_source_ip(&vec![], dst_far), None);
}

#[test]
fn test_metrics_summary() {
    let mut m = ipscan::metrics::ScanMetrics::new();
    m.increment_scanned();
    m.increment_scanned();
    m.increment_open();
    assert_eq!(m.summary(), "scanned=2 open=1 errors=0 retries=0");
}
