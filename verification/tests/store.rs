use ipscan::geo::IpGeoInfo;
use ipscan::store::{IpType, ScanStore};
use ipscan::writer::BatchBuffer;

#[test]
fn bitmap_db_test_database_operations() {
    let db = &mut ScanStore::new();

    let (scanned, open) = db.get_stats();
    assert_eq!(scanned, 0);
    assert_eq!(open, 0);

    db.set_port_status(&"192.168.1.1".to_string(), 80, true, 1, 10)
        .unwrap();
    db.set_port_status(&"192.168.1.1".to_string(), 443, false, 1, 11)
        .unwrap();

    let (scanned, open) = db.get_stats();
    assert!(scanned > 0);
    assert_eq!(open, 1);

    db.save_metadata(&"test_key".to_string(), &"test_value".to_string(), 12);
    let value = db.get_metadata(&"test_key".to_string());
    assert_eq!(value, Some("test_value".to_string()));

    let round = db.get_current_round();
    assert_eq!(round, 1);

    let new_round = db.increment_round();
    assert_eq!(new_round, 2);
    assert_eq!(db.get_current_round(), 2);

    db.save_progress(&"192.168.1.1".to_string(), IpType::V4, 1);
    let progress = db.get_progress();
    assert!(progress.is_some());
    let (ip, ip_type, round) = progress.unwrap();
    assert_eq!(ip, "192.168.1.1");
    assert!(matches!(ip_type, IpType::V4));
    assert_eq!(round, 1);
}

#[test]
fn sqlite_db_test_database_operations() {
    let db = &mut ScanStore::new();

    let (scanned, open) = db.get_stats();
    assert_eq!(scanned, 0);
    assert_eq!(open, 0);

    db.set_port_status(&"192.168.1.1".to_string(), 80, true, 1, 20)
        .unwrap();
    db.set_port_status(&"192.168.1.1".to_string(), 443, false, 1, 21)
        .unwrap();

    let (scanned, open) = db.get_stats();
    assert!(scanned > 0);
    assert_eq!(open, 1);

    db.save_metadata(&"test_key".to_string(), &"test_value".to_string(), 22);
    let value = db.get_metadata(&"test_key".to_string());
    assert_eq!(value, Some("test_value".to_string()));

    let round = db.get_current_round();
    assert_eq!(round, 1);

    let new_round = db.increment_round();
    assert_eq!(new_round, 2);
    assert_eq!(db.get_current_round(), 2);

    db.save_progress(&"192.168.1.1".to_string(), IpType::V4, 1);
    let progress = db.get_progress();
    assert!(progress.is_some());
    let (ip, ip_type, round) = progress.unwrap();
    assert_eq!(ip, "192.168.1.1");
    assert!(matches!(ip_type, IpType::V4));
    assert_eq!(round, 1);
}

#[test]
fn test_set_port_status_rejects_bad_ip() {
    let db = &mut ScanStore::new();
    assert!(db
        .set_port_status(&"not-an-ip".to_string(), 80, true, 1, 5)
        .is_err());
    assert_eq!(db.detail_rows.len(), 0);
    assert_eq!(db.bitmap_rows.len(), 0);
}

#[test]
fn test_batch_coalescing() {
    // Ten outcomes for port 80 across three distinct addresses, with a
    // batch size the buffer never reaches: the timer flush drains them
    // all, leaving one bitmap row with three set bits and three detail
    // rows.
    let mut buffer = BatchBuffer::new(100, 50, 0);
    let ips = [
        "1.2.3.4", "1.2.3.5", "1.2.3.6", "1.2.3.4", "1.2.3.5", "1.2.3.6", "1.2.3.4", "1.2.3.5",
        "1.2.3.6", "1.2.3.4",
    ];
    for ip in ips.iter() {
        let full = buffer.push((ip.to_string(), 80, true));
        assert!(!full);
    }
    assert!(!buffer.should_flush_timer(40));
    assert!(buffer.should_flush_timer(150));
    let batch = buffer.take_batch(150);
    assert_eq!(batch.len(), 10);

    let db = &mut ScanStore::new();
    db.bulk_update_port_status(&batch, 1, 150).unwrap();
    assert_eq!(db.bitmap_rows.len(), 1);
    assert_eq!(db.bitmap_rows[0].port, 80);
    assert_eq!(db.bitmap_rows[0].scan_round, 1);
    assert_eq!(db.bitmap_rows[0].open_count, 3);
    assert_eq!(db.detail_rows.len(), 3);
}

#[test]
fn test_bulk_update_last_outcome_wins() {
    let db = &mut ScanStore::new();
    let batch = vec![
        ("9.9.9.9".to_string(), 22, true),
        ("9.9.9.9".to_string(), 22, false),
    ];
    db.bulk_update_port_status(&batch, 1, 7).unwrap();
    // The closed outcome arrived last, so the bit is clear; the detail row
    // from the earlier open outcome remains.
    assert_eq!(db.bitmap_rows.len(), 1);
    assert_eq!(db.bitmap_rows[0].open_count, 0);
    assert_eq!(db.detail_rows.len(), 1);
    assert_eq!(db.detail_rows[0].ip_address, "9.9.9.9");
}

#[test]
fn test_first_seen_preserved() {
    let db = &mut ScanStore::new();
    db.set_port_status(&"8.8.8.8".to_string(), 53, true, 1, 100)
        .unwrap();
    assert_eq!(db.detail_rows[0].first_seen, 100);
    assert_eq!(db.detail_rows[0].last_seen, 100);
    db.set_port_status(&"8.8.8.8".to_string(), 53, true, 2, 250)
        .unwrap();
    assert_eq!(db.detail_rows.len(), 1);
    assert_eq!(db.detail_rows[0].first_seen, 100);
    assert_eq!(db.detail_rows[0].last_seen, 250);
    assert_eq!(db.detail_rows[0].scan_round, 2);
    assert!(db.detail_rows[0].first_seen <= db.detail_rows[0].last_seen);
}

#[test]
fn test_clock_never_regresses() {
    let db = &mut ScanStore::new();
    db.set_port_status(&"8.8.8.8".to_string(), 53, true, 1, 100)
        .unwrap();
    // A clock reading that went backwards is clamped to the stored clock.
    db.set_port_status(&"8.8.8.8".to_string(), 53, true, 1, 50)
        .unwrap();
    assert_eq!(db.detail_rows[0].last_seen, 100);
    assert_eq!(db.clock, 100);
}

#[test]
fn test_geo_queue() {
    let db = &mut ScanStore::new();
    db.set_port_status(&"1.1.1.1".to_string(), 80, true, 1, 5)
        .unwrap();
    db.set_port_status(&"1.1.1.2".to_string(), 80, true, 1, 6)
        .unwrap();
    db.set_port_status(&"1.1.1.1".to_string(), 443, true, 1, 7)
        .unwrap();

    let missing = db.get_ips_missing_geo(10);
    assert_eq!(missing, vec!["1.1.1.1".to_string(), "1.1.1.2".to_string()]);

    let info = IpGeoInfo::new("1.1.1.1".to_string(), "lookup".to_string());
    db.save_ip_geo_info(info, 8).unwrap();
    let missing = db.get_ips_missing_geo(10);
    assert_eq!(missing, vec!["1.1.1.2".to_string()]);

    let limited = db.get_ips_missing_geo(0);
    assert!(limited.is_empty());
}

#[test]
fn test_memory_and_last_scan_time() {
    let db = &mut ScanStore::new();
    assert!(db.get_last_scan_time().is_none());
    assert_eq!(db.get_memory_usage(), 0);
    db.set_port_status(&"2.3.4.5".to_string(), 80, true, 1, 42)
        .unwrap();
    assert_eq!(db.get_last_scan_time(), Some(42));
    // One bitmap row with one segment: a count prefix plus one record.
    assert_eq!(db.get_memory_usage(), 4 + 1 + 2097152);
}

#[test]
fn test_resume_cursor_counts_whole_range() {
    // A scan over 1.2.3.1 .. 1.2.3.250 that is cut off after 100
    // addresses and resumed from the persisted cursor covers all 250
    // distinct addresses.
    let db = &mut ScanStore::new();
    let start = ipscan::ip::ipv4_to_index("1.2.3.1").unwrap();
    let end = ipscan::ip::ipv4_to_index("1.2.3.250").unwrap();

    let mut scanned: Vec<u32> = Vec::new();
    let range = ipscan::range::IpRange { start, end };
    let mut iter = range.iter();
    let mut completed: u64 = 0;
    while let Some(ip) = iter.next() {
        scanned.push(ip);
        completed += 1;
        if ipscan::probe::should_checkpoint(completed) {
            db.save_progress(&ipscan::ip::index_to_ipv4(ip), IpType::V4, 1);
        }
        if completed == 100 {
            break;
        }
    }

    // Restart: the resume cursor wins over the configured start.
    let (cursor_ip, _, round) = db.get_progress().unwrap();
    assert_eq!(cursor_ip, "1.2.3.100");
    assert_eq!(round, 1);
    let resume = ipscan::control::resume_start(None, Some(cursor_ip), "1.2.3.1".to_string());
    let resume_idx = ipscan::ip::ipv4_to_index(&resume).unwrap();
    let range2 = ipscan::range::IpRange {
        start: resume_idx,
        end,
    };
    let mut iter2 = range2.iter();
    while let Some(ip) = iter2.next() {
        scanned.push(ip);
    }

    scanned.sort();
    scanned.dedup();
    assert_eq!(scanned.len(), 250);
    assert_eq!(scanned[0], start);
    assert_eq!(scanned[249], end);
}
