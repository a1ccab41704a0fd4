use ipscan::config::{Args, StartScanRequest};
use ipscan::control::{ScanController, ScanStatus};
use ipscan::metrics::ScanMetrics;
use ipscan::packet::{build_random_syn, build_syn_packet, classify_inbound};
use ipscan::probe::{retry_decision, ProbeDecision};
use ipscan::rate::{Admission, RateLimiter};
use ipscan::store::ScanStore;

fn base_args() -> Args {
    Args {
        config_flag: None,
        config_pos: None,
        start_ip: None,
        end_ip: None,
        ports: "80".to_string(),
        timeout: 500,
        concurrency: 100,
        database: "test.db".to_string(),
        verbose: false,
        loop_mode: false,
        ipv4: true,
        ipv6: false,
        only_store_open: true,
        skip_private: true,
        syn: false,
        geoip_db: None,
        no_geo: false,
        worker_threads: None,
        pipeline_buffer: 2000,
        result_buffer: 10000,
        db_batch_size: 2000,
        flush_interval_ms: 1000,
        max_rate: 100000,
        rate_window_secs: 1,
        api: false,
        api_only: false,
        no_api: false,
        api_host: "127.0.0.1".to_string(),
        api_port: 8080,
        swagger_ui: false,
    }
}

#[test]
fn test_metrics_counters() {
    let mut metrics = ScanMetrics::new();

    metrics.increment_scanned();
    metrics.increment_scanned();
    assert_eq!(metrics.get_scanned(), 2);

    metrics.increment_open();
    assert_eq!(metrics.get_open(), 1);

    metrics.increment_errors();
    assert_eq!(metrics.get_errors(), 1);

    metrics.increment_retries();
    assert_eq!(metrics.get_retries(), 1);
}

#[test]
fn test_lifecycle() {
    let mut controller = ScanController::new(ScanStore::new());
    assert!(matches!(controller.get_status(), ScanStatus::Idle));
    assert!(!controller.is_running());

    let request = StartScanRequest {
        start_ip: Some("192.0.2.1".to_string()),
        end_ip: Some("192.0.2.2".to_string()),
        ports: Some("80".to_string()),
        timeout: 500,
        concurrency: 10,
        syn: false,
        skip_private: false,
    };

    let id = controller.start_scan(&request, &base_args(), 1000).unwrap();
    assert_eq!(id, "scan-1000");
    assert!(matches!(controller.get_status(), ScanStatus::Running));
    assert!(controller.is_running());
    assert_eq!(controller.get_scan_id(), Some("scan-1000".to_string()));

    controller.stop_scan(1001).unwrap();
    assert!(matches!(controller.get_status(), ScanStatus::Stopped));
    assert!(!controller.is_running());

    let second = controller.stop_scan(1002);
    assert!(second.is_err());
    assert_eq!(
        controller.stop_scan(1003).unwrap_err().message(),
        "Scan is already stopped"
    );
}

#[test]
fn test_start_rejects_bad_ports() {
    let mut controller = ScanController::new(ScanStore::new());
    let request = StartScanRequest {
        start_ip: None,
        end_ip: None,
        ports: Some("5-1".to_string()),
        timeout: 500,
        concurrency: 10,
        syn: false,
        skip_private: false,
    };
    assert!(controller.start_scan(&request, &base_args(), 1000).is_err());
    assert!(matches!(controller.get_status(), ScanStatus::Idle));

    // While running, a second start is refused.
    let good = StartScanRequest {
        ports: Some("80".to_string()),
        ..request
    };
    controller.start_scan(&good, &base_args(), 1001).unwrap();
    let again = StartScanRequest {
        ports: Some("80".to_string()),
        start_ip: None,
        end_ip: None,
        timeout: 500,
        concurrency: 10,
        syn: false,
        skip_private: false,
    };
    assert!(controller.start_scan(&again, &base_args(), 1002).is_err());
}

#[test]
fn test_rate_limiter() {
    let max_rate = 5;
    let mut limiter = RateLimiter::new(max_rate, 100, 0);

    for _ in 0..max_rate {
        assert!(matches!(limiter.acquire(10), Admission::Granted));
    }
    // The pool is empty inside the window.
    assert!(matches!(limiter.acquire(20), Admission::Wait));
    assert!(matches!(limiter.acquire(99), Admission::Wait));
    // A new window refills the pool.
    assert!(matches!(limiter.acquire(110), Admission::Granted));
    for _ in 0..max_rate - 1 {
        assert!(matches!(limiter.acquire(111), Admission::Granted));
    }
    assert!(matches!(limiter.acquire(112), Admission::Wait));
}

#[test]
fn test_retry_policy() {
    assert!(matches!(retry_decision(0, true), ProbeDecision::Open));
    assert!(matches!(retry_decision(3, true), ProbeDecision::Open));
    assert!(matches!(retry_decision(0, false), ProbeDecision::Retry));
    assert!(matches!(retry_decision(2, false), ProbeDecision::Retry));
    assert!(matches!(retry_decision(3, false), ProbeDecision::Closed));

    assert!(ipscan::probe::probe_outcome(&vec![false, false, true]));
    assert!(!ipscan::probe::probe_outcome(&vec![false, false, false, false]));
    assert!(!ipscan::probe::probe_outcome(&vec![]));
}

/// Reference internet checksum: one's-complement sum of big-endian words
/// over the pseudo-header and segment.
fn reference_checksum(src: u32, dst: u32, seg: &[u8]) -> u16 {
    let mut sum: u64 = 0;
    sum += (src >> 16) as u64 + (src & 0xFFFF) as u64;
    sum += (dst >> 16) as u64 + (dst & 0xFFFF) as u64;
    sum += 6;
    sum += seg.len() as u64;
    let mut i = 0;
    while i + 1 < seg.len() {
        sum += (seg[i] as u64) * 256 + seg[i + 1] as u64;
        i += 2;
    }
    if i < seg.len() {
        sum += (seg[i] as u64) * 256;
    }
    while sum >> 16 != 0 {
        sum = (sum >> 16) + (sum & 0xFFFF);
    }
    !(sum as u16)
}

#[test]
fn test_syn_packet_layout() {
    let src = ipscan::ip::ipv4_to_index("192.168.0.2").unwrap();
    let dst = ipscan::ip::ipv4_to_index("93.184.216.34").unwrap();
    let pkt = build_syn_packet(src, dst, 54321, 443, 0x01020304);
    assert_eq!(pkt.len(), 20);
    assert_eq!(u16::from_be_bytes([pkt[0], pkt[1]]), 54321);
    assert_eq!(u16::from_be_bytes([pkt[2], pkt[3]]), 443);
    assert_eq!(
        u32::from_be_bytes([pkt[4], pkt[5], pkt[6], pkt[7]]),
        0x01020304
    );
    assert_eq!(&pkt[8..12], &[0, 0, 0, 0]);
    assert_eq!(pkt[12], 0x50);
    assert_eq!(pkt[13], 0x02);
    assert_eq!(u16::from_be_bytes([pkt[14], pkt[15]]), 64240);
    assert_eq!(&pkt[18..20], &[0, 0]);

    let mut zeroed = pkt.clone();
    zeroed[16] = 0;
    zeroed[17] = 0;
    let expect = reference_checksum(src, dst, &zeroed);
    assert_eq!(u16::from_be_bytes([pkt[16], pkt[17]]), expect);
}

#[test]
fn test_random_syn_port_range() {
    let src = ipscan::ip::ipv4_to_index("10.0.0.2").unwrap();
    let dst = ipscan::ip::ipv4_to_index("10.0.0.3").unwrap();
    for _ in 0..32 {
        let (pkt, src_port, seqn) = build_random_syn(src, dst, 80);
        assert_eq!(pkt.len(), 20);
        assert!((1025..=65535).contains(&src_port));
        assert_eq!(u16::from_be_bytes([pkt[0], pkt[1]]), src_port);
        assert_eq!(u32::from_be_bytes([pkt[4], pkt[5], pkt[6], pkt[7]]), seqn);
    }
}

#[test]
fn test_classify_inbound() {
    // A minimal IPv4 + TCP packet: 20-byte IP header, 20-byte TCP header.
    let mut pkt = vec![0u8; 40];
    pkt[0] = 0x45; // version 4, header length 5
    pkt[9] = 6; // TCP
    pkt[12] = 93;
    pkt[13] = 184;
    pkt[14] = 216;
    pkt[15] = 34;
    pkt[20] = (443u16 >> 8) as u8;
    pkt[21] = (443u16 & 0xFF) as u8;
    pkt[33] = 0x12; // SYN|ACK
    let got = classify_inbound(&pkt);
    let src = ipscan::ip::ipv4_to_index("93.184.216.34").unwrap();
    assert_eq!(got, Some((src, 443)));

    // RST replies and non-TCP packets are ignored.
    pkt[33] = 0x04;
    assert_eq!(classify_inbound(&pkt), None);
    pkt[33] = 0x12;
    pkt[9] = 17;
    assert_eq!(classify_inbound(&pkt), None);
    assert_eq!(classify_inbound(&pkt[..10]), None);

    // Extra SYN|ACK bits alongside others still count as open.
    pkt[9] = 6;
    pkt[33] = 0x13;
    assert_eq!(classify_inbound(&pkt), Some((src, 443)));
}

#[test]
fn test_merge_and_validate() {
    let mut args = base_args();
    args.ports = "5-1".to_string();
    assert!(args.validate().is_err());
    args.ports = "1-1024".to_string();
    assert!(args.validate().is_ok());

    let config = ipscan::config::Config {
        scan: ipscan::config::ScanConfig {
            start_ip: Some("1.2.3.4".to_string()),
            end_ip: None,
            ports: "8080".to_string(),
            timeout: 900,
            concurrency: 7,
            database: "other.db".to_string(),
            verbose: true,
            loop_mode: false,
            ipv4: true,
            ipv6: false,
            only_store_open: true,
            skip_private: false,
        },
        rate_limit: ipscan::config::RateLimitConfig {
            max_rate: 5,
            window_duration: 2,
        },
    };
    let merged = args.merge_with_config(config);
    // The command line changed ports away from the default, so it stays;
    // timeout was left at its default, so the file's value wins, and
    // start_ip was absent and comes from the file.
    assert_eq!(merged.ports, "1-1024");
    assert_eq!(merged.timeout, 900);
    assert_eq!(merged.start_ip, Some("1.2.3.4".to_string()));
    assert_eq!(merged.concurrency, 7);
    assert!(merged.verbose);
}

#[test]
fn test_total_pages() {
    assert_eq!(ipscan::config::total_pages(0, 50), 0);
    assert_eq!(ipscan::config::total_pages(50, 50), 1);
    assert_eq!(ipscan::config::total_pages(51, 50), 2);
    assert_eq!(ipscan::config::total_pages(100, 50), 2);
}

#[test]
fn test_pagination_validate() {
    let ok = ipscan::config::PaginationQuery {
        page: 1,
        page_size: 50,
    };
    assert!(ok.validate().is_ok());
    let bad = ipscan::config::PaginationQuery {
        page: 0,
        page_size: 50,
    };
    assert!(bad.validate().is_err());
    let big = ipscan::config::PaginationQuery {
        page: 1,
        page_size: 501,
    };
    assert_eq!(
        big.validate().unwrap_err(),
        "Page size must be between 1 and 500"
    );
}
