use zond::host::Host;
use zond::net::IpAddress;
use zond::range::{IpCollection, Ipv4Range};
use zond::routed_scan::{calculate_deadline, ROUTED_MAX_SCAN_NANOS, ROUTED_MIN_SCAN_NANOS};
use zond::target::to_collection;

fn v4(a: u8, b: u8, c: u8, d: u8) -> u32 {
    ((a as u32) << 24) | ((b as u32) << 16) | ((c as u32) << 8) | (d as u32)
}

fn millis(n: u64) -> u64 {
    n * 1_000_000
}

fn test_ip() -> IpAddress {
    IpAddress::V4(v4(192, 168, 0, 100))
}

#[test]
fn rtt_history_caps_at_ten() {
    let mut host = Host::new(test_ip());
    for rtt in 0..11u64 {
        host.add_rtt(millis(rtt));
    }
    assert_eq!(host.rtt_samples().len(), 10);
    assert_ne!(host.rtt_samples().len(), 11);
}

#[test]
fn rtt_history_adds_to_back_of_list() {
    let mut host = Host::new(test_ip());
    for rtt in 0..8u64 {
        host.add_rtt(millis(rtt));
    }
    assert_eq!(host.rtt_samples()[7], millis(7));
}

#[test]
fn rtt_history_slides_correctly() {
    let mut host = Host::new(test_ip());
    for rtt in 0..15u64 {
        host.add_rtt(millis(rtt));
    }
    assert_eq!(host.rtt_samples()[0], millis(5));
    assert_eq!(host.rtt_samples()[9], millis(14));
}

#[test]
fn min_rtt_returns_correct_val() {
    let mut host = Host::new(test_ip());
    host.add_rtt(millis(6));
    host.add_rtt(millis(5));
    host.add_rtt(millis(10));
    assert_eq!(host.min_rtt(), Some(millis(5)));
}

#[test]
fn max_rtt_returns_correct_val() {
    let mut host = Host::new(test_ip());
    host.add_rtt(millis(6));
    host.add_rtt(millis(5));
    host.add_rtt(millis(10));
    assert_eq!(host.max_rtt(), Some(millis(10)));
}

#[test]
fn average_rtt_calculates_correctly() {
    let mut host = Host::new(test_ip());
    host.add_rtt(millis(9));
    host.add_rtt(millis(3));
    assert_eq!(host.average_rtt(), Some(millis(6)));
}

#[test]
fn average_rtt_returns_none() {
    let host = Host::new(test_ip());
    assert_eq!(host.average_rtt(), None);
}

#[test]
fn set_rtts_keeps_the_most_recent_ten() {
    let mut host = Host::new(test_ip());
    let samples: Vec<u64> = (0..12u64).map(millis).collect();
    host.set_rtts(samples);
    assert_eq!(host.rtt_samples().len(), 10);
    assert_eq!(host.rtt_samples()[0], millis(2));
    assert_eq!(host.rtt_samples()[9], millis(11));
}

#[test]
fn primary_ip_upgrades_to_ipv4() {
    // a host first seen over IPv6 switches identity when IPv4 arrives
    let v6 = IpAddress::V6(0xfe80_0000_0000_0000_0000_0000_0000_0001);
    let mut host = Host::new(v6);
    let ipv4 = IpAddress::V4(v4(192, 168, 1, 7));
    let was_new = host.observe_ip(ipv4);
    assert!(was_new);
    assert_eq!(host.primary_ip, ipv4);
}

#[test]
fn primary_ip_stays_ipv4() {
    let ipv4 = IpAddress::V4(v4(10, 0, 0, 1));
    let mut host = Host::new(ipv4);
    host.observe_ip(IpAddress::V6(1));
    assert_eq!(host.primary_ip, ipv4);
}

#[test]
fn range_new_reorders_bounds() {
    let r = Ipv4Range::new(v4(10, 0, 0, 9), v4(10, 0, 0, 2));
    assert!(r.start_addr <= r.end_addr);
    assert_eq!(r.start_addr, v4(10, 0, 0, 2));
    assert_eq!(r.end_addr, v4(10, 0, 0, 9));
}

#[test]
fn range_of_one_address_has_len_one() {
    let a = v4(172, 16, 0, 5);
    let r = Ipv4Range::new(a, a);
    assert_eq!(r.len(), 1);
}

#[test]
fn contains_should_find_singles() {
    let mut collection = IpCollection::new();
    let ip = IpAddress::V4(v4(10, 0, 0, 1));
    collection.add_single(ip);
    assert!(collection.contains(&ip), "collection should contain the single address");
}

#[test]
fn compact_merges_overlapping_ranges() {
    let mut collection = IpCollection::new();
    collection.add_range(Ipv4Range::new(v4(10, 0, 0, 1), v4(10, 0, 0, 5)));
    collection.add_range(Ipv4Range::new(v4(10, 0, 0, 4), v4(10, 0, 0, 9)));
    collection.add_range(Ipv4Range::new(v4(10, 0, 0, 10), v4(10, 0, 0, 12)));
    collection.compact();
    // overlapping and abutting intervals merge into one
    assert_eq!(collection.ranges.len(), 1);
    assert_eq!(collection.ranges[0].start_addr, v4(10, 0, 0, 1));
    assert_eq!(collection.ranges[0].end_addr, v4(10, 0, 0, 12));
    assert_eq!(collection.len(), 12);
}

#[test]
fn compact_folds_v4_singles_into_ranges() {
    let mut collection = IpCollection::new();
    collection.add_single(IpAddress::V4(v4(10, 0, 0, 3)));
    collection.add_range(Ipv4Range::new(v4(10, 0, 0, 1), v4(10, 0, 0, 2)));
    collection.add_single(IpAddress::V6(0x20010db8_0000_0000_0000_0000_0000_0001));
    collection.compact();
    assert_eq!(collection.ranges.len(), 1);
    assert_eq!(collection.ranges[0].end_addr, v4(10, 0, 0, 3));
    // the IPv6 single stays a single
    assert_eq!(collection.singles.len(), 1);
    assert_eq!(collection.len(), 4);
}

#[test]
fn addresses_lists_each_target_once() {
    let mut collection = IpCollection::new();
    collection.add_range(Ipv4Range::new(v4(10, 0, 0, 1), v4(10, 0, 0, 3)));
    // a single already covered by the interval is suppressed
    collection.add_single(IpAddress::V4(v4(10, 0, 0, 2)));
    collection.add_single(IpAddress::V6(7));
    let all = collection.addresses();
    assert_eq!(all.len(), 4);
    for d in 1..=3u8 {
        assert!(all.contains(&IpAddress::V4(v4(10, 0, 0, d))));
    }
    assert!(all.contains(&IpAddress::V6(7)));
}

#[test]
fn test_parse_simple_host() {
    let input = vec!["192.168.1.1".to_string()];
    let (col, lan) = to_collection(&input, None).unwrap();
    assert_eq!(col.len(), 1);
    assert!(!lan);
}

#[test]
fn test_parse_range_explicit() {
    let input = vec!["192.168.1.1-192.168.1.5".to_string()];
    let (col, _) = to_collection(&input, None).unwrap();
    assert_eq!(col.len(), 5);
}

#[test]
fn test_parse_range_short() {
    let input = vec!["192.168.1.1-5".to_string()];
    let (col, _) = to_collection(&input, None).unwrap();
    assert_eq!(col.len(), 5);
}

#[test]
fn test_parse_cidr() {
    let input = vec!["192.168.1.0/30".to_string()];
    let (col, _) = to_collection(&input, None).unwrap();
    assert_eq!(col.len(), 4);
}

#[test]
fn test_mixed_inputs() {
    let input = vec!["1.1.1.1".to_string(), "10.0.0.1-2".to_string()];
    let (col, _) = to_collection(&input, None).unwrap();
    assert_eq!(col.len(), 3);
}

#[test]
fn test_comma_splitting() {
    let input = vec!["1.1.1.1, 1.1.1.2".to_string()];
    let (col, _) = to_collection(&input, None).unwrap();
    assert_eq!(col.len(), 2);
}

#[test]
fn parse_mixed_forms_names_every_address() {
    let input = vec![
        "192.168.1.1".to_string(),
        "10.0.0.1-2".to_string(),
        "1.1.1.0/30".to_string(),
    ];
    let (col, _) = to_collection(&input, None).unwrap();
    assert_eq!(col.len(), 7);
    assert!(col.contains(&IpAddress::V4(v4(192, 168, 1, 1))));
    assert!(col.contains(&IpAddress::V4(v4(10, 0, 0, 1))));
    assert!(col.contains(&IpAddress::V4(v4(10, 0, 0, 2))));
    for d in 0..4u8 {
        assert!(col.contains(&IpAddress::V4(v4(1, 1, 1, d))));
    }
    assert!(!col.contains(&IpAddress::V4(v4(1, 1, 1, 4))));
}

#[test]
fn short_range_overlay_covers_exact_addresses() {
    let input = vec!["192.168.1.10-15".to_string()];
    let (col, _) = to_collection(&input, None).unwrap();
    assert_eq!(col.len(), 6);
    for d in 10..=15u8 {
        assert!(col.contains(&IpAddress::V4(v4(192, 168, 1, d))));
    }
    assert!(!col.contains(&IpAddress::V4(v4(192, 168, 1, 9))));
    assert!(!col.contains(&IpAddress::V4(v4(192, 168, 1, 16))));
}

#[test]
fn vpn_keyword_is_rejected() {
    let input = vec!["vpn".to_string()];
    let err = to_collection(&input, None).unwrap_err();
    assert_eq!(err, zond::error::ScanError::InvalidTarget);
}

#[test]
fn garbage_target_is_rejected() {
    let input = vec!["not-an-address".to_string()];
    let err = to_collection(&input, None).unwrap_err();
    assert_eq!(err, zond::error::ScanError::InvalidTarget);
}

#[test]
fn lan_without_interface_is_rejected() {
    let input = vec!["lan".to_string()];
    let err = to_collection(&input, None).unwrap_err();
    assert_eq!(err, zond::error::ScanError::NoViableInterface);
}

#[test]
fn lan_with_network_spans_usable_hosts() {
    let net = zond::net::Ipv4Net { ip: v4(192, 168, 1, 77), prefix: 24 };
    let input = vec!["LAN".to_string()];
    let (col, lan) = to_collection(&input, Some(net)).unwrap();
    assert!(lan);
    assert_eq!(col.len(), 254);
    assert!(col.contains(&IpAddress::V4(v4(192, 168, 1, 1))));
    assert!(col.contains(&IpAddress::V4(v4(192, 168, 1, 254))));
    assert!(!col.contains(&IpAddress::V4(v4(192, 168, 1, 0))));
    assert!(!col.contains(&IpAddress::V4(v4(192, 168, 1, 255))));
}

#[test]
fn lan_on_slash_30_has_two_usable_hosts() {
    let net = zond::net::Ipv4Net { ip: v4(10, 0, 0, 1), prefix: 30 };
    let (range, stripped) = zond::target::lan_usable_range(&net);
    assert!(stripped);
    assert_eq!(range.len(), 2);
    assert_eq!(range.start_addr, v4(10, 0, 0, 1));
    assert_eq!(range.end_addr, v4(10, 0, 0, 2));
}

#[test]
fn lan_on_slash_31_falls_back_to_full_block() {
    let net = zond::net::Ipv4Net { ip: v4(10, 0, 0, 0), prefix: 31 };
    let (range, stripped) = zond::target::lan_usable_range(&net);
    assert!(!stripped);
    assert_eq!(range.len(), 2);
    assert_eq!(range.start_addr, v4(10, 0, 0, 0));
    assert_eq!(range.end_addr, v4(10, 0, 0, 1));
}

#[test]
fn range_text_round_trips_through_the_parser() {
    let r = Ipv4Range::new(v4(10, 1, 2, 3), v4(10, 1, 9, 200));
    let text = zond::target::range_to_string(&r);
    assert_eq!(text, "10.1.2.3-10.1.9.200");
    match zond::target::parse_as_target(&text) {
        Some(zond::target::Target::Range(back)) => {
            assert_eq!(back.start_addr, r.start_addr);
            assert_eq!(back.end_addr, r.end_addr);
        }
        other => panic!("expected a range back, got {:?}", other),
    }
}

#[test]
fn scan_timer_expires_after_hard_deadline() {
    let t = zond::timer::ScanTimer::new(1_000, 7_500, 2_500, 1_000_000);
    assert!(!t.is_expired(1_000));
    assert!(!t.is_expired(8_500));
    assert!(t.is_expired(8_501));
}

#[test]
fn scan_timer_expires_on_silence_after_min_runtime() {
    let mut t = zond::timer::ScanTimer::new(0, 1_000_000, 100, 200);
    // before the minimum runtime, silence does not stop the scan
    assert!(!t.is_expired(90));
    // after it, silence at least as long as the window does
    assert!(t.is_expired(250));
    t.mark_seen(250);
    assert!(!t.is_expired(300));
    assert!(t.is_expired(450));
}

#[test]
fn scan_timer_next_wait_counts_down_then_falls_back() {
    let t = zond::timer::ScanTimer::new(0, 10, 10, 500);
    assert_eq!(t.next_wait(200), 300);
    assert_eq!(t.next_wait(500), 0);
    assert_eq!(t.next_wait(900), zond::timer::FALLBACK_WAIT_NANOS);
}

#[test]
fn handshake_answer_makes_a_host() {
    let ip = IpAddress::V4(v4(127, 0, 0, 1));
    let host = zond::handshake::evaluate_probe(&ip, zond::handshake::ProbeOutcome::Refused, 42)
        .unwrap();
    assert_eq!(host.primary_ip, ip);
    assert_eq!(host.rtt_samples().as_slice(), &[42]);
    assert!(host.min_rtt().is_some());
}

#[test]
fn handshake_timeout_makes_nothing() {
    let ip = IpAddress::V4(v4(127, 0, 0, 1));
    let none = zond::handshake::evaluate_probe(&ip, zond::handshake::ProbeOutcome::TimedOut, 42);
    assert!(none.is_none());
}

#[test]
fn handshake_scan_respects_the_stop_flag() {
    let targets = vec![IpAddress::V4(v4(127, 0, 0, 1)), IpAddress::V4(v4(127, 0, 0, 2))];
    let mut scan = zond::handshake::HandshakeScan::new(targets);
    let first = scan.next_target(false);
    assert_eq!(first, Some(IpAddress::V4(v4(127, 0, 0, 1))));
    // once the stop flag is up, no further targets come out
    assert_eq!(scan.next_target(true), None);
    assert_eq!(scan.next_target(false), Some(IpAddress::V4(v4(127, 0, 0, 2))));
    assert_eq!(scan.next_target(false), None);
}

#[test]
fn handshake_scan_books_one_host_per_answering_target() {
    let targets: Vec<IpAddress> =
        (1..=3u8).map(|d| IpAddress::V4(v4(127, 0, 0, d))).collect();
    let mut scan = zond::handshake::HandshakeScan::new(targets.clone());
    while let Some(target) = scan.next_target(false) {
        scan.record_outcome(&target, zond::handshake::ProbeOutcome::Refused, 100);
    }
    let hosts = scan.finish();
    assert_eq!(hosts.len(), 3);
    for (host, target) in hosts.iter().zip(targets.iter()) {
        assert_eq!(host.primary_ip, *target);
        assert!(host.min_rtt().is_some());
    }
}

#[test]
fn routed_deadline_clamps_between_floor_and_ceiling() {
    assert_eq!(calculate_deadline(0, 0), ROUTED_MIN_SCAN_NANOS);
    // half a millisecond per target
    assert_eq!(calculate_deadline(0, 1000), ROUTED_MIN_SCAN_NANOS + 500_000_000);
    assert_eq!(calculate_deadline(0, 1_000_000), ROUTED_MAX_SCAN_NANOS);
    assert_eq!(calculate_deadline(7, 0), 7 + ROUTED_MIN_SCAN_NANOS);
}

#[test]
fn addresses_expands_ranges_in_order_then_singles() {
    let mut collection = IpCollection::new();
    collection.add_range(Ipv4Range::new(v4(10, 0, 0, 9), v4(10, 0, 0, 10)));
    collection.add_range(Ipv4Range::new(v4(10, 0, 0, 1), v4(10, 0, 0, 2)));
    collection.add_single(IpAddress::V6(7));
    collection.add_single(IpAddress::V4(v4(172, 16, 0, 1)));
    let all = collection.addresses();
    assert_eq!(
        all,
        vec![
            IpAddress::V4(v4(10, 0, 0, 9)),
            IpAddress::V4(v4(10, 0, 0, 10)),
            IpAddress::V4(v4(10, 0, 0, 1)),
            IpAddress::V4(v4(10, 0, 0, 2)),
            // the singles sort IPv4 first
            IpAddress::V4(v4(172, 16, 0, 1)),
            IpAddress::V6(7),
        ]
    );
}
