use zond::config::PacketType;
use zond::iface::{
    find_local_index, is_viable_lan_interface, select_best_lan_interface, InterfaceInfo,
    ViabilityError,
};
use zond::net::{IpAddress, IpNet, Ipv4Net, Ipv6Net, Mac};
use zond::sender::{ProbeSource, SenderConfig};

fn v4(a: u8, b: u8, c: u8, d: u8) -> u32 {
    ((a as u32) << 24) | ((b as u32) << 16) | ((c as u32) << 8) | (d as u32)
}

fn make_iface(name: &str, mac: Option<Mac>, ips: Vec<IpNet>, up: bool, broadcast: bool) -> InterfaceInfo {
    InterfaceInfo {
        name: name.to_string(),
        index: 0,
        mac,
        ips,
        up,
        loopback: false,
        broadcast,
        point_to_point: false,
        physical: true,
        wireless: false,
    }
}

fn default_mac() -> Option<Mac> {
    Some(Mac::new(0x1, 0x2, 0x3, 0x4, 0x5, 0x6))
}

fn default_ips() -> Vec<IpNet> {
    vec![IpNet::V4(Ipv4Net { ip: v4(192, 168, 1, 100), prefix: 32 })]
}

fn link_local_net() -> IpNet {
    IpNet::V6(Ipv6Net { ip: 0xfe80_0000_0000_0000_1234_5678_abcd_ef01, prefix: 64 })
}

#[test]
fn is_viable_lan_interface_should_succeed() {
    let interface = make_iface("eth0", default_mac(), default_ips(), true, true);
    assert_eq!(is_viable_lan_interface(&interface), Ok(()));
}

#[test]
fn is_viable_lan_interface_should_succeed_with_ipv6_link_local() {
    let interface = make_iface("eth0", default_mac(), vec![link_local_net()], true, true);
    assert_eq!(is_viable_lan_interface(&interface), Ok(()));
}

#[test]
fn is_viable_lan_interface_should_fail_with_invalid_ipv6() {
    let global = IpNet::V6(Ipv6Net { ip: 0x2001_0db8_0000_0000_0000_0000_0000_0001, prefix: 64 });
    let interface = make_iface("eth0", default_mac(), vec![global], true, true);
    assert_eq!(is_viable_lan_interface(&interface), Err(ViabilityError::NoValidLanIp));
}

#[test]
fn is_viable_lan_interface_should_fail_non_physical() {
    let mut interface = make_iface("eth1", default_mac(), default_ips(), true, true);
    interface.physical = false;
    assert_eq!(is_viable_lan_interface(&interface), Err(ViabilityError::NotPhysical));
}

#[test]
fn is_viable_lan_interface_should_fail_no_mac_addr() {
    let interface = make_iface("eth0", None, default_ips(), true, true);
    assert_eq!(is_viable_lan_interface(&interface), Err(ViabilityError::NoMacAddress));
}

#[test]
fn is_viable_lan_interface_should_fail_no_ips() {
    let interface = make_iface("eth8", default_mac(), vec![], true, true);
    assert_eq!(is_viable_lan_interface(&interface), Err(ViabilityError::NoValidLanIp));
}

#[test]
fn is_viable_lan_interface_should_fail_when_down() {
    let interface = make_iface("wlan0", default_mac(), default_ips(), false, true);
    assert_eq!(is_viable_lan_interface(&interface), Err(ViabilityError::IsDown));
}

#[test]
fn is_viable_lan_interface_should_fail_loop_back() {
    let mut interface = make_iface("lo", default_mac(), default_ips(), true, true);
    interface.loopback = true;
    assert_eq!(is_viable_lan_interface(&interface), Err(ViabilityError::NotPhysical));
}

#[test]
fn is_viable_lan_interface_should_fail_not_broadcast() {
    let interface = make_iface("eth0", default_mac(), default_ips(), true, false);
    assert_eq!(is_viable_lan_interface(&interface), Err(ViabilityError::NotBroadcast));
}

#[test]
fn is_viable_lan_interface_should_fail_point_to_point() {
    let mut interface = make_iface("tun0", default_mac(), default_ips(), true, true);
    interface.point_to_point = true;
    assert_eq!(is_viable_lan_interface(&interface), Err(ViabilityError::IsPointToPoint));
}

#[test]
fn select_best_lan_interface_selects_first_interface() {
    let mut wireless = make_iface("wlan0", default_mac(), default_ips(), true, true);
    wireless.wireless = true;
    let interfaces = vec![wireless];
    let idx = select_best_lan_interface(&interfaces).expect("should have selected an interface");
    assert_eq!(interfaces[idx].name, "wlan0");
}

#[test]
fn select_best_lan_interface_selects_wired_over_wireless() {
    let wired = make_iface("eth0", default_mac(), default_ips(), true, true);
    let mut wireless = make_iface("wlan0", default_mac(), default_ips(), true, true);
    wireless.wireless = true;
    let interfaces = vec![wireless, wired];
    let idx = select_best_lan_interface(&interfaces).expect("should have selected an interface");
    assert_eq!(interfaces[idx].name, "eth0");
}

#[test]
fn select_best_lan_interface_returns_none() {
    let interfaces: Vec<InterfaceInfo> = vec![];
    assert!(select_best_lan_interface(&interfaces).is_none());
}

#[test]
fn test_find_local_index_ipv4() {
    let iface = make_iface(
        "eth0",
        None,
        vec![IpNet::V4(Ipv4Net { ip: v4(192, 168, 1, 5), prefix: 24 })],
        true,
        true,
    );
    let interfaces = vec![iface];
    let inside = IpAddress::V4(v4(192, 168, 1, 20));
    assert_eq!(find_local_index(&interfaces, &inside), Some(0));
    let outside = IpAddress::V4(v4(192, 168, 2, 20));
    assert_eq!(find_local_index(&interfaces, &outside), None);
}

#[test]
fn test_find_local_index_ipv6() {
    let net = Ipv6Net { ip: 0x2001_0db8_0000_0000_0000_0000_0000_0001, prefix: 64 };
    let iface = make_iface("eth0", None, vec![IpNet::V6(net)], true, true);
    let interfaces = vec![iface];
    let inside = IpAddress::V6(0x2001_0db8_0000_0000_0000_0000_0000_0005);
    assert_eq!(find_local_index(&interfaces, &inside), Some(0));
    let v4_target = IpAddress::V4(v4(192, 168, 1, 1));
    assert_eq!(find_local_index(&interfaces, &v4_target), None);
}

#[test]
fn sender_config_takes_interface_shape() {
    let iface = make_iface(
        "eth0",
        default_mac(),
        vec![
            IpNet::V4(Ipv4Net { ip: v4(192, 168, 1, 5), prefix: 24 }),
            link_local_net(),
        ],
        true,
        true,
    );
    let mut cfg = SenderConfig::from_interface(&iface);
    assert_eq!(cfg.get_local_mac(), Ok(Mac::new(1, 2, 3, 4, 5, 6)));
    assert_eq!(cfg.get_ipv4_net().unwrap().ip, v4(192, 168, 1, 5));
    assert!(cfg.get_link_local().is_ok());
    assert!(cfg.is_empty());
    cfg.add_target(&IpAddress::V4(v4(192, 168, 1, 9)));
    cfg.add_target(&IpAddress::V4(v4(192, 168, 1, 9)));
    cfg.add_target(&IpAddress::V6(1));
    assert_eq!(cfg.len(), 2);
    assert!(cfg.has_addr(&IpAddress::V4(v4(192, 168, 1, 9))));
    assert!(!cfg.has_addr(&IpAddress::V4(v4(192, 168, 1, 10))));
    assert!(cfg.is_addr_in_subnet(&IpAddress::V4(v4(192, 168, 1, 77))));
    assert!(!cfg.is_addr_in_subnet(&IpAddress::V4(v4(10, 0, 0, 1))));
    cfg.add_packet_type(PacketType::ARP);
    assert!(cfg.has_packet_type(PacketType::ARP));
    assert!(!cfg.has_packet_type(PacketType::ICMPv6));
}

#[test]
fn probe_source_yields_one_arp_per_target_then_echo() {
    let iface = make_iface(
        "eth0",
        default_mac(),
        vec![
            IpNet::V4(Ipv4Net { ip: v4(192, 168, 1, 5), prefix: 24 }),
            link_local_net(),
        ],
        true,
        true,
    );
    let mut cfg = SenderConfig::from_interface(&iface);
    cfg.add_target(&IpAddress::V4(v4(192, 168, 1, 9)));
    cfg.add_target(&IpAddress::V4(v4(192, 168, 1, 10)));
    cfg.add_packet_type(PacketType::ARP);
    cfg.add_packet_type(PacketType::ICMPv6);
    let mut source = ProbeSource::new(&cfg, 7, 0).unwrap();
    let mut seen = Vec::new();
    while let Some((frame, ip)) = source.next() {
        assert!(frame.len() >= 54);
        seen.push(ip);
    }
    assert_eq!(seen.len(), 3);
    assert!(seen.contains(&IpAddress::V4(v4(192, 168, 1, 9))));
    assert!(seen.contains(&IpAddress::V4(v4(192, 168, 1, 10))));
    assert_eq!(seen[2], IpAddress::V6(0xfe80_0000_0000_0000_1234_5678_abcd_ef01));
}

#[test]
fn probe_source_needs_a_mac_for_arp() {
    let iface = make_iface("eth0", None, default_ips(), true, true);
    let mut cfg = SenderConfig::from_interface(&iface);
    cfg.add_packet_type(PacketType::ARP);
    cfg.add_target(&IpAddress::V4(v4(192, 168, 1, 9)));
    assert!(ProbeSource::new(&cfg, 0, 0).is_err());
}

#[test]
fn local_scan_books_an_arp_reply() {
    let iface = make_iface(
        "eth0",
        default_mac(),
        vec![IpNet::V4(Ipv4Net { ip: v4(192, 168, 1, 5), prefix: 24 })],
        true,
        true,
    );
    let mut cfg = SenderConfig::from_interface(&iface);
    cfg.add_packet_type(PacketType::ARP);
    let neighbour = IpAddress::V4(v4(192, 168, 1, 9));
    cfg.add_target(&neighbour);
    let timer = zond::timer::ScanTimer::new(0, 7_500_000_000, 2_500_000_000, 500_000_000);
    let mut scan = zond::local_scan::LocalScan::new(cfg, timer, false);
    scan.record_sent(&neighbour, 1_000);
    assert!(scan.should_continue(false, 2_000));
    // a reply frame from the neighbour's hardware address
    let neighbour_mac = Mac::new(0xaa, 0xbb, 0xcc, 0x01, 0x02, 0x03);
    let reply = zond::frames::arp_request_frame(
        &neighbour_mac,
        &Mac::new(1, 2, 3, 4, 5, 6),
        v4(192, 168, 1, 9),
        v4(192, 168, 1, 5),
    );
    let notified = scan.on_frame(&reply, 4_000).unwrap();
    assert_eq!(notified, Some(neighbour));
    assert_eq!(scan.host_count(), 1);
    // the same frame again books nothing new
    let second = scan.on_frame(&reply, 5_000).unwrap();
    assert_eq!(second, None);
    assert_eq!(scan.host_count(), 1);
    assert!(!scan.should_continue(false, 5_000));
    let hosts = scan.finish();
    assert_eq!(hosts.len(), 1);
    assert_eq!(hosts[0].primary_ip, neighbour);
    assert_eq!(hosts[0].mac, Some(neighbour_mac));
    // the round trip is the gap between send and reply
    assert_eq!(hosts[0].min_rtt(), Some(3_000));
}

#[test]
fn local_scan_drops_own_echo() {
    let iface = make_iface(
        "eth0",
        default_mac(),
        vec![IpNet::V4(Ipv4Net { ip: v4(192, 168, 1, 5), prefix: 24 })],
        true,
        true,
    );
    let cfg = SenderConfig::from_interface(&iface);
    let timer = zond::timer::ScanTimer::new(0, 1, 1, 1);
    let mut scan = zond::local_scan::LocalScan::new(cfg, timer, false);
    let own = zond::frames::arp_request_frame(
        &Mac::new(1, 2, 3, 4, 5, 6),
        &Mac::new(0, 0, 0, 0, 0, 0),
        v4(192, 168, 1, 5),
        v4(192, 168, 1, 9),
    );
    assert_eq!(scan.on_frame(&own, 10).unwrap(), None);
    assert_eq!(scan.host_count(), 0);
}

#[test]
fn routed_scan_correlates_by_acknowledged_sequence() {
    let mut targets = zond::range::IpCollection::new();
    let target = IpAddress::V4(v4(93, 184, 216, 34));
    targets.add_single(target);
    let mut scan =
        zond::routed_scan::RoutedScan::new(Some(v4(10, 0, 0, 5)), None, 55555, targets).unwrap();
    let seq: u32 = 0x00c0ffee;
    let probe = scan.make_probe(&target, seq).unwrap();
    assert_eq!(probe.len(), 24);
    scan.record_sent(&target, seq, 1_000);
    // a SYN-ACK acknowledging seq + 1
    let mut reply = vec![0u8; 20];
    reply[8..12].copy_from_slice(&(seq + 1).to_be_bytes());
    let is_new = scan.on_segment(&target, &reply, 3_500);
    assert!(is_new);
    assert!(!scan.on_segment(&target, &reply, 4_000));
    assert!(scan.all_responded());
    // a stranger's segment books nothing
    assert!(!scan.on_segment(&IpAddress::V4(v4(8, 8, 8, 8)), &reply, 4_100));
    let hosts = scan.finish();
    assert_eq!(hosts.len(), 1);
    assert_eq!(hosts[0].primary_ip, target);
    assert_eq!(hosts[0].min_rtt(), Some(2_500));
}

#[test]
fn plan_without_privileges_is_one_fallback() {
    let cfg = zond::config::Config::default();
    let buckets = zond::iface::InterfaceBuckets { local: vec![], routed: vec![] };
    let plan = zond::orchestrate::plan_discovery(false, &cfg, &buckets, false);
    assert!(!plan.with_resolver);
    assert_eq!(plan.tasks, vec![zond::orchestrate::ScanTask::Fallback]);
}

#[test]
fn plan_with_privileges_spawns_per_bucket() {
    let cfg = zond::config::Config::default();
    let mut local0 = zond::range::IpCollection::new();
    local0.add_single(IpAddress::V4(v4(192, 168, 1, 9)));
    let mut routed1 = zond::range::IpCollection::new();
    routed1.add_single(IpAddress::V4(v4(8, 8, 8, 8)));
    let buckets = zond::iface::InterfaceBuckets {
        local: vec![local0, zond::range::IpCollection::new()],
        routed: vec![zond::range::IpCollection::new(), routed1],
    };
    let plan = zond::orchestrate::plan_discovery(true, &cfg, &buckets, false);
    assert!(plan.with_resolver);
    assert_eq!(
        plan.tasks,
        vec![
            zond::orchestrate::ScanTask::Local(0),
            zond::orchestrate::ScanTask::Routed(1),
            zond::orchestrate::ScanTask::Fallback,
        ]
    );
    let quiet = zond::config::Config { no_dns: true, ..zond::config::Config::default() };
    let plan2 = zond::orchestrate::plan_discovery(true, &quiet, &buckets, true);
    assert!(!plan2.with_resolver);
    assert_eq!(plan2.tasks.len(), 2);
}

#[test]
fn loopback_targets_fall_to_the_unmapped_remainder() {
    // a loopback interface is not usable for routing: its targets must
    // not be treated as on-link, so the connect prober handles them
    let mut lo = make_iface(
        "lo",
        None,
        vec![IpNet::V4(Ipv4Net { ip: v4(127, 0, 0, 1), prefix: 8 })],
        true,
        false,
    );
    lo.loopback = true;
    let interfaces = vec![lo];
    let mut collection = zond::range::IpCollection::new();
    collection.add_single(IpAddress::V4(v4(127, 0, 0, 1)));
    let (locals, pending) = zond::iface::split_ranges(&interfaces, &collection);
    assert_eq!(locals[0].len(), 0);
    assert_eq!(pending, vec![IpAddress::V4(v4(127, 0, 0, 1))]);
    // even though the kernel names a loopback source, no usable
    // interface owns it
    let resolved = vec![(
        IpAddress::V4(v4(127, 0, 0, 1)),
        Some(IpAddress::V4(v4(127, 0, 0, 1))),
    )];
    let (buckets, unmapped) = zond::iface::assign_singles(&interfaces, locals, &resolved);
    assert_eq!(buckets.local[0].len(), 0);
    assert_eq!(buckets.routed[0].len(), 0);
    assert!(unmapped.contains(&IpAddress::V4(v4(127, 0, 0, 1))));
}

#[test]
fn split_and_assign_partition_targets() {
    let iface = make_iface(
        "eth0",
        default_mac(),
        vec![IpNet::V4(Ipv4Net { ip: v4(192, 168, 1, 5), prefix: 24 })],
        true,
        true,
    );
    let interfaces = vec![iface];
    let mut collection = zond::range::IpCollection::new();
    collection.add_range(zond::range::Ipv4Range::new(v4(192, 168, 1, 10), v4(192, 168, 1, 12)));
    collection.add_single(IpAddress::V4(v4(8, 8, 8, 8)));
    collection.add_single(IpAddress::V4(v4(127, 0, 0, 1)));
    let (locals, pending) = zond::iface::split_ranges(&interfaces, &collection);
    assert_eq!(locals.len(), 1);
    assert_eq!(locals[0].len(), 3);
    assert_eq!(pending.len(), 2);
    // the kernel said 8.8.8.8 routes via our address; loopback stayed dark
    let resolved = vec![
        (IpAddress::V4(v4(8, 8, 8, 8)), Some(IpAddress::V4(v4(192, 168, 1, 5)))),
        (IpAddress::V4(v4(127, 0, 0, 1)), None),
    ];
    let (buckets, unmapped) = zond::iface::assign_singles(&interfaces, locals, &resolved);
    assert_eq!(buckets.routed[0].len(), 1);
    assert!(buckets.routed[0].contains(&IpAddress::V4(v4(8, 8, 8, 8))));
    assert_eq!(unmapped.len(), 1);
    assert!(unmapped.contains(&IpAddress::V4(v4(127, 0, 0, 1))));
}

#[test]
fn routed_scan_wraps_a_zero_acknowledgement() {
    let mut targets = zond::range::IpCollection::new();
    let target = IpAddress::V4(v4(93, 184, 216, 34));
    targets.add_single(target);
    let mut scan =
        zond::routed_scan::RoutedScan::new(Some(v4(10, 0, 0, 5)), None, 55555, targets).unwrap();
    // a probe sent with the highest sequence number is answered by an
    // acknowledgement that wrapped to zero
    scan.record_sent(&target, u32::MAX, 1_000);
    let reply = vec![0u8; 20];
    assert!(scan.on_segment(&target, &reply, 1_750));
    let hosts = scan.finish();
    assert_eq!(hosts.len(), 1);
    assert_eq!(hosts[0].min_rtt(), Some(750));
}

#[test]
fn ipv6_neighbours_from_unknown_hardware_need_a_lan_scan() {
    let iface = make_iface(
        "eth0",
        default_mac(),
        vec![IpNet::V6(Ipv6Net { ip: 0xfe80_0000_0000_0000_0000_0000_0000_0005, prefix: 64 })],
        true,
        true,
    );
    // a raw frame from a stranger's hardware address, sourced inside
    // the link-local subnet
    let src_ip: u128 = 0xfe80_0000_0000_0000_0000_0000_0000_0031;
    let dst_ip: u128 = 0xfe80_0000_0000_0000_0000_0000_0000_0005;
    let mut frame = vec![0u8; 54];
    frame[0..6].copy_from_slice(&[1, 2, 3, 4, 5, 6]);
    frame[6..12].copy_from_slice(&[0xaa, 0xbb, 0xcc, 0x01, 0x02, 0x03]);
    frame[12..14].copy_from_slice(&[0x86, 0xdd]);
    frame[22..38].copy_from_slice(&src_ip.to_be_bytes());
    frame[38..54].copy_from_slice(&dst_ip.to_be_bytes());
    // without the lan keyword the stranger is ignored
    let cfg = SenderConfig::from_interface(&iface);
    let timer = zond::timer::ScanTimer::new(0, 7_500_000_000, 2_500_000_000, 500_000_000);
    let mut narrow = zond::local_scan::LocalScan::new(cfg, timer, false);
    assert_eq!(narrow.on_frame(&frame, 10).unwrap(), None);
    assert_eq!(narrow.host_count(), 0);
    // with it the neighbour is booked
    let cfg = SenderConfig::from_interface(&iface);
    let timer = zond::timer::ScanTimer::new(0, 7_500_000_000, 2_500_000_000, 500_000_000);
    let mut wide = zond::local_scan::LocalScan::new(cfg, timer, true);
    let notified = wide.on_frame(&frame, 10).unwrap();
    assert_eq!(notified, Some(IpAddress::V6(src_ip)));
    assert_eq!(wide.host_count(), 1);
}
