use pnet::packet::arp::{ArpHardwareTypes, ArpOperations, ArpPacket, MutableArpPacket};
use pnet::packet::ethernet::{EtherTypes, EthernetPacket, MutableEthernetPacket};
use pnet::packet::tcp::TcpPacket;
use pnet::packet::Packet;
use pnet::util::MacAddr;
use zond::frames;
use zond::net::{IpAddress, Mac};

fn v4(a: u8, b: u8, c: u8, d: u8) -> u32 {
    ((a as u32) << 24) | ((b as u32) << 16) | ((c as u32) << 8) | (d as u32)
}

const ETH_HDR_LEN: usize = 14;
const ARP_LEN: usize = 28;

#[test]
fn create_arp_request_packet() {
    let src_mac = Mac::new(0x01, 0x02, 0x03, 0x04, 0x05, 0x06);
    let dst_mac = Mac::new(0xaa, 0xbb, 0xcc, 0xdd, 0xee, 0xff);
    let src_addr = v4(192, 168, 1, 10);
    let dst_addr = v4(192, 168, 1, 1);

    let buffer = frames::arp_request_frame(&src_mac, &dst_mac, src_addr, dst_addr);
    assert!(buffer.len() >= 60);

    // read the frame back with an independent decoder
    let eth_packet = EthernetPacket::new(&buffer).expect("failed to parse the Ethernet frame");
    assert_eq!(eth_packet.get_destination(), MacAddr::broadcast());
    assert_eq!(eth_packet.get_source(), MacAddr::new(0x01, 0x02, 0x03, 0x04, 0x05, 0x06));
    assert_eq!(eth_packet.get_ethertype(), EtherTypes::Arp);

    let arp_payload = eth_packet.payload();
    assert!(arp_payload.len() >= ARP_LEN);
    let arp_packet = ArpPacket::new(arp_payload).expect("failed to parse the ARP payload");
    assert_eq!(arp_packet.get_operation(), ArpOperations::Request);
    assert_eq!(arp_packet.get_hardware_type(), ArpHardwareTypes::Ethernet);
    assert_eq!(arp_packet.get_protocol_type(), EtherTypes::Ipv4);
    assert_eq!(arp_packet.get_hw_addr_len(), 6);
    assert_eq!(arp_packet.get_proto_addr_len(), 4);
    assert_eq!(arp_packet.get_sender_hw_addr(), MacAddr::new(1, 2, 3, 4, 5, 6));
    assert_eq!(arp_packet.get_sender_proto_addr().octets(), [192, 168, 1, 10]);
    assert_eq!(arp_packet.get_target_hw_addr(), MacAddr::new(0xaa, 0xbb, 0xcc, 0xdd, 0xee, 0xff));
    assert_eq!(arp_packet.get_target_proto_addr().octets(), [192, 168, 1, 1]);
}

fn build_mock_arp_packet(sender_ip: [u8; 4], payload_size: usize) -> Vec<u8> {
    let mut eth_buffer = vec![0u8; ETH_HDR_LEN];
    {
        let mut eth_pkt = MutableEthernetPacket::new(&mut eth_buffer).unwrap();
        eth_pkt.set_destination(MacAddr::broadcast());
        eth_pkt.set_source(MacAddr::new(0x01, 0x02, 0x03, 0x04, 0x05, 0x06));
        eth_pkt.set_ethertype(EtherTypes::Arp);
    }
    let mut arp_buffer = vec![0u8; payload_size];
    if payload_size >= ARP_LEN {
        let mut arp_pkt = MutableArpPacket::new(&mut arp_buffer[..ARP_LEN]).unwrap();
        arp_pkt.set_hardware_type(ArpHardwareTypes::Ethernet);
        arp_pkt.set_protocol_type(EtherTypes::Ipv4);
        arp_pkt.set_hw_addr_len(6);
        arp_pkt.set_proto_addr_len(4);
        arp_pkt.set_operation(ArpOperations::Reply);
        arp_pkt.set_sender_hw_addr(MacAddr::new(0x01, 0x02, 0x03, 0x04, 0x05, 0x06));
        arp_pkt.set_sender_proto_addr(sender_ip.into());
        arp_pkt.set_target_hw_addr(MacAddr::zero());
        arp_pkt.set_target_proto_addr([192, 168, 1, 1].into());
    }
    [eth_buffer, arp_buffer].concat()
}

#[test]
fn test_get_ip_addr_success() {
    let buffer = build_mock_arp_packet([192, 168, 1, 123], ARP_LEN);
    let result = frames::get_ip_addr_from_eth(&buffer);
    assert_eq!(result, Ok(IpAddress::V4(v4(192, 168, 1, 123))));
}

#[test]
fn test_get_ip_addr_truncated_payload() {
    let buffer = build_mock_arp_packet([0, 0, 0, 0], 10);
    let result = frames::get_ip_addr_from_eth(&buffer);
    assert_eq!(result, Err(zond::error::ScanError::Decode));
}

#[test]
fn test_get_ip_addr_wrong_payload_type() {
    // an EtherType the engine does not understand is refused
    let mut buffer = build_mock_arp_packet([0, 0, 0, 0], 20);
    buffer[12] = 0x12;
    buffer[13] = 0x34;
    let result = frames::get_ip_addr_from_eth(&buffer);
    assert_eq!(result, Err(zond::error::ScanError::Decode));
}

#[test]
fn arp_round_trip_preserves_sender_address() {
    let src_mac = Mac::new(0xde, 0xad, 0xbe, 0xef, 0x00, 0x01);
    let tha = Mac::new(0, 0, 0, 0, 0, 0);
    let spa = v4(10, 33, 44, 55);
    let frame = frames::arp_request_frame(&src_mac, &tha, spa, v4(10, 33, 44, 1));
    assert_eq!(frames::get_ip_addr_from_eth(&frame), Ok(IpAddress::V4(spa)));
}

#[test]
fn tcp_syn_matches_an_independent_decoder() {
    let src = IpAddress::V4(v4(10, 0, 0, 5));
    let dst = IpAddress::V4(v4(93, 184, 216, 34));
    let bytes = frames::create_tcp_syn(&src, &dst, 55555, 443, 0x01020304).unwrap();
    assert_eq!(bytes.len(), 24);
    let tcp = TcpPacket::new(&bytes).unwrap();
    assert_eq!(tcp.get_source(), 55555);
    assert_eq!(tcp.get_destination(), 443);
    assert_eq!(tcp.get_sequence(), 0x01020304);
    assert_eq!(tcp.get_acknowledgement(), 0);
    assert_eq!(tcp.get_data_offset(), 6);
    assert_eq!(tcp.get_flags(), 0x02);
    assert_eq!(tcp.get_window(), 1024);
    let src_ip = <_>::from([10u8, 0, 0, 5]);
    let dst_ip = <_>::from([93u8, 184, 216, 34]);
    let expected = pnet::packet::tcp::ipv4_checksum(&tcp, &src_ip, &dst_ip);
    assert_eq!(tcp.get_checksum(), expected);
}

#[test]
fn tcp_syn_refuses_mixed_families() {
    let src = IpAddress::V4(v4(10, 0, 0, 5));
    let dst = IpAddress::V6(1);
    let r = frames::create_tcp_syn(&src, &dst, 1, 2, 3);
    assert_eq!(r, Err(zond::error::ScanError::Send));
}

#[test]
fn icmpv6_echo_frame_checks_out() {
    let src_mac = Mac::new(2, 0, 0, 0, 0, 1);
    let link_local: u128 = 0xfe80_0000_0000_0000_0000_0000_0000_0009;
    let frame = frames::create_all_nodes_echo_request_v6(&src_mac, link_local, 0x4242, 0);
    assert_eq!(frame.len(), 14 + 40 + 8);
    // destination is the all-nodes group address
    assert_eq!(&frame[0..6], &[0x33, 0x33, 0, 0, 0, 1]);
    assert_eq!(&frame[12..14], &[0x86, 0xdd]);
    // hop limit one, next header ICMPv6
    assert_eq!(frame[20], 58);
    assert_eq!(frame[21], 1);
    // echo request with our identifier
    assert_eq!(frame[54], 128);
    assert_eq!(frame[55], 0);
    assert_eq!(&frame[58..60], &[0x42, 0x42]);
    // the checksum satisfies an independent computation
    let icmp = pnet::packet::icmpv6::Icmpv6Packet::new(&frame[54..]).unwrap();
    let src_ip = <_>::from(link_local.to_be_bytes());
    let dst_ip = <_>::from(0xff02_0000_0000_0000_0000_0000_0000_0001u128.to_be_bytes());
    let expected = pnet::packet::icmpv6::checksum(&icmp, &src_ip, &dst_ip);
    assert_eq!(icmp.get_checksum(), expected);
}

#[test]
fn udp_packet_wraps_payload() {
    let payload = vec![1u8, 2, 3];
    let bytes = frames::create_udp_packet(50001, 53, &payload);
    assert_eq!(bytes, vec![0xc3, 0x51, 0, 53, 0, 11, 0, 0, 1, 2, 3]);
    assert_eq!(frames::udp_source_port(&bytes), Some(50001));
}

#[test]
fn ptr_query_reads_back_with_an_outside_parser() {
    let ip = IpAddress::V4(v4(192, 168, 1, 7));
    let query = zond::dnswire::create_ptr_packet(&ip, 0x77);
    let parsed = dns_parser::Packet::parse(&query).expect("the query must parse");
    assert_eq!(parsed.header.id, 0x77);
    assert_eq!(parsed.questions.len(), 1);
    assert_eq!(parsed.questions[0].qname.to_string(), "7.1.168.192.in-addr.arpa");
    assert!(matches!(parsed.questions[0].qtype, dns_parser::QueryType::PTR));
    assert!(parsed.header.recursion_desired);
}

#[test]
fn ptr_query_for_ipv6_reads_back_too() {
    let ip = IpAddress::V6(0xfe80_0000_0000_0000_0000_0000_0000_0001);
    let query = zond::dnswire::create_ptr_packet(&ip, 9);
    let parsed = dns_parser::Packet::parse(&query).expect("the query must parse");
    assert_eq!(
        parsed.questions[0].qname.to_string(),
        "1.0.0.0.0.0.0.0.0.0.0.0.0.0.0.0.0.0.0.0.0.0.0.0.0.0.0.0.0.8.e.f.ip6.arpa"
    );
}

fn encode_name(name: &str) -> Vec<u8> {
    let mut out = Vec::new();
    for label in name.split('.') {
        out.push(label.len() as u8);
        out.extend_from_slice(label.as_bytes());
    }
    out.push(0);
    out
}

fn dns_response(id: u16, owner: &str, ptr_target: &str) -> Vec<u8> {
    let mut b = Vec::new();
    b.extend_from_slice(&id.to_be_bytes());
    b.extend_from_slice(&[0x81, 0x80]); // response, recursion available
    b.extend_from_slice(&[0, 0, 0, 1, 0, 0, 0, 0]); // one answer
    b.extend_from_slice(&encode_name(owner));
    b.extend_from_slice(&[0, 12, 0, 1, 0, 0, 0, 60]); // PTR IN ttl 60
    let rdata = encode_name(ptr_target);
    b.extend_from_slice(&(rdata.len() as u16).to_be_bytes());
    b.extend_from_slice(&rdata);
    b
}

#[test]
fn dns_answer_yields_id_and_hostname() {
    let payload = dns_response(0x1234, "7.1.168.192.in-addr.arpa", "myhost.local");
    let (id, name) = zond::dnswire::get_hostname(&payload).unwrap();
    assert_eq!(id, 0x1234);
    assert_eq!(name, "myhost.local");
}

#[test]
fn dns_answer_with_compression_pointer_resolves() {
    // the answer's owner name is a pointer back into the header area
    let mut payload = dns_response(7, "x.arpa", "printer.local");
    // append a second record whose rdata points at the first rdata name
    let target_off = {
        // find "printer" label start by scanning
        let needle = b"\x07printer";
        payload.windows(needle.len()).position(|w| w == needle).unwrap() as u16
    };
    payload[7] = 2; // two answers now
    payload.extend_from_slice(&encode_name("y.arpa"));
    payload.extend_from_slice(&[0, 12, 0, 1, 0, 0, 0, 60]);
    payload.extend_from_slice(&[0, 2]);
    payload.extend_from_slice(&(0xc000u16 | target_off).to_be_bytes());
    let (_, name) = zond::dnswire::get_hostname(&payload).unwrap();
    assert_eq!(name, "printer.local");
}

#[test]
fn malformed_dns_is_refused() {
    let payload = vec![0u8; 5];
    assert!(zond::dnswire::get_hostname(&payload).is_err());
}

fn mdns_packet() -> Vec<u8> {
    let mut b = Vec::new();
    b.extend_from_slice(&[0, 0, 0x84, 0x00]); // mDNS response
    b.extend_from_slice(&[0, 0, 0, 2, 0, 0, 0, 1]); // two answers, one additional
    // PTR answer naming the printer
    b.extend_from_slice(&encode_name("_ipp._tcp.local"));
    b.extend_from_slice(&[0, 12, 0, 1, 0, 0, 0, 60]);
    let rdata = encode_name("myprinter.local");
    b.extend_from_slice(&(rdata.len() as u16).to_be_bytes());
    b.extend_from_slice(&rdata);
    // A answer
    b.extend_from_slice(&encode_name("myprinter.local"));
    b.extend_from_slice(&[0, 1, 0, 1, 0, 0, 0, 60, 0, 4, 192, 168, 1, 9]);
    // AAAA additional
    b.extend_from_slice(&encode_name("myprinter.local"));
    b.extend_from_slice(&[0, 28, 0, 1, 0, 0, 0, 60, 0, 16]);
    b.extend_from_slice(&0xfe80_0000_0000_0000_0000_0000_0000_0031u128.to_be_bytes());
    b
}

#[test]
fn mdns_record_collects_name_and_addresses() {
    let record = zond::dnswire::extract_resource(&mdns_packet()).unwrap();
    assert_eq!(record.hostname.as_deref(), Some("myprinter.local"));
    assert_eq!(record.ips.len(), 2);
    assert!(record.ips.contains(&IpAddress::V4(v4(192, 168, 1, 9))));
    assert!(record.ips.contains(&IpAddress::V6(0xfe80_0000_0000_0000_0000_0000_0000_0031)));
}

#[test]
fn resolver_query_and_answer_round_trip() {
    let mut state = zond::resolver::ResolverState::new(IpAddress::V4(v4(1, 1, 1, 1)), 53);
    let target = IpAddress::V4(v4(192, 168, 1, 7));
    let (udp_bytes, id) = state.prepare_query(&target, 50001).unwrap();
    assert_eq!(id, 0);
    // the query parses with an outside decoder, past the UDP header
    let parsed = dns_parser::Packet::parse(&udp_bytes[8..]).unwrap();
    assert_eq!(parsed.header.id, 0);
    assert_eq!(parsed.questions[0].qname.to_string(), "7.1.168.192.in-addr.arpa");
    // an answer from port 53 settles the transaction
    let response = dns_response(0, "7.1.168.192.in-addr.arpa", "desk.local");
    let mut datagram = vec![0, 53, 0xc3, 0x51, 0, 0, 0, 0];
    datagram[4..6].copy_from_slice(&((response.len() as u16 + 8).to_be_bytes()));
    datagram.extend_from_slice(&response);
    state.process_udp_packet(&datagram).unwrap();
    assert_eq!(state.dns_map.len(), 0);
    assert_eq!(state.hostname_map.len(), 1);
    assert_eq!(state.hostname_map[0].0, target);
    assert_eq!(state.hostname_map[0].1, "desk.local");
    // the join phase hands the name to the host
    let mut hosts = vec![zond::host::Host::new(target)];
    state.resolve_hosts(&mut hosts);
    assert_eq!(hosts[0].hostname.as_deref(), Some("desk.local"));
}

#[test]
fn resolver_refuses_non_queryable_addresses() {
    let mut state = zond::resolver::ResolverState::new(IpAddress::V4(v4(1, 1, 1, 1)), 53);
    let link_local = IpAddress::V6(0xfe80_0000_0000_0000_0000_0000_0000_0001);
    let r = state.prepare_query(&link_local, 50001);
    assert_eq!(r.err(), Some(zond::error::ScanError::Resolver));
}

#[test]
fn mdns_absorption_joins_extra_addresses() {
    let mut state = zond::resolver::ResolverState::new(IpAddress::V4(v4(1, 1, 1, 1)), 53);
    let mut datagram = vec![0x14, 0xe9, 0xc3, 0x51, 0, 0, 0, 0]; // source port 5353
    datagram.extend_from_slice(&mdns_packet());
    state.process_udp_packet(&datagram).unwrap();
    assert_eq!(state.mdns_cache.len(), 1);
    // the record is keyed by its first IPv4 member
    assert_eq!(state.mdns_cache[0].0, IpAddress::V4(v4(192, 168, 1, 9)));
    let mut hosts = vec![zond::host::Host::new(IpAddress::V4(v4(192, 168, 1, 9)))];
    state.resolve_hosts(&mut hosts);
    assert_eq!(hosts[0].hostname.as_deref(), Some("myprinter.local"));
    assert!(hosts[0].ips.contains(&IpAddress::V6(0xfe80_0000_0000_0000_0000_0000_0000_0031)));
}

#[test]
fn test_known_vendor_lookup() {
    let cisco = zond::vendor::get_vendor(&Mac::new(0x00, 0x00, 0x0c, 0x01, 0x02, 0x03)).unwrap();
    let raspberry = zond::vendor::get_vendor(&Mac::new(0x2c, 0xcf, 0x67, 0x03, 0x02, 0x01))
        .unwrap();
    let asrock = zond::vendor::get_vendor(&Mac::new(0xa8, 0xa1, 0x59, 0xff, 0xff, 0xff)).unwrap();
    assert!(cisco.contains("Cisco"), "vendor string {:?} should contain Cisco", cisco);
    assert!(
        raspberry.contains("Raspberry"),
        "vendor string {:?} should contain Raspberry",
        raspberry
    );
    assert!(asrock.contains("ASRock"), "vendor string {:?} should contain ASRock", asrock);
}

#[test]
fn test_unknown_vendor_lookup() {
    let vendor = zond::vendor::get_vendor(&Mac::new(0xde, 0xad, 0xbe, 0xef, 0x00, 0x00));
    assert!(vendor.is_none(), "a locally administered address has no vendor");
}

#[test]
fn resolution_never_replaces_a_hostname_already_set() {
    let mut state = zond::resolver::ResolverState::new(IpAddress::V4(v4(1, 1, 1, 1)), 53);
    let target = IpAddress::V4(v4(192, 168, 1, 7));
    let (_bytes, id) = state.prepare_query(&target, 50001).unwrap();
    let response = dns_response(id, "7.1.168.192.in-addr.arpa", "desk.local");
    let mut datagram = vec![0, 53, 0xc3, 0x51, 0, 0, 0, 0];
    datagram[4..6].copy_from_slice(&((response.len() as u16 + 8).to_be_bytes()));
    datagram.extend_from_slice(&response);
    state.process_udp_packet(&datagram).unwrap();
    let mut host = zond::host::Host::new(target);
    host.hostname = Some("already-known".to_string());
    let mut hosts = vec![host];
    state.resolve_hosts(&mut hosts);
    assert_eq!(hosts[0].hostname.as_deref(), Some("already-known"));
    // the resolved name stays in the map, untaken
    assert_eq!(state.hostname_map.len(), 1);
}
