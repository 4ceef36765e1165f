use cibos::net::addr::{Ipv4Addr, NetError, MAC_BROADCAST};
use cibos::net::arp::{oper, reply, request, ArpCache, ArpPacket, ARP_CACHE_CAP, ARP_LEN};
use cibos::net::checksum::{checksum, checksum_accumulate, checksum_fold};
use cibos::net::ethernet::{EthFrame, ETH_HEADER_LEN};
use cibos::net::icmp::{echo_reply, echo_request, icmp_type, IcmpEcho};
use cibos::net::ipv4::{Ipv4Packet, IPV4_HEADER_LEN};
use cibos::net::udp::{UdpDatagram, UDP_HEADER_LEN};
use cibos::net::{ethernet, ethertype, ip_proto, ipv4, udp};

#[test]
fn arp_request_build_parse_roundtrips() {
    let smac = [0x52, 0x54, 0x00, 0xab, 0xcd, 0xef];
    let sip = Ipv4Addr::new(10, 0, 2, 15);
    let tip = Ipv4Addr::new(10, 0, 2, 2);
    let req = request(smac, sip, tip);
    let mut buf = [0u8; 28];
    req.build(&mut buf).unwrap();
    let parsed = ArpPacket::parse(&buf).unwrap();
    assert_eq!(parsed.oper, oper::REQUEST);
    assert_eq!(parsed.sender_ip, sip);
    assert_eq!(parsed.target_ip, tip);
    assert_eq!(parsed.sender_mac, smac);
}

#[test]
fn reply_targets_the_requester() {
    let req = request([1, 2, 3, 4, 5, 6], Ipv4Addr::new(1, 1, 1, 1), Ipv4Addr::new(2, 2, 2, 2));
    let our_mac = [9, 9, 9, 9, 9, 9];
    let rep = reply(&req, our_mac, Ipv4Addr::new(2, 2, 2, 2));
    assert_eq!(rep.oper, oper::REPLY);
    assert_eq!(rep.sender_mac, our_mac);
    assert_eq!(rep.target_mac, req.sender_mac);
    assert_eq!(rep.target_ip, req.sender_ip);
}

#[test]
fn cache_insert_and_lookup() {
    let mut c = ArpCache::new();
    let ip = Ipv4Addr::new(10, 0, 2, 2);
    let mac = [0x52, 0x55, 0x0a, 0x00, 0x02, 0x02];
    assert_eq!(c.lookup(ip), None);
    c.insert(ip, mac);
    assert_eq!(c.lookup(ip), Some(mac));
    // Update in place.
    let mac2 = [1, 1, 1, 1, 1, 1];
    c.insert(ip, mac2);
    assert_eq!(c.lookup(ip), Some(mac2));
}

#[test]
fn ethernet_build_then_parse_roundtrips() {
    let dst = [0xff; 6];
    let src = [0x52, 0x54, 0x00, 0xab, 0xcd, 0xef];
    let payload = [1u8, 2, 3, 4];
    let mut buf = [0u8; 64];
    let n = ethernet::build(&mut buf, dst, src, ethertype::ARP, &payload).unwrap();
    assert_eq!(n, ETH_HEADER_LEN + 4);
    let f = EthFrame::parse(&buf[..n]).unwrap();
    assert_eq!(f.dst, dst);
    assert_eq!(f.src, src);
    assert_eq!(f.ethertype, ethertype::ARP);
    assert_eq!(f.payload, &payload);
}

#[test]
fn parse_truncated_fails() {
    assert_eq!(EthFrame::parse(&[0u8; 10]), Err(NetError::Truncated));
}

#[test]
fn icmp_request_build_parse_roundtrips() {
    let mut buf = [0u8; 32];
    let n = echo_request(&mut buf, 0xABCD, 1, b"hello").unwrap();
    let e = IcmpEcho::parse(&buf[..n]).unwrap();
    assert!(!e.is_reply);
    assert_eq!(e.id, 0xABCD);
    assert_eq!(e.seq, 1);
    assert_eq!(e.payload, b"hello");
}

#[test]
fn reply_is_marked_reply() {
    let mut buf = [0u8; 32];
    let n = echo_reply(&mut buf, 1, 2, b"x").unwrap();
    let e = IcmpEcho::parse(&buf[..n]).unwrap();
    assert!(e.is_reply);
}

#[test]
fn ipv4_build_then_parse_roundtrips() {
    let src = Ipv4Addr::new(10, 0, 2, 15);
    let dst = Ipv4Addr::new(10, 0, 2, 2);
    let payload = [0xde, 0xad, 0xbe, 0xef];
    let mut buf = [0u8; 64];
    let n = ipv4::build(&mut buf, src, dst, ip_proto::UDP, 64, 0x1234, &payload).unwrap();
    let p = Ipv4Packet::parse(&buf[..n]).unwrap();
    assert_eq!(p.src, src);
    assert_eq!(p.dst, dst);
    assert_eq!(p.protocol, ip_proto::UDP);
    assert_eq!(p.ttl, 64);
    assert_eq!(p.payload, &payload);
}

#[test]
fn bad_checksum_detected() {
    let mut buf = [0u8; 24];
    ipv4::build(
        &mut buf,
        Ipv4Addr::new(1, 2, 3, 4),
        Ipv4Addr::new(5, 6, 7, 8),
        ip_proto::ICMP,
        64,
        1,
        &[0, 0, 0, 0],
    )
    .unwrap();
    buf[12] ^= 0xFF; // corrupt the source address after checksum was set
    assert_eq!(Ipv4Packet::parse(&buf), Err(NetError::BadChecksum));
}

#[test]
fn rejects_non_v4() {
    let mut buf = [0u8; 20];
    buf[0] = 0x65; // version 6
    assert_eq!(Ipv4Packet::parse(&buf), Err(NetError::Malformed));
}

#[test]
fn checksum_known_vector() {
    let data = [
        0x45u8, 0x00, 0x00, 0x73, 0x00, 0x00, 0x40, 0x00, 0x40, 0x11, 0x00, 0x00, 0xc0, 0xa8,
        0x00, 0x01, 0xc0, 0xa8, 0x00, 0xc7,
    ];
    assert_eq!(checksum(&data), 0xb861);
}

#[test]
fn checksum_of_valid_header_is_zero() {
    // Build a header with a correct checksum, then checksum the whole thing
    // (including the checksum field): the result must be 0.
    let mut data = [
        0x45u8, 0x00, 0x00, 0x73, 0x00, 0x00, 0x40, 0x00, 0x40, 0x11, 0x00, 0x00, 0xc0, 0xa8,
        0x00, 0x01, 0xc0, 0xa8, 0x00, 0xc7,
    ];
    let c = checksum(&data);
    data[10] = (c >> 8) as u8;
    data[11] = (c & 0xFF) as u8;
    assert_eq!(checksum(&data), 0);
}

#[test]
fn ipv4_addr_octets() {
    let ip = Ipv4Addr::new(10, 0, 2, 15);
    assert_eq!(ip.octets(), [10, 0, 2, 15]);
}

#[test]
fn build_then_parse_roundtrips_with_checksum() {
    let src = Ipv4Addr::new(10, 0, 2, 15);
    let dst = Ipv4Addr::new(10, 0, 2, 2);
    let payload = b"ping";
    let mut buf = [0u8; 64];
    let n = udp::build(&mut buf, src, dst, 5000, 53, payload).unwrap();
    let d = UdpDatagram::parse(&buf[..n], src, dst).unwrap();
    assert_eq!(d.src_port, 5000);
    assert_eq!(d.dst_port, 53);
    assert_eq!(d.payload, payload);
}

#[test]
fn corrupted_payload_fails_checksum() {
    let src = Ipv4Addr::new(10, 0, 2, 15);
    let dst = Ipv4Addr::new(10, 0, 2, 2);
    let mut buf = [0u8; 64];
    let n = udp::build(&mut buf, src, dst, 1, 2, b"data").unwrap();
    buf[UDP_HEADER_LEN] ^= 0xFF; // corrupt payload
    assert_eq!(
        UdpDatagram::parse(&buf[..n], src, dst),
        Err(NetError::BadChecksum)
    );
}

#[test]
fn small_buffers_are_refused() {
    let ip = Ipv4Addr::unspecified();
    let mut buf = [0u8; 8];
    assert_eq!(
        ethernet::build(&mut buf, MAC_BROADCAST, [0; 6], ethertype::IPV4, b"x"),
        Err(NetError::BufferTooSmall)
    );
    assert_eq!(
        ipv4::build(&mut buf, ip, ip, ip_proto::TCP, 1, 1, b"x"),
        Err(NetError::BufferTooSmall)
    );
    assert_eq!(udp::build(&mut buf, ip, ip, 1, 2, b"x"), Err(NetError::BufferTooSmall));
    assert_eq!(echo_request(&mut buf, 1, 2, b"x"), Err(NetError::BufferTooSmall));
    assert_eq!(request([0; 6], ip, ip).build(&mut buf), Err(NetError::BufferTooSmall));
}

#[test]
fn truncated_packets_are_refused() {
    let ip = Ipv4Addr::broadcast();
    assert_eq!(ip.octets(), [255; 4]);
    assert_eq!(ArpPacket::parse(&[0; ARP_LEN - 1]).err(), Some(NetError::Truncated));
    assert_eq!(Ipv4Packet::parse(&[0x45; IPV4_HEADER_LEN - 1]), Err(NetError::Truncated));
    assert_eq!(UdpDatagram::parse(&[0; 7], ip, ip), Err(NetError::Truncated));
    assert_eq!(IcmpEcho::parse(&[icmp_type::ECHO_REQUEST; 7]), Err(NetError::Truncated));
    assert_eq!(ArpPacket::parse(&[0; ARP_LEN]).err(), Some(NetError::Malformed));
}

#[test]
fn checksum_parts_add_up() {
    let sum = checksum_accumulate(0, &[0x00, 0x01, 0xf2, 0x03]);
    let sum = checksum_accumulate(sum, &[0xf4, 0xf5, 0xf6, 0xf7]);
    assert_eq!(checksum_fold(sum), checksum(&[0x00, 0x01, 0xf2, 0x03, 0xf4, 0xf5, 0xf6, 0xf7]));
    assert_eq!(checksum(&[0x00, 0x01, 0xf2, 0x03, 0xf4, 0xf5, 0xf6, 0xf7]), 0x220d);
    // An odd byte counts as the high byte of a word.
    assert_eq!(checksum(&[0x12]), !0x1200);
    assert_eq!(checksum(&[]), 0xffff);
}

#[test]
fn cache_replaces_round_robin() {
    let mut c = ArpCache::new();
    for i in 0..=ARP_CACHE_CAP as u8 {
        c.insert(Ipv4Addr::new(10, 0, 0, i), [i; 6]);
    }
    // The first was replaced by the last.
    assert_eq!(c.lookup(Ipv4Addr::new(10, 0, 0, 0)), None);
    assert_eq!(c.lookup(Ipv4Addr::new(10, 0, 0, 1)), Some([1; 6]));
    assert_eq!(c.lookup(Ipv4Addr::new(10, 0, 0, 16)), Some([16; 6]));
}

#[test]
fn any_changed_byte_of_an_echo_is_detected() {
    let mut buf = [0u8; 13];
    let n = echo_request(&mut buf, 0xABCD, 1, b"hello").unwrap();
    for i in 1..n {
        let mut bad = buf;
        bad[i] ^= 0x10;
        assert_eq!(IcmpEcho::parse(&bad), Err(NetError::BadChecksum));
    }
    let mut bad = buf;
    bad[0] = icmp_type::ECHO_REPLY;
    assert_eq!(IcmpEcho::parse(&bad), Err(NetError::BadChecksum));
    bad[0] = 3;
    assert_eq!(IcmpEcho::parse(&bad), Err(NetError::Malformed));
}

#[test]
fn any_changed_byte_of_a_header_is_detected() {
    let ip = Ipv4Addr::new(10, 0, 0, 1);
    let mut buf = [0u8; 24];
    ipv4::build(&mut buf, ip, ip, ip_proto::UDP, 64, 7, &[1, 2, 3, 4]).unwrap();
    for i in 4..IPV4_HEADER_LEN {
        let mut bad = buf;
        bad[i] = bad[i].wrapping_add(1);
        assert_eq!(Ipv4Packet::parse(&bad), Err(NetError::BadChecksum));
    }
}

#[test]
fn datagram_without_a_checksum_is_accepted() {
    let ip = Ipv4Addr::new(10, 0, 0, 1);
    let mut buf = [0u8; 12];
    let n = udp::build(&mut buf, ip, ip, 7, 9, b"data").unwrap();
    buf[6] = 0;
    buf[7] = 0;
    assert_eq!(UdpDatagram::parse(&buf[..n], ip, ip).unwrap().payload, b"data");
}
