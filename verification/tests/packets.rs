use netmux_core::addr::Ipv4Addr;
use netmux_core::packet::{
    checksum, ip6, parse, rewrite_ipv4_dest, rewrite_ipv4_source, transport_checksum,
    udp_checksum, Flow,
};

#[test]
fn parses_ipv4_tcp() {
    let mut p = vec![0u8; 20];
    p[0] = 0x45; // v4, ihl=5
    p[9] = 6; // TCP
    p[12..16].copy_from_slice(&[10, 0, 0, 1]);
    p[16..20].copy_from_slice(&[8, 8, 8, 8]);
    p.extend_from_slice(&0x1f90u16.to_be_bytes()); // 8080
    p.extend_from_slice(&0x01bbu16.to_be_bytes()); // 443
    let f = parse(&p).unwrap();
    assert_eq!(f.src, "10.0.0.1");
    assert_eq!(f.dst, "8.8.8.8");
    assert_eq!(f.sport, 8080);
    assert_eq!(f.dport, 443);
    assert_eq!(f.key(), "10.0.0.1:8080->8.8.8.8:443");
}

#[test]
fn parses_ipv4_icmp_no_ports() {
    let mut p = vec![0u8; 20];
    p[0] = 0x45;
    p[9] = 1; // ICMP
    let f = parse(&p).unwrap();
    assert_eq!(f.sport, 0);
    assert_eq!(f.dport, 0);
}

#[test]
fn rejects_too_short() {
    assert!(parse(&[0u8]).is_none());
}

#[test]
fn checksum_known_vector() {
    // Classic RFC 1071 example: 0x4500 0x0073 0x0000 0x4000 0x4011 0x0000 ...
    let hdr = [
        0x45, 0x00, 0x00, 0x73, 0x00, 0x00, 0x40, 0x00, 0x40, 0x11, 0x00, 0x00, 0xc0, 0xa8, 0x00,
        0x01, 0xc0, 0xa8, 0x00, 0xc7,
    ];
    assert_eq!(checksum(&hdr), 0xb861);
}

#[test]
fn transport_checksum_matches_pseudo_header_checksum() {
    // The TCP/UDP checksum equals the plain checksum over the 12-byte
    // pseudo-header + segment with the checksum field zeroed.
    let src = [10u8, 0, 0, 1];
    let dst = [8u8, 8, 8, 8];
    let l4 = [0u8; 8];
    let mut buf = [0u8; 20];
    buf[..4].copy_from_slice(&src);
    buf[4..8].copy_from_slice(&dst);
    buf[9] = 17;
    buf[10..12].copy_from_slice(&8u16.to_be_bytes());
    let expected = checksum(&buf);
    assert_eq!(transport_checksum(src, dst, 17, &l4), expected);
}

#[test]
fn source_rewrite_fixes_checksums() {
    // Build a minimal TCP SYN-like packet and verify the IP header
    // checksum validates after the rewrite.
    let mut pkt = vec![0u8; 40];
    pkt[0] = 0x45;
    pkt[9] = 6;
    pkt[12..16].copy_from_slice(&[10, 99, 0, 1]);
    pkt[16..20].copy_from_slice(&[8, 8, 8, 8]);
    pkt[20..22].copy_from_slice(&0x1234u16.to_be_bytes());
    pkt[22..24].copy_from_slice(&0x01bbu16.to_be_bytes());
    pkt[24..28].copy_from_slice(&0u32.to_be_bytes()); // seq

    // a plausible pre-rewrite checksum
    let pre = checksum(&pkt[..20]);
    pkt[10..12].copy_from_slice(&pre.to_be_bytes());

    let new_src = Ipv4Addr::new(192, 168, 31, 49);
    assert!(rewrite_ipv4_source(&mut pkt, new_src));
    assert_eq!(&pkt[12..16], &[192, 168, 31, 49]);
    // header checksum must now validate
    let saved = [pkt[10], pkt[11]];
    pkt[10] = 0;
    pkt[11] = 0;
    assert_eq!(checksum(&pkt[..20]), u16::from_be_bytes(saved));
}

fn udp_packet() -> Vec<u8> {
    let mut pkt = vec![0u8; 48];
    pkt[0] = 0x45;
    pkt[9] = 17;
    pkt[12..16].copy_from_slice(&[1, 2, 3, 4]);
    pkt[16..20].copy_from_slice(&[5, 6, 7, 8]);
    pkt[20..22].copy_from_slice(&53u16.to_be_bytes());
    pkt[22..24].copy_from_slice(&5353u16.to_be_bytes());
    pkt[24..26].copy_from_slice(&28u16.to_be_bytes());
    for i in 28..48 {
        pkt[i] = 0xd0 + i as u8;
    }
    let sum = udp_checksum([1, 2, 3, 4], [5, 6, 7, 8], &pkt[20..]);
    pkt[26..28].copy_from_slice(&sum.to_be_bytes());
    pkt
}

/// What a receiver computes over the pseudo-header and the segment: zero if it is intact.
fn received(pkt: &[u8]) -> u16 {
    let mut whole = Vec::new();
    whole.extend_from_slice(&pkt[12..20]);
    whole.extend_from_slice(&[0, pkt[9]]);
    whole.extend_from_slice(&((pkt.len() - 20) as u16).to_be_bytes());
    whole.extend_from_slice(&pkt[20..]);
    checksum(&whole)
}

#[test]
fn rewriting_fixes_the_udp_checksum_and_nothing_else_of_the_datagram() {
    let before = udp_packet();
    assert_eq!(received(&before), 0);
    let mut pkt = before.clone();
    assert!(rewrite_ipv4_dest(&mut pkt, Ipv4Addr::new(10, 99, 0, 1)));
    assert_eq!(&pkt[16..20], &[10, 99, 0, 1]);
    assert_eq!(&pkt[12..16], &[1, 2, 3, 4]);
    assert_eq!(checksum(&pkt[..20]), 0);
    assert_eq!(received(&pkt), 0);
    assert_ne!(&pkt[26..28], &before[26..28]);
    assert_eq!(&pkt[20..26], &before[20..26]);
    assert_eq!(&pkt[28..], &before[28..]);
    assert!(rewrite_ipv4_dest(&mut pkt, Ipv4Addr::new(5, 6, 7, 8)));
    assert_eq!(&pkt[20..], &before[20..]);
}

#[test]
fn short_datagrams_get_their_checksum() {
    for len in 28..38 {
        let mut pkt = udp_packet();
        pkt.truncate(len);
        let payload = pkt[28..].to_vec();
        assert!(rewrite_ipv4_source(&mut pkt, Ipv4Addr::new(172, 16, 0, 9)));
        assert_eq!(received(&pkt), 0);
        assert_eq!(&pkt[28..], &payload[..]);
    }
    let mut cut = udp_packet();
    cut.truncate(27);
    let rest = cut[20..].to_vec();
    assert!(rewrite_ipv4_source(&mut cut, Ipv4Addr::new(172, 16, 0, 9)));
    assert_eq!(&cut[20..], &rest[..]);
}

#[test]
fn datagrams_without_checksum_get_one() {
    let mut pkt = udp_packet();
    pkt[26] = 0;
    pkt[27] = 0;
    assert!(rewrite_ipv4_source(&mut pkt, Ipv4Addr::new(172, 16, 0, 9)));
    assert_ne!(&pkt[26..28], &[0, 0]);
    assert_eq!(received(&pkt), 0);
}

#[test]
fn a_udp_sum_of_zero_goes_out_as_ones() {
    // 17 + 10 from the pseudo-header, so the payload brings the sum to all ones.
    let l4 = [0, 0, 0, 0, 0, 0, 0xab, 0xcd, 0xff, 0xe4];
    assert_eq!(udp_checksum([0; 4], [0; 4], &l4), 0xffff);
    assert_eq!(udp_checksum([0; 4], [0; 4], &[0; 8]), !25u16);
}

#[test]
fn rewriting_fixes_the_tcp_checksum_and_nothing_else_of_the_segment() {
    let mut pkt = vec![0u8; 60];
    pkt[0] = 0x45;
    pkt[9] = 6;
    for i in 20..60 {
        pkt[i] = i as u8;
    }
    let before = pkt.clone();
    assert!(rewrite_ipv4_source(&mut pkt, Ipv4Addr::new(172, 16, 0, 9)));
    assert_eq!(received(&pkt), 0);
    assert_eq!(&pkt[20..36], &before[20..36]);
    assert_eq!(&pkt[38..], &before[38..]);
}

#[test]
fn rewriting_keeps_the_rest_of_the_flow() {
    let mut pkt = udp_packet();
    let before = parse(&pkt).unwrap();
    assert!(rewrite_ipv4_source(&mut pkt, Ipv4Addr::new(172, 16, 0, 9)));
    let after = parse(&pkt).unwrap();
    assert_eq!(after.src, "172.16.0.9");
    assert_eq!(after.dst, before.dst);
    assert_eq!(after.proto, before.proto);
    assert_eq!(after.sport, before.sport);
    assert_eq!(after.dport, before.dport);
}

#[test]
fn keys_stand_for_the_whole_tuple() {
    let flow = |src: &str, dst: &str, proto: u8, sport: u16, dport: u16| {
        Flow { src: src.into(), dst: dst.into(), proto, sport, dport }.key()
    };
    assert_eq!(flow("10.0.0.1", "8.8.8.8", 6, 80, 443), "10.0.0.1:80->8.8.8.8:443");
    assert_eq!(flow("10.0.0.1", "8.8.8.8", 17, 80, 443), "10.0.0.1:80->8.8.8.8:443/17");
    assert_eq!(flow("10.0.0.1", "8.8.8.8", 1, 0, 0), "10.0.0.1:0->8.8.8.8:0/1");
    assert_eq!(flow("10.0.0.1", "8.8.8.8", 47, 0, 0), "10.0.0.1:0->8.8.8.8:0/47");
    let keys = [
        flow("a", "b", 6, 1, 2),
        flow("a", "b", 17, 1, 2),
        flow("a", "b", 1, 1, 2),
        flow("a", "b", 47, 1, 2),
        flow("c", "b", 6, 1, 2),
        flow("a", "c", 6, 1, 2),
        flow("a", "b", 6, 2, 2),
        flow("a", "b", 6, 1, 3),
        flow("a:1", "b", 6, 1, 2),
        flow("a", "1:b", 6, 1, 2),
    ];
    for i in 0..keys.len() {
        for j in 0..i {
            assert_ne!(keys[i], keys[j]);
        }
    }
}

#[test]
fn short_segments_keep_their_bytes() {
    let mut pkt = vec![0u8; 37];
    pkt[0] = 0x45;
    pkt[9] = 6;
    pkt[36] = 0xaa;
    assert!(rewrite_ipv4_source(&mut pkt, Ipv4Addr::new(1, 1, 1, 1)));
    assert_eq!(&pkt[20..36], &[0u8; 16]);
    assert_eq!(pkt[36], 0xaa);
}

#[test]
fn rewriting_refuses_what_is_not_ipv4() {
    let mut short = vec![0x45u8; 19];
    assert!(!rewrite_ipv4_source(&mut short, Ipv4Addr::new(1, 1, 1, 1)));
    assert_eq!(short, vec![0x45u8; 19]);
    let mut v6 = vec![0x60u8; 40];
    assert!(!rewrite_ipv4_dest(&mut v6, Ipv4Addr::new(1, 1, 1, 1)));
    assert_eq!(v6, vec![0x60u8; 40]);
    let mut cut = vec![0u8; 20];
    cut[0] = 0x4f;
    assert!(!rewrite_ipv4_source(&mut cut, Ipv4Addr::new(1, 1, 1, 1)));
}

#[test]
fn checksum_of_odd_and_empty_data() {
    assert_eq!(checksum(&[]), 0xffff);
    assert_eq!(checksum(&[0x12]), !0x1200u16);
    assert_eq!(checksum(&[0xff, 0xff, 0x00, 0x01]), 0xfffe);
}

#[test]
fn header_options_move_the_ports() {
    let mut p = vec![0u8; 28];
    p[0] = 0x46;
    p[9] = 17;
    p[24..26].copy_from_slice(&1000u16.to_be_bytes());
    p[26..28].copy_from_slice(&2000u16.to_be_bytes());
    let f = parse(&p).unwrap();
    assert_eq!((f.sport, f.dport), (1000, 2000));
    p[0] = 0x44;
    assert!(parse(&p).is_none());
    p[0] = 0x4f;
    assert!(parse(&p).is_none());
}

fn ipv6(next: u8, len: usize) -> Vec<u8> {
    let mut p = vec![0u8; len];
    p[0] = 0x60;
    p[6] = next;
    p[8..10].copy_from_slice(&[0x20, 0x01]);
    p[10..12].copy_from_slice(&[0x0d, 0xb8]);
    p[23] = 1;
    p[24..26].copy_from_slice(&[0xfe, 0x80]);
    p
}

#[test]
fn parses_ipv6_tcp() {
    let mut p = ipv6(6, 44);
    p[40..42].copy_from_slice(&40000u16.to_be_bytes());
    p[42..44].copy_from_slice(&443u16.to_be_bytes());
    let f = parse(&p).unwrap();
    assert_eq!(f.src, "2001:db8::1");
    assert_eq!(f.dst, "fe80::");
    assert_eq!(f.proto, 6);
    assert_eq!((f.sport, f.dport), (40000, 443));
}

#[test]
fn skips_ipv6_extension_headers() {
    let mut p = ipv6(0, 60);
    p[40] = 17;
    p[41] = 1;
    p[56..58].copy_from_slice(&7u16.to_be_bytes());
    p[58..60].copy_from_slice(&9u16.to_be_bytes());
    let f = parse(&p).unwrap();
    assert_eq!(f.proto, 17);
    assert_eq!((f.sport, f.dport), (7, 9));
    assert!(parse(&ipv6(6, 40)[..39]).is_none());
}

#[test]
fn writes_ipv6_addresses() {
    let text = |w: [u16; 8]| {
        let mut b = Vec::new();
        for x in w {
            b.extend_from_slice(&x.to_be_bytes());
        }
        ip6(&b)
    };
    assert_eq!(text([0; 8]), "::");
    assert_eq!(text([0, 0, 0, 0, 0, 0, 0, 1]), "::1");
    assert_eq!(text([0x2001, 0xdb8, 0, 0, 0, 0, 0, 1]), "2001:db8::1");
    assert_eq!(text([0x2001, 0, 0, 0, 0, 0, 0xdb8, 1]), "2001::db8:1");
    assert_eq!(text([1, 0, 0, 2, 0, 0, 0, 3]), "1:0:0:2::3");
    assert_eq!(text([1, 0, 0, 2, 3, 0, 0, 4]), "1::2:3:0:0:4");
    assert_eq!(text([0xfe80, 0, 0, 0, 0, 0, 0, 0]), "fe80::");
    assert_eq!(text([1, 2, 3, 4, 5, 6, 7, 8]), "1:2:3:4:5:6:7:8");
    assert_eq!(text([0x2001, 0xdb8, 0, 1, 0, 0, 0, 1]), "2001:db8:0:1::1");
    assert_eq!(text([1, 0, 2, 0, 3, 0, 4, 0]), "1:0:2:0:3:0:4:0");
}
