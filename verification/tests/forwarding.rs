use netmux_core::addr::Ipv4Addr;
use netmux_core::forward::{egress_plan, inbound, outbound, strip_ethernet};
use netmux_core::link::{assigned_name, name_request, set_flags, tun_request, MAX_PACKET};
use netmux_core::names::NameMap;
use netmux_core::packet::{checksum, parse};
use netmux_core::{
    Aggregator, AggregatorConfig, InterfaceKind, Mode, NatTable, NetmuxError, Strategy,
};

fn packet(src: [u8; 4], sport: u16, dst: [u8; 4], dport: u16) -> Vec<u8> {
    let mut p = vec![0u8; 60];
    p[0] = 0x45;
    p[9] = 6;
    p[12..16].copy_from_slice(&src);
    p[16..20].copy_from_slice(&dst);
    p[20..22].copy_from_slice(&sport.to_be_bytes());
    p[22..24].copy_from_slice(&dport.to_be_bytes());
    p
}

fn engine() -> (Aggregator, NatTable, NameMap<Ipv4Addr>) {
    let cfg = AggregatorConfig {
        strategy: Strategy::Failover,
        ..Default::default()
    };
    let mut agg = Aggregator::new(cfg, Mode::Tunnelling).unwrap();
    agg.inject_sim_candidates(&[
        ("eth0", InterfaceKind::Ethernet, 30, 1),
        ("wlan0", InterfaceKind::Wifi, 10, 1),
    ]);
    let mut addresses = NameMap::new();
    addresses.insert("eth0".to_string(), Ipv4Addr::new(192, 168, 31, 49));
    (agg, NatTable::new(), addresses)
}

#[test]
fn packets_go_out_and_replies_come_back() {
    let (mut agg, mut table, addresses) = engine();
    let client = [10, 99, 0, 1];
    let server = [8, 8, 8, 8];
    let out = outbound(&mut agg, &mut table, &addresses, &packet(client, 5000, server, 443)).unwrap();
    assert_eq!(out.iface, "eth0");
    assert_eq!(out.dst, Ipv4Addr::new(8, 8, 8, 8));
    assert_eq!(&out.packet[12..16], &[192, 168, 31, 49]);
    assert_eq!(checksum(&out.packet[..20]), 0);
    assert_eq!(table.sessions(), 1);
    assert_eq!(agg.flow_table.len(), 1);

    let mut reply = packet(server, 443, [192, 168, 31, 49], 5000);
    assert!(inbound(&table, &mut reply));
    let flow = parse(&reply).unwrap();
    assert_eq!(flow.key(), "8.8.8.8:443->10.99.0.1:5000");
    assert_eq!(checksum(&reply[..20]), 0);

    let mut stray = packet(server, 444, [192, 168, 31, 49], 5000);
    let before = stray.clone();
    assert!(!inbound(&table, &mut stray));
    assert_eq!(stray, before);
    assert!(!inbound(&table, &mut vec![0x45u8; 19]));
    assert!(!inbound(&table, &mut vec![0x60u8; 60]));
}

#[test]
fn packets_without_a_way_out_are_dropped() {
    let (mut agg, mut table, addresses) = engine();
    agg.candidates[0].healthy = false;
    let p = packet([10, 99, 0, 1], 5000, [8, 8, 8, 8], 443);
    // wlan0 is chosen and has no address.
    assert!(outbound(&mut agg, &mut table, &addresses, &p).is_none());
    assert_eq!(agg.flow_table.len(), 1);
    agg.candidates[0].healthy = true;
    let mut v6 = vec![0u8; 44];
    v6[0] = 0x60;
    v6[6] = 6;
    assert!(outbound(&mut agg, &mut table, &addresses, &v6).is_none());
    agg.config.enabled = false;
    assert!(outbound(&mut agg, &mut table, &addresses, &p).is_none());
    assert_eq!(table.sessions(), 0);
}

#[test]
fn the_plan_holds_usable_links_with_addresses() {
    let (mut agg, _table, mut addresses) = engine();
    let plan = egress_plan(&agg.candidates, &addresses);
    assert_eq!(plan, vec![("eth0".to_string(), Ipv4Addr::new(192, 168, 31, 49))]);
    addresses.insert("wlan0".to_string(), Ipv4Addr::new(10, 0, 0, 5));
    assert_eq!(egress_plan(&agg.candidates, &addresses).len(), 2);
    agg.candidates[0].policy.enabled = false;
    assert_eq!(egress_plan(&agg.candidates, &addresses)[0].0, "wlan0");
}

#[test]
fn ethernet_headers_are_stripped() {
    let mut buf: Vec<u8> = (0..20).collect();
    assert_eq!(strip_ethernet(&mut buf, 18), 4);
    assert_eq!(&buf[..4], &[14, 15, 16, 17]);
    assert_eq!(&buf[4..], &(4..20).collect::<Vec<u8>>()[..]);
    let mut small: Vec<u8> = (0..14).collect();
    assert_eq!(strip_ethernet(&mut small, 14), 0);
    assert_eq!(small, (0..14).collect::<Vec<u8>>());
}

#[test]
fn interface_requests() {
    let request = tun_request("netmux0", [0x01, 0x10]).unwrap();
    let mut want = [0u8; 40];
    want[..7].copy_from_slice(b"netmux0");
    want[16] = 0x01;
    want[17] = 0x10;
    assert_eq!(request, want);
    assert_eq!(assigned_name(&request), b"netmux0".to_vec());
    let full = tun_request("abcdefghijklmnop", [0, 0]).unwrap();
    assert_eq!(assigned_name(&full), b"abcdefghijklmnop".to_vec());
    let mut plain = name_request("eth0").unwrap();
    set_flags(&mut plain, [1, 2]);
    assert_eq!(&plain[16..18], &[1, 2]);
    match name_request("a\0b") {
        Err(NetmuxError::Config(text)) => assert_eq!(text, "interface name contains NUL byte"),
        _ => panic!("the name was accepted"),
    }
    assert!(tun_request("\0", [0, 0]).is_err());
    assert_eq!(MAX_PACKET, 65536);
}
