use netmux_core::addr::Ipv4Addr;
use netmux_core::packet::Flow;
use netmux_core::session::NatTable;

fn flow(proto: u8, client: &str, sport: u16, server: &str, dport: u16) -> Flow {
    Flow {
        src: client.into(),
        dst: server.into(),
        proto,
        sport,
        dport,
    }
}

#[test]
fn registers_and_roundtrips() {
    let mut t = NatTable::new();
    let f = flow(6, "10.99.0.1", 12345, "8.8.8.8", 443);
    let s = t
        .register(&f, "wlan0", Ipv4Addr::new(192, 168, 31, 49))
        .unwrap();
    assert_eq!(s.egress_iface, "wlan0");
    assert_eq!(t.sessions(), 1);

    // Return packet: src=server:443, dst=egress_ip:12345
    let ret = t
        .lookup_return(6, Ipv4Addr::new(8, 8, 8, 8), 443, Ipv4Addr::new(192, 168, 31, 49), 12345)
        .unwrap();
    assert_eq!(ret.client_ip, Ipv4Addr::new(10, 99, 0, 1));
    assert_eq!(ret.client_port, 12345);

    // Different server port must NOT match.
    assert!(t
        .lookup_return(6, Ipv4Addr::new(8, 8, 8, 8), 53, Ipv4Addr::new(192, 168, 31, 49), 12345)
        .is_none());
}

#[test]
fn same_flow_reuses_session() {
    let mut t = NatTable::new();
    let f = flow(17, "10.99.0.1", 5000, "1.1.1.1", 53);
    t.register(&f, "eth0", Ipv4Addr::new(10, 0, 0, 5)).unwrap();
    let s2 = t
        .register(&f, "eth0", Ipv4Addr::new(10, 0, 0, 5))
        .unwrap();
    assert_eq!(t.sessions(), 1);
    assert_eq!(s2.client_port, 5000);
}

#[test]
fn two_flows_use_two_sessions() {
    let mut t = NatTable::new();
    t.register(&flow(6, "10.99.0.1", 1000, "8.8.8.8", 443), "wlan0", Ipv4Addr::new(192, 168, 31, 49))
        .unwrap();
    t.register(&flow(6, "10.99.0.1", 1001, "8.8.8.8", 443), "eth0", Ipv4Addr::new(10, 0, 0, 5))
        .unwrap();
    assert_eq!(t.sessions(), 2);
}

#[test]
fn reuse_keeps_the_first_interface() {
    let mut t = NatTable::default();
    let f = flow(6, "10.99.0.1", 1000, "8.8.8.8", 443);
    t.register(&f, "wlan0", Ipv4Addr::new(192, 168, 31, 49)).unwrap();
    let again = t.register(&f, "eth0", Ipv4Addr::new(10, 0, 0, 5)).unwrap();
    assert_eq!(again.egress_iface, "wlan0");
    assert_eq!(again.egress_ip, Ipv4Addr::new(192, 168, 31, 49));
    assert_eq!((again.tx_packets, again.rx_packets), (0, 0));
    assert!(t
        .lookup_return(6, Ipv4Addr::new(8, 8, 8, 8), 443, Ipv4Addr::new(10, 0, 0, 5), 1000)
        .is_none());
}

#[test]
fn every_part_of_the_ends_counts() {
    let mut t = NatTable::new();
    let ip = Ipv4Addr::new(192, 168, 31, 49);
    let flows = [
        flow(6, "10.99.0.1", 1000, "8.8.8.8", 443),
        flow(17, "10.99.0.1", 1000, "8.8.8.8", 443),
        flow(6, "10.99.0.2", 1000, "8.8.8.8", 443),
        flow(6, "10.99.0.1", 1001, "8.8.8.8", 443),
        flow(6, "10.99.0.1", 1000, "8.8.4.8", 443),
        flow(6, "10.99.0.1", 1000, "8.8.8.8", 444),
    ];
    for f in &flows {
        t.register(f, "eth0", ip).unwrap();
    }
    assert_eq!(t.sessions(), 6);
    for f in &flows {
        t.register(f, "eth0", ip).unwrap();
    }
    assert_eq!(t.sessions(), 6);
}

#[test]
fn the_first_of_several_clients_gets_the_reply() {
    let mut t = NatTable::new();
    let ip = Ipv4Addr::new(192, 168, 31, 49);
    t.register(&flow(6, "10.99.0.1", 1000, "8.8.8.8", 443), "eth0", ip).unwrap();
    t.register(&flow(6, "10.99.0.2", 1000, "8.8.8.8", 443), "eth0", ip).unwrap();
    let s = t.lookup_return(6, Ipv4Addr::new(8, 8, 8, 8), 443, ip, 1000).unwrap();
    assert_eq!(s.client_ip, Ipv4Addr::new(10, 99, 0, 1));
    let other = Ipv4Addr::new(10, 0, 0, 5);
    t.register(&flow(6, "10.99.0.3", 1000, "8.8.8.8", 443), "wlan0", other).unwrap();
    let s = t.lookup_return(6, Ipv4Addr::new(8, 8, 8, 8), 443, other, 1000).unwrap();
    assert_eq!(s.client_ip, Ipv4Addr::new(10, 99, 0, 3));
}

#[test]
fn other_addresses_are_not_registered() {
    let mut t = NatTable::new();
    let ip = Ipv4Addr::new(192, 168, 31, 49);
    assert!(t.register(&flow(6, "fe80::", 1, "8.8.8.8", 443), "eth0", ip).is_none());
    assert!(t.register(&flow(6, "10.0.0.1", 1, "2001:db8::1", 443), "eth0", ip).is_none());
    assert!(t.register(&flow(6, "10.0.0.01", 1, "8.8.8.8", 443), "eth0", ip).is_none());
    assert_eq!(t.sessions(), 0);
}

#[test]
fn addresses_read_back() {
    for text in ["0.0.0.0", "255.255.255.255", "10.99.0.1", "8.8.4.8"] {
        assert_eq!(Ipv4Addr::parse(text).unwrap().to_text(), text);
    }
    assert_eq!(Ipv4Addr::parse("10.99.0.1").unwrap().octets(), [10, 99, 0, 1]);
    for text in ["", "1.2.3", "1.2.3.4.5", "256.0.0.1", "01.2.3.4", "1..2.3", " 1.2.3.4", "+1.2.3.4", "1.2.3.4 "] {
        assert!(Ipv4Addr::parse(text).is_none());
    }
}
