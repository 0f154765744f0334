use netmux_core::interface::{classify, counter_map, enumerate, read_u64, read_up, SysfsEntry};
use netmux_core::InterfaceKind;

#[test]
fn classification_works() {
    assert_eq!(classify("eth0", "up"), InterfaceKind::Ethernet);
    assert_eq!(classify("wlP2p33s0", "up"), InterfaceKind::Wifi);
    assert_eq!(classify("lo", "unknown"), InterfaceKind::Loopback);
    assert_eq!(classify("wwan0", "unknown"), InterfaceKind::Cellular);
    assert_eq!(classify("br0", "up"), InterfaceKind::Virtual);
    assert_eq!(classify("netmux0", "up"), InterfaceKind::Virtual);
}

#[test]
fn classification_of_the_rest() {
    assert_eq!(classify("enp3s0", "up"), InterfaceKind::Ethernet);
    assert_eq!(classify("eth-usb0", "up"), InterfaceKind::Cellular);
    assert_eq!(classify("usb0", "unknown"), InterfaceKind::Cellular);
    assert_eq!(classify("tailscale0", "unknown"), InterfaceKind::Virtual);
    assert_eq!(classify("ppp0", "up"), InterfaceKind::Other);
    assert_eq!(classify("", ""), InterfaceKind::Other);
}

fn entry(name: &str) -> SysfsEntry {
    let text = |s: &str| Some(s.to_string());
    SysfsEntry {
        name: name.to_string(),
        operstate: text("up\n"),
        flags: text("0x1003\n"),
        address: text("00:11:22:33:44:55\n"),
        carrier: text("1\n"),
        rx_bytes: text("1000\n"),
        tx_bytes: text("500\n"),
        rx_packets: text("10\n"),
        tx_packets: text("5\n"),
    }
}

#[test]
fn enumerates_in_order_of_names() {
    let found = enumerate(&vec![entry("wlan0"), entry("eth0"), entry("lo")]);
    let names: Vec<&str> = found.iter().map(|i| i.name.as_str()).collect();
    assert_eq!(names, vec!["eth0", "lo", "wlan0"]);
    let eth = &found[0];
    assert_eq!(eth.display_name, "eth0");
    assert_eq!(eth.mac.as_deref(), Some("00:11:22:33:44:55"));
    assert!(eth.is_up && eth.carrier);
    assert_eq!(eth.kind, InterfaceKind::Ethernet);
    assert_eq!((eth.rx_bytes, eth.tx_bytes), (1000, 500));
}

#[test]
fn missing_attributes_have_defaults() {
    let mut e = entry("eth0");
    e.flags = Some("0x1002".to_string());
    e.address = Some("00:00:00:00:00:00\n".to_string());
    e.carrier = None;
    e.rx_bytes = Some("many".to_string());
    e.tx_bytes = None;
    let found = enumerate(&vec![e]);
    assert!(!found[0].is_up);
    assert!(!found[0].carrier);
    assert!(found[0].mac.is_none());
    assert_eq!((found[0].rx_bytes, found[0].tx_bytes), (0, 0));
}

#[test]
fn reads_numbers_as_text_gives_them() {
    let text = |s: &str| Some(s.to_string());
    assert_eq!(read_u64(&text(" +42 ")), 42);
    assert_eq!(read_u64(&text("18446744073709551615")), u64::MAX);
    assert_eq!(read_u64(&text("18446744073709551616")), 0);
    assert_eq!(read_u64(&text("-1")), 0);
    assert!(read_up(&text("1")));
    assert!(read_up(&text("0X1")) == false);
    assert!(read_up(&text("0xFFFF")));
    assert!(!read_up(&text("0x")));
    assert!(!read_up(&None));
}

#[test]
fn counters_by_name() {
    let mut twice = entry("eth0");
    twice.rx_bytes = Some("7".to_string());
    let map = counter_map(&vec![entry("eth0"), entry("wlan0"), twice]);
    assert_eq!(map.len(), 2);
    assert_eq!(map.get("eth0"), Some(&(7, 500)));
    assert_eq!(map.get("wlan0"), Some(&(1000, 500)));
    assert!(map.get("lo").is_none());
}
