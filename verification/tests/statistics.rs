use netmux_core::interface::SysfsEntry;
use netmux_core::stats::{StatsCollector, MIN_WINDOW_NANOS};

fn entry(name: &str, counters: [u64; 4]) -> SysfsEntry {
    SysfsEntry {
        name: name.to_string(),
        operstate: Some("unknown\n".to_string()),
        flags: None,
        address: None,
        carrier: Some("1\n".to_string()),
        rx_bytes: Some(counters[0].to_string()),
        tx_bytes: Some(counters[1].to_string()),
        rx_packets: Some(counters[2].to_string()),
        tx_packets: Some(counters[3].to_string()),
    }
}

#[test]
fn collector_runs_without_panic() {
    let mut c = StatsCollector::default();
    c.refresh(&Vec::new(), 0);
    c.refresh(&Vec::new(), 0);
    for i in 0..c.samples.len() {
        let _ = c.samples.value_at(i);
    }
}

#[test]
fn usage_is_how_far_the_counters_went() {
    let mut c = StatsCollector::default();
    c.refresh(&vec![entry("eth0", [100, 200, 3, 4])], 7);
    let first = *c.samples.get("eth0").unwrap();
    assert_eq!((first.rx_bytes, first.tx_bytes, first.rx_packets, first.tx_packets), (0, 0, 0, 0));
    assert_eq!(first.window_nanos, MIN_WINDOW_NANOS);
    assert!(first.is_up);
    c.refresh(&vec![entry("eth0", [150, 190, 5, 9])], 2_000_000_000);
    let second = *c.samples.get("eth0").unwrap();
    assert_eq!(
        (second.rx_bytes, second.tx_bytes, second.rx_packets, second.tx_packets),
        (50, 0, 2, 5)
    );
    assert_eq!(second.window_nanos, 2_000_000_000);
}

#[test]
fn a_name_that_is_gone_keeps_its_sample() {
    let mut c = StatsCollector::default();
    c.refresh(&vec![entry("eth0", [0, 0, 0, 0])], 1);
    c.refresh(&vec![entry("eth0", [9, 8, 7, 6])], 1);
    c.refresh(&vec![entry("wlan0", [1, 1, 1, 1])], 1);
    assert_eq!(c.samples.len(), 2);
    assert_eq!(c.samples.get("eth0").unwrap().rx_bytes, 9);
    c.refresh(&vec![entry("eth0", [100, 100, 100, 100])], 1);
    assert_eq!(c.samples.get("eth0").unwrap().rx_bytes, 0);
}

#[test]
fn liveness_comes_from_carrier_or_state() {
    let mut c = StatsCollector::default();
    let mut e = entry("eth0", [0, 0, 0, 0]);
    e.carrier = Some("0".to_string());
    c.refresh(&vec![e.clone()], 1);
    assert!(!c.samples.get("eth0").unwrap().is_up);
    e.operstate = Some(" up\n".to_string());
    c.refresh(&vec![e.clone()], 1);
    assert!(c.samples.get("eth0").unwrap().is_up);
    e.operstate = None;
    e.carrier = None;
    c.refresh(&vec![e], 1);
    assert!(!c.samples.get("eth0").unwrap().is_up);
}
