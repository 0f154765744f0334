use netmux_core::display::{flow_distribution, kind_label, link_counts, Tab, ThemeMode};
use netmux_core::error::NetmuxError;
use netmux_core::names::NameMap;
use netmux_core::text::{not_after, parse_unsigned, trim};
use netmux_core::{Aggregator, AggregatorConfig, InterfaceKind, Mode};

#[test]
fn themes_cycle() {
    let start = ThemeMode::Dark;
    assert_eq!(start.cycle(), ThemeMode::Light);
    assert_eq!(start.cycle().cycle(), ThemeMode::System);
    assert_eq!(start.cycle().cycle().cycle(), start);
    assert_eq!(ThemeMode::System.label(), "跟随系统");
    assert_eq!(ThemeMode::Light.label(), "亮色");
    assert_eq!(ThemeMode::Dark.label(), "暗色");
}

#[test]
fn titles_and_kinds() {
    assert_eq!(Tab::Dashboard.title(), "仪表盘");
    assert_eq!(Tab::Statistics.title(), "性能统计");
    assert_eq!(kind_label(InterfaceKind::Wifi), "Wi-Fi");
    assert_eq!(kind_label(InterfaceKind::Other), "其他");
}

#[test]
fn counts_links() {
    let mut agg = Aggregator::new(AggregatorConfig::default(), Mode::Simulation).unwrap();
    agg.inject_sim_candidates(&[
        ("a", InterfaceKind::Wifi, 1, 1),
        ("b", InterfaceKind::Wifi, 1, 1),
        ("c", InterfaceKind::Wifi, 1, 1),
    ]);
    agg.candidates[0].policy.enabled = false;
    agg.candidates[1].healthy = false;
    agg.candidates[2].healthy = false;
    assert_eq!(link_counts(&agg.candidates), (2, 1));
}

#[test]
fn distribution_is_in_order_of_names() {
    let mut flows: NameMap<String> = NameMap::new();
    assert_eq!(flow_distribution(&flows), "");
    for (key, iface) in [("1", "wlan0"), ("2", "eth0"), ("3", "wlan0"), ("4", "wwan0"), ("5", "wlan0")] {
        flows.insert(key.to_string(), iface.to_string());
    }
    assert_eq!(flow_distribution(&flows), "eth0=1, wlan0=3, wwan0=1");
    flows.insert("4".to_string(), "eth0".to_string());
    assert_eq!(flow_distribution(&flows), "eth0=2, wlan0=3");
}

#[test]
fn errors_carry_their_texts() {
    match NetmuxError::permission("denied") {
        NetmuxError::Permission(text) => assert_eq!(text, "denied"),
        _ => panic!("another error"),
    }
    match NetmuxError::config(String::from("bad")) {
        NetmuxError::Config(text) => assert_eq!(text, "bad"),
        _ => panic!("another error"),
    }
    let cause = || std::io::Error::new(std::io::ErrorKind::Other, "cause");
    match NetmuxError::io("opening", cause()) {
        NetmuxError::Io { context, source } => {
            assert_eq!(context, "opening");
            assert_eq!(source.to_string(), "cause");
        }
        _ => panic!("another error"),
    }
    match NetmuxError::from(cause()) {
        NetmuxError::Io { context, source } => {
            assert_eq!(context, "io error");
            assert_eq!(source.to_string(), "cause");
        }
        _ => panic!("another error"),
    }
}

#[test]
fn texts_are_read_and_ordered() {
    assert_eq!(parse_unsigned("0", 10), Some(0));
    assert_eq!(parse_unsigned("ff", 16), Some(255));
    assert_eq!(parse_unsigned("", 10), None);
    assert_eq!(parse_unsigned("+", 10), None);
    assert_eq!(trim(" \t x y\n"), "x y");
    assert_eq!(trim("\u{3000}a\u{a0}"), "a");
    assert!(not_after("eth0", "wlan0"));
    assert!(not_after("eth", "eth0"));
    assert!(!not_after("é", "z"));
}

#[test]
fn names_keep_their_order() {
    let mut m: NameMap<u32> = NameMap::new();
    m.insert("b".to_string(), 1);
    m.insert("a".to_string(), 2);
    m.insert("b".to_string(), 3);
    assert_eq!(m.len(), 2);
    assert_eq!((m.name_at(0), *m.value_at(0)), ("b", 3));
    assert_eq!((m.name_at(1), *m.value_at(1)), ("a", 2));
    assert_eq!(m.get("c"), None);
    let copy = m.clone();
    assert_eq!(copy.get("a"), Some(&2));
    assert_eq!(copy.name_at(0), "b");
}
