use netmux_core::aggregator::rank_loads;
use netmux_core::interface::SysfsEntry;
use netmux_core::names::NameMap;
use netmux_core::simulation::{ensure_links, simulate, Traffic, MAX_PACKETS};
use netmux_core::stats::IfaceSample;
use netmux_core::{
    Aggregator, AggregatorConfig, BalanceAlgorithm, InterfaceKind, InterfacePolicy, Mode,
    NetmuxError, PcapGenerator, Strategy, APP_NAME,
};

fn no_load(_s: IfaceSample) -> Option<i64> {
    Some(0)
}

fn entry(name: &str, flags: &str, carrier: &str) -> SysfsEntry {
    SysfsEntry {
        name: name.to_string(),
        operstate: Some("up".to_string()),
        flags: Some(flags.to_string()),
        address: None,
        carrier: Some(carrier.to_string()),
        rx_bytes: Some("1000".to_string()),
        tx_bytes: Some("1000".to_string()),
        rx_packets: Some("10".to_string()),
        tx_packets: Some("10".to_string()),
    }
}

#[test]
fn simulation_routes_packets() {
    let cfg = AggregatorConfig::default();
    let mut agg = Aggregator::new(cfg, Mode::Simulation).unwrap();
    agg.refresh_candidates(&Vec::new(), no_load);
    let mut gen = PcapGenerator::default();
    let pkt = gen.next_packet(128);
    // Even with no physical interfaces found, routing must not panic and
    // must return a decision object (interface may be None in headless CI).
    let d = agg.route(&pkt);
    if let Some(d) = d {
        let _ = d.interface;
    }
}

#[test]
fn a_decision_comes_without_interfaces_too() {
    let mut agg = Aggregator::new(AggregatorConfig::default(), Mode::Simulation).unwrap();
    let pkt = PcapGenerator::default().next_packet(128);
    let d = agg.route(&pkt).unwrap();
    assert!(d.interface.is_none());
    assert_eq!(d.flow.key(), "185.34.1.61:4072->8.8.4.8:443");
    assert_eq!(agg.flow_table.len(), 0);
    agg.inject_sim_candidates(&[("a", InterfaceKind::Wifi, 20, 2)]);
    agg.candidates[0].healthy = false;
    assert!(agg.route(&pkt).unwrap().interface.is_none());
}

#[test]
fn disabled_aggregator_drops() {
    let mut cfg = AggregatorConfig::default();
    cfg.enabled = false;
    let mut agg = Aggregator::new(cfg, Mode::Simulation).unwrap();
    agg.refresh_candidates(&vec![entry("eth0", "0x1", "1")], no_load);
    let mut gen = PcapGenerator::default();
    assert!(agg.route(&gen.next_packet(64)).is_none());
    assert_eq!(agg.flow_table.len(), 0);
}

#[test]
fn labels_and_names() {
    assert_eq!(Mode::Tunnelling.label(), "隧道聚合 (TUN)");
    assert_eq!(Mode::Simulation.label(), "模拟演示 (Simulation)");
    assert_eq!(APP_NAME, "NetMux");
}

#[test]
fn bad_settings_make_no_aggregator() {
    let mut cfg = AggregatorConfig::default();
    cfg.health_check_interval_secs = 0;
    match Aggregator::new(cfg, Mode::Tunnelling) {
        Err(NetmuxError::Config(text)) => {
            assert_eq!(text, "health_check_interval_secs must be >= 1")
        }
        _ => panic!("settings were accepted"),
    }
}

#[test]
fn candidates_are_the_uplinks() {
    let mut cfg = AggregatorConfig::default();
    cfg.interfaces.insert(
        "wlan0".to_string(),
        InterfacePolicy { priority: 55, weight: 4, enabled: true },
    );
    let mut agg = Aggregator::new(cfg, Mode::Tunnelling).unwrap();
    agg.refresh_candidates(
        &vec![
            entry("wlan0", "0x1003", "1"),
            entry("lo", "0x9", "1"),
            entry("ppp0", "0x1", "0"),
            entry("docker0", "0x1003", "1"),
            entry("eth0", "0x1002", "1"),
            entry("wwan0", "0x1003", "1"),
        ],
        no_load,
    );
    let found = agg.candidates();
    let names: Vec<&str> = found.iter().map(|c| c.name.as_str()).collect();
    assert_eq!(names, vec!["eth0", "ppp0", "wlan0", "wwan0"]);
    let priorities: Vec<u32> = found.iter().map(|c| c.policy.priority).collect();
    assert_eq!(priorities, vec![30, 5, 55, 20]);
    let health: Vec<bool> = found.iter().map(|c| c.healthy).collect();
    assert_eq!(health, vec![false, false, true, true]);
    assert_eq!(found[2].policy.weight, 4);
    assert_eq!(found[0].kind, InterfaceKind::Ethernet);
    agg.set_mode(Mode::Simulation);
    assert_eq!(agg.mode, Mode::Simulation);
    assert_eq!(agg.candidates().len(), 4);
}

fn busy(name: &str, rx: u64, tx: u64) -> SysfsEntry {
    let mut e = entry(name, "0x1003", "1");
    e.rx_bytes = Some(rx.to_string());
    e.tx_bytes = Some(tx.to_string());
    e
}

fn by_bytes(s: IfaceSample) -> Option<i64> {
    Some((s.rx_bytes + s.tx_bytes) as i64)
}

#[test]
fn ticks_rank_the_loads() {
    let mut cfg = AggregatorConfig::default();
    cfg.algorithm = BalanceAlgorithm::LeastLoaded;
    let mut agg = Aggregator::new(cfg, Mode::Tunnelling).unwrap();
    let first = vec![busy("eth0", 100, 100), busy("wlan0", 0, 0)];
    agg.tick(&first, 5_000_000_000, &first, by_bytes);
    assert_eq!(agg.load_of("eth0"), Some(0));
    let second = vec![busy("eth0", 150, 170), busy("wlan0", 10, 20)];
    agg.tick(&second, 1_000_000_000, &second, by_bytes);
    assert_eq!(agg.load_of("eth0"), Some(120));
    assert_eq!(agg.load_of("wlan0"), Some(30));
    assert_eq!(agg.load_of("wwan0"), Some(0));
    let d = agg.route(&PcapGenerator::default().next_packet(100)).unwrap();
    assert_eq!(d.interface.as_deref(), Some("wlan0"));
    assert_eq!(agg.stats.samples.get("eth0").unwrap().tx_bytes, 70);
}

#[test]
fn ranks_come_from_the_samples() {
    let mut samples: NameMap<IfaceSample> = NameMap::new();
    samples.insert(
        "eth0".to_string(),
        IfaceSample {
            rx_bytes: 3,
            tx_bytes: 4,
            rx_packets: 0,
            tx_packets: 0,
            window_nanos: 1_000_000,
            is_up: true,
        },
    );
    let loads = rank_loads(&samples, by_bytes);
    assert_eq!(loads.len(), 1);
    assert_eq!(loads.get("eth0"), Some(&Some(7)));
}

#[test]
fn routed_flows_are_recorded() {
    let cfg = AggregatorConfig {
        strategy: Strategy::Failover,
        ..Default::default()
    };
    let mut agg = Aggregator::new(cfg, Mode::Simulation).unwrap();
    agg.inject_sim_candidates(&[
        ("a", InterfaceKind::Wifi, 20, 2),
        ("b", InterfaceKind::Ethernet, 30, 3),
    ]);
    let pkt = PcapGenerator::default().next_packet(64);
    let d = agg.route(&pkt).unwrap();
    assert_eq!(d.interface.as_deref(), Some("b"));
    assert_eq!(d.flow.key(), "185.34.1.61:4072->8.8.4.8:443");
    assert_eq!(agg.flow_table.len(), 1);
    assert_eq!(
        agg.flow_table.get("185.34.1.61:4072->8.8.4.8:443").unwrap(),
        "b"
    );
    agg.candidates[1].healthy = false;
    assert_eq!(agg.route(&pkt).unwrap().interface.as_deref(), Some("a"));
    assert_eq!(agg.flow_table.len(), 1);
    assert!(agg.route(&[0x45]).is_none());
    assert_eq!(d.clone().flow.key(), d.flow.key());
}

#[test]
fn generates_packets() {
    let mut gen = PcapGenerator::default();
    let p = gen.next_packet(0);
    assert_eq!(p.len(), 40);
    assert_eq!(
        &p[..24],
        &[
            0x45, 0, 0, 0, 0, 0, 0, 0, 0, 6, 0, 0, 185, 34, 1, 61, 8, 8, 4, 8, 0x0f, 0xe8, 0x01,
            0xbb
        ]
    );
    assert_eq!(gen.next_packet(100).len(), 100);
    for _ in 0..6 {
        gen.next_packet(40);
    }
    let ninth = gen.next_packet(40);
    assert_eq!(&ninth[12..20], &[44, 221, 1, 117, 8, 8, 7, 8]);
    assert_eq!(gen.tick, 9);
}

#[test]
fn simulated_packets_are_counted() {
    let mut agg = Aggregator::new(AggregatorConfig::default(), Mode::Simulation).unwrap();
    ensure_links(&mut agg);
    assert_eq!(agg.candidates[0].name, "eth0 (模拟)");
    assert_eq!(agg.candidates[2].policy.priority, 25);
    let mut gen = PcapGenerator::default();
    let mut traffic = Traffic { packets: 0, bytes: 0 };
    simulate(&mut agg, &mut gen, &mut traffic, 10);
    assert_eq!(traffic, Traffic { packets: 10, bytes: 1500 });
    assert_eq!(gen.tick, 10);
    simulate(&mut agg, &mut gen, &mut traffic, 1_000_000);
    assert_eq!(traffic.packets, 10 + MAX_PACKETS as u64);
    agg.config.enabled = false;
    simulate(&mut agg, &mut gen, &mut traffic, 5);
    assert_eq!(traffic.packets, 10 + MAX_PACKETS as u64);
    assert_eq!(gen.tick, 11 + MAX_PACKETS as u64);
    agg.config.enabled = true;
    for c in agg.candidates.iter_mut() {
        c.healthy = false;
    }
    simulate(&mut agg, &mut gen, &mut traffic, 5);
    assert_eq!(traffic.packets, 10 + MAX_PACKETS as u64);
    assert_eq!(gen.tick, 16 + MAX_PACKETS as u64);
    agg.inject_sim_candidates(&[("only", InterfaceKind::Other, 1, 1)]);
    ensure_links(&mut agg);
    assert_eq!(agg.candidates.len(), 1);
}
