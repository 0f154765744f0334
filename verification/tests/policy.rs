use netmux_core::load::load_rank;
use netmux_core::policy::{fnv1a, select_interface, IfaceAction};
use netmux_core::{
    AggregatorConfig, BalanceAlgorithm, CandidateIface, InterfaceKind, InterfacePolicy,
    NetmuxError, Strategy,
};

fn iface(name: &str, prio: u32, weight: u32, tx: f64) -> CandidateIface {
    CandidateIface {
        name: name.into(),
        kind: InterfaceKind::Ethernet,
        policy: InterfacePolicy {
            priority: prio,
            weight,
            enabled: true,
        },
        load: load_rank((tx + 0.0).to_bits()),
        healthy: true,
    }
}

#[test]
fn failover_picks_highest_priority() {
    let cfg = AggregatorConfig {
        strategy: Strategy::Failover,
        ..Default::default()
    };
    let pool = vec![iface("wlan0", 5, 1, 0.0), iface("eth0", 20, 1, 0.0)];
    let mut rr = 0;
    let pick = select_interface(&cfg, &pool, "x", &mut rr).unwrap();
    assert_eq!(pick, "eth0");

    // simulate eth0 failing
    let mut down = pool.clone();
    down[1].healthy = false;
    let pick = select_interface(&cfg, &down, "x", &mut rr).unwrap();
    assert_eq!(pick, "wlan0");
}

#[test]
fn hash_keeps_flow_stable() {
    let cfg = AggregatorConfig {
        strategy: Strategy::LoadBalance,
        algorithm: BalanceAlgorithm::Hash,
        ..Default::default()
    };
    let pool = vec![iface("eth0", 10, 1, 0.0), iface("wlan0", 10, 1, 0.0)];
    let mut rr = 0;
    let a = select_interface(&cfg, &pool, "1.1.1.1:5000->8.8.8.8:443", &mut rr).unwrap();
    let b = select_interface(&cfg, &pool, "1.1.1.1:5000->8.8.8.8:443", &mut rr).unwrap();
    assert_eq!(a, b);
    assert!(a == "eth0" || a == "wlan0");
}

#[test]
fn disabled_interfaces_are_skipped() {
    let cfg = AggregatorConfig { ..Default::default() };
    let mut eth = iface("eth0", 10, 1, 0.0);
    eth.policy.enabled = false;
    let pool = vec![eth, iface("wlan0", 10, 1, 0.0)];
    let mut rr = 0;
    let pick = select_interface(&cfg, &pool, "x", &mut rr).unwrap();
    assert_eq!(pick, "wlan0");
}

#[test]
fn empty_pool_returns_none() {
    let cfg = AggregatorConfig { ..Default::default() };
    // simulate all down by filtering inside: use a non-healthy candidate
    let pool = vec![CandidateIface {
        healthy: false,
        ..iface("eth0", 10, 1, 0.0)
    }];
    let mut rr = 0;
    assert!(select_interface(&cfg, &pool, "x", &mut rr).is_none());
}

#[test]
fn hash_places_follow_the_weighted_pool() {
    let cfg = AggregatorConfig::default();
    let pool = vec![iface("wlan0", 10, 1, 0.0), iface("eth0", 10, 1, 0.0)];
    let mut rr = 5;
    // Four places: eth0 twice, then wlan0 twice.
    assert_eq!(fnv1a(b"1.1.1.1:5000->8.8.8.8:443") % 4, 0);
    assert_eq!(
        select_interface(&cfg, &pool, "1.1.1.1:5000->8.8.8.8:443", &mut rr).unwrap(),
        "eth0"
    );
    assert_eq!(fnv1a(b"x") % 4, 3);
    assert_eq!(select_interface(&cfg, &pool, "x", &mut rr).unwrap(), "wlan0");
    assert_eq!(rr, 5);
}

#[test]
fn hash_pins_flows_whatever_the_loads_and_order() {
    let cfg = AggregatorConfig::default();
    let one = vec![
        iface("eth0", 10, 3, 0.0),
        iface("wlan0", 20, 2, 5.0),
        iface("wwan0", 30, 1, 9.0),
    ];
    let two = vec![
        iface("wwan0", 1, 1, 0.0),
        iface("eth0", 99, 3, 1e9),
        iface("wlan0", 7, 2, f64::NAN),
    ];
    for i in 0..100 {
        let key = format!("10.0.0.1:{i}->8.8.8.8:443");
        let (mut a, mut b) = (0, 77);
        assert_eq!(
            select_interface(&cfg, &one, &key, &mut a),
            select_interface(&cfg, &two, &key, &mut b)
        );
    }
}

#[test]
fn fnv_known_vectors() {
    assert_eq!(fnv1a(b""), 0x811c9dc5);
    assert_eq!(fnv1a(b"a"), 0xe40c292c);
    assert_eq!(fnv1a(b"foobar"), 0xbf9cf968);
}

fn round_robin() -> AggregatorConfig {
    AggregatorConfig {
        algorithm: BalanceAlgorithm::RoundRobin,
        ..Default::default()
    }
}

#[test]
fn round_robin_deals_by_weight() {
    let cfg = round_robin();
    let pool = vec![iface("wlan0", 10, 1, 0.0), iface("eth0", 10, 2, 0.0)];
    let mut rr = 0;
    let mut picks = Vec::new();
    for _ in 0..9 {
        picks.push(select_interface(&cfg, &pool, "x", &mut rr).unwrap());
    }
    assert_eq!(rr, 9);
    assert_eq!(picks[..6], vec!["eth0".to_string(); 6]);
    assert_eq!(picks[6..], vec!["wlan0".to_string(); 3]);
    assert_eq!(select_interface(&cfg, &pool, "x", &mut rr).unwrap(), "eth0");
}

#[test]
fn round_robin_is_fair_from_any_turn() {
    let cfg = round_robin();
    let pool = vec![
        iface("a", 10, 3, 0.0),
        iface("b", 10, 0, 0.0),
        iface("c", 10, 2, 0.0),
    ];
    let mut rr = 17;
    let mut counts = [0usize; 3];
    for _ in 0..36 {
        let pick = select_interface(&cfg, &pool, "x", &mut rr).unwrap();
        counts[(pick.as_bytes()[0] - b'a') as usize] += 1;
    }
    assert_eq!(counts, [18, 6, 12]);
}

#[test]
fn round_robin_counter_wraps() {
    let cfg = round_robin();
    let pool = vec![iface("eth0", 10, 1, 0.0)];
    let mut rr = u64::MAX;
    assert_eq!(select_interface(&cfg, &pool, "x", &mut rr).unwrap(), "eth0");
    assert_eq!(rr, 0);
    assert!(select_interface(&cfg, &[], "x", &mut rr).is_none());
    assert_eq!(rr, 0);
}

#[test]
fn huge_weights_are_dealt() {
    let cfg = round_robin();
    let pool = vec![iface("a", 10, u32::MAX, 0.0), iface("b", 10, u32::MAX, 0.0)];
    let mut rr = u64::MAX;
    assert_eq!(select_interface(&cfg, &pool, "x", &mut rr).unwrap(), "a");
}

fn least_loaded() -> AggregatorConfig {
    AggregatorConfig {
        algorithm: BalanceAlgorithm::LeastLoaded,
        ..Default::default()
    }
}

#[test]
fn least_loaded_takes_the_lightest() {
    let cfg = least_loaded();
    let pool = vec![
        iface("eth0", 10, 1, 900.5),
        iface("wlan0", 10, 1, 12.25),
        iface("wwan0", 10, 1, 12.5),
    ];
    let mut rr = 0;
    assert_eq!(select_interface(&cfg, &pool, "x", &mut rr).unwrap(), "wlan0");
    assert_eq!(rr, 0);
}

#[test]
fn priority_breaks_ties_between_loads() {
    let cfg = least_loaded();
    let mut rr = 0;
    let pool = vec![iface("wlan0", 5, 1, 3.0), iface("eth0", 20, 1, 3.0)];
    assert_eq!(select_interface(&cfg, &pool, "x", &mut rr).unwrap(), "eth0");
    let pool = vec![iface("wlan0", 20, 1, 3.0), iface("eth0", 20, 1, 3.0)];
    assert_eq!(select_interface(&cfg, &pool, "x", &mut rr).unwrap(), "wlan0");
}

#[test]
fn loads_without_rank_are_left_out() {
    let cfg = least_loaded();
    let mut rr = 0;
    let pool = vec![iface("eth0", 10, 1, f64::NAN), iface("wlan0", 1, 1, 1e300)];
    assert_eq!(select_interface(&cfg, &pool, "x", &mut rr).unwrap(), "wlan0");
    let pool = vec![iface("eth0", 10, 1, f64::INFINITY)];
    assert!(select_interface(&cfg, &pool, "x", &mut rr).is_none());
}

#[test]
fn ranks_follow_rates() {
    let rates = [
        f64::NEG_INFINITY,
        -1e9,
        -0.5,
        0.0,
        f64::MIN_POSITIVE,
        1e-3,
        1.0,
        1.0000000000000002,
        1e300,
        f64::MAX,
    ];
    for a in rates {
        for b in rates {
            let (x, y) = (load_rank(a.to_bits()).unwrap(), load_rank(b.to_bits()).unwrap());
            assert_eq!(a < b, x < y);
            assert_eq!(a == b, x == y);
        }
    }
    assert_eq!(load_rank(0.0f64.to_bits()), Some(0));
    assert_eq!(load_rank((-0.0f64).to_bits()), Some(0));
    assert_eq!(load_rank(1.0f64.to_bits()), Some(0x3ff0_0000_0000_0000));
    assert_eq!(load_rank(f64::NAN.to_bits()), None);
    assert_eq!(load_rank(f64::INFINITY.to_bits()), None);
}

#[test]
fn failover_takes_the_first_of_equals() {
    let cfg = AggregatorConfig {
        strategy: Strategy::Failover,
        ..Default::default()
    };
    let mut rr = 3;
    let pool = vec![
        iface("b", 7, 1, 0.0),
        iface("c", 9, 1, 0.0),
        iface("a", 9, 1, 0.0),
    ];
    assert_eq!(select_interface(&cfg, &pool, "x", &mut rr).unwrap(), "c");
    assert_eq!(rr, 3);
}

#[test]
fn default_settings() {
    let p = InterfacePolicy::default();
    assert_eq!((p.priority, p.weight, p.enabled), (10, 1, true));
    let q = p.with_priority(77);
    assert_eq!((q.priority, q.weight, q.enabled), (77, 1, true));
    let cfg = AggregatorConfig::default();
    assert_eq!(cfg.strategy, Strategy::LoadBalance);
    assert_eq!(cfg.algorithm, BalanceAlgorithm::Hash);
    assert_eq!(cfg.interfaces.len(), 0);
    assert_eq!(cfg.health_check_interval_secs, 5);
    assert!(cfg.enabled);
    assert!(cfg.validate().is_ok());
}

fn complaint(cfg: &AggregatorConfig) -> String {
    match cfg.validate() {
        Err(NetmuxError::Config(text)) => text,
        _ => panic!("settings were accepted"),
    }
}

#[test]
fn validation_refuses_bad_settings() {
    let mut cfg = AggregatorConfig::default();
    cfg.interfaces.insert(
        "eth0".to_string(),
        InterfacePolicy { priority: 1, weight: 100, enabled: true },
    );
    assert!(cfg.validate().is_ok());
    cfg.interfaces.insert(
        "wlan0".to_string(),
        InterfacePolicy { priority: 1, weight: 0, enabled: false },
    );
    assert_eq!(
        complaint(&cfg),
        "weight of wlan0 must be >= 1 (use enabled=false to disable)"
    );
    cfg.health_check_interval_secs = 0;
    assert_eq!(complaint(&cfg), "health_check_interval_secs must be >= 1");
}

#[test]
fn actions_change_policies() {
    let mut cfg = AggregatorConfig::default();
    cfg.apply(IfaceAction::Enable("eth0".to_string(), false));
    cfg.apply(IfaceAction::Priority("eth0".to_string(), 3));
    cfg.apply(IfaceAction::Weight("eth0".to_string(), 5));
    let p = *cfg.interfaces.get("eth0").unwrap();
    assert_eq!((p.priority, p.weight, p.enabled), (13, 6, false));
    cfg.apply(IfaceAction::Priority("eth0".to_string(), 1000));
    cfg.apply(IfaceAction::Weight("eth0".to_string(), 1000));
    let p = *cfg.interfaces.get("eth0").unwrap();
    assert_eq!((p.priority, p.weight), (99, 100));
    cfg.apply(IfaceAction::Priority("eth0".to_string(), -1000));
    cfg.apply(IfaceAction::Weight("eth0".to_string(), -1000));
    let p = *cfg.interfaces.get("eth0").unwrap();
    assert_eq!((p.priority, p.weight), (1, 1));
    assert!(cfg.validate().is_ok());
    assert_eq!(cfg.interfaces.len(), 1);
    let copy = cfg.clone();
    assert_eq!(copy.interfaces.get("eth0"), cfg.interfaces.get("eth0"));
}

#[test]
fn actions_start_from_the_default_policy() {
    let mut cfg = AggregatorConfig::default();
    cfg.apply(IfaceAction::Enable("eth0".to_string(), false));
    let p = *cfg.interfaces.get("eth0").unwrap();
    assert_eq!((p.priority, p.weight, p.enabled), (10, 1, false));
    cfg.apply(IfaceAction::Priority("wlan0".to_string(), 1));
    assert_eq!(cfg.interfaces.get("wlan0").unwrap().priority, 11);
    cfg.apply(IfaceAction::Weight("wlan0".to_string(), 1));
    let p = *cfg.interfaces.get("wlan0").unwrap();
    assert_eq!((p.priority, p.weight, p.enabled), (11, 2, true));
}

#[test]
fn policies_are_entries_or_those_of_the_kind() {
    let mut cfg = AggregatorConfig::default();
    for (kind, base) in [
        (InterfaceKind::Ethernet, 30),
        (InterfaceKind::Cellular, 20),
        (InterfaceKind::Wifi, 10),
        (InterfaceKind::Other, 5),
    ] {
        assert_eq!(cfg.policy_of("eth0", kind).priority, base);
        assert_eq!(cfg.policy_of("eth0", kind), InterfacePolicy::for_kind(kind));
    }
    cfg.interfaces.insert(
        "eth0".to_string(),
        InterfacePolicy { priority: 77, weight: 2, enabled: true },
    );
    assert_eq!(cfg.policy_of("eth0", InterfaceKind::Ethernet).priority, 77);
}

#[test]
fn actions_take_large_numbers_as_signed() {
    let mut cfg = AggregatorConfig::default();
    cfg.interfaces.insert(
        "eth0".to_string(),
        InterfacePolicy { priority: u32::MAX, weight: 40, enabled: true },
    );
    cfg.apply(IfaceAction::Priority("eth0".to_string(), 50));
    assert_eq!(cfg.interfaces.get("eth0").unwrap().priority, 49);
}
