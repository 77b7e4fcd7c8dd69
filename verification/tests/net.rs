use ci_runner::net::choose_interfaces;
use ci_runner::net::{
    is_virtual, net_dev_fits, parse_net_dev, speed_from, Counters, Iface, NetSource,
};

const DEV: &[u8] = b"Inter-|   Receive                    |  Transmit\n\
 face |bytes    packets errs drop fifo frame compressed multicast|bytes    packets errs drop fifo colls carrier compressed\n\
    lo:   12674     131    0    0    0     0          0         0    12674     131    0    0    0     0       0          0\n\
  eth0: 2645248   26119    0 18533    0     0          0       928   338186     995    0    0    0     0       0          0\n\
 wlan0: 1235004    6216    0    0    0     0          0       492    64509     404    0    0    0     0       0          0\n\
docker0:       0       0    0    0    0     0          0         0        0       0    0    0    0     0       0          0\n";

#[test]
fn parse_net_dev_picks_rx_and_tx_bytes_by_column() {
    let e = parse_net_dev(DEV, "eth0").unwrap();
    assert_eq!((e.rx, e.tx), (2_645_248, 338_186));
    let w = parse_net_dev(DEV, "wlan0").unwrap();
    assert_eq!((w.rx, w.tx), (1_235_004, 64_509));
}

#[test]
fn parse_net_dev_handles_a_name_that_abuts_its_colon() {
    let d = parse_net_dev(DEV, "docker0").unwrap();
    assert_eq!((d.rx, d.tx), (0, 0));
}

#[test]
fn parse_net_dev_sums_rx_and_tx_errors_and_drops() {
    let e = parse_net_dev(DEV, "eth0").unwrap();
    assert_eq!(e.drops, 18533);
    assert_eq!(e.errs, 0);
    let w = parse_net_dev(DEV, "wlan0").unwrap();
    assert_eq!(w.drops, 0);
}

#[test]
fn parse_net_dev_returns_none_for_a_missing_interface() {
    assert_eq!(parse_net_dev(DEV, "eth1"), None);
    assert_eq!(parse_net_dev(DEV, ""), None);
}

#[test]
fn parse_net_dev_skips_the_two_header_lines() {
    assert_eq!(parse_net_dev(DEV, "face"), None);
    assert_eq!(parse_net_dev(DEV, "Inter-|   Receive"), None);
}

fn eth0(prev: Option<Counters>, rate: Option<u64>) -> Iface {
    Iface {
        name: "eth0".into(),
        speed: None,
        state: "up".into(),
        rx_rate: rate,
        tx_rate: rate,
        errs: 0,
        drops: 0,
        present: true,
        prev,
    }
}

#[test]
fn first_tick_reports_no_rate() {
    let mut i = Iface {
        name: "eth0".into(),
        speed: None,
        state: "up".into(),
        rx_rate: None,
        tx_rate: None,
        errs: 0,
        drops: 0,
        present: true,
        prev: None,
    };
    i.update(DEV, 1000);
    assert_eq!(i.rx_rate, None);
    assert_eq!(i.tx_rate, None);
}

#[test]
fn second_tick_computes_bytes_per_second() {
    let mut i = Iface {
        name: "eth0".into(),
        speed: None,
        state: "up".into(),
        rx_rate: None,
        tx_rate: None,
        errs: 0,
        drops: 0,
        present: true,
        prev: Some(Counters {
            rx: 2_645_248 - 2000,
            tx: 338_186 - 500,
            errs: 0,
            drops: 0,
        }),
    };
    i.update(DEV, 2000);
    assert_eq!(i.rx_rate, Some(1000));
    assert_eq!(i.tx_rate, Some(250));
}

#[test]
fn counter_reset_suppresses_the_rate_instead_of_spiking() {
    let mut i = Iface {
        name: "eth0".into(),
        speed: None,
        state: "up".into(),
        rx_rate: Some(1),
        tx_rate: Some(1),
        errs: 0,
        drops: 0,
        present: true,
        prev: Some(Counters {
            rx: 9_999_999_999,
            tx: 9_999_999_999,
            errs: 0,
            drops: 0,
        }),
    };
    i.update(DEV, 1000);
    assert_eq!(i.rx_rate, None);
    assert_eq!(i.tx_rate, None);
}

#[test]
fn disappearing_interface_clears_state() {
    let mut i = Iface {
        name: "eth9".into(),
        speed: None,
        state: "up".into(),
        rx_rate: Some(5),
        tx_rate: Some(5),
        errs: 0,
        drops: 0,
        present: true,
        prev: Some(Counters {
            rx: 1,
            tx: 1,
            errs: 0,
            drops: 0,
        }),
    };
    i.update(DEV, 1000);
    assert!(!i.present);
    assert_eq!(i.rx_rate, None);
}

#[test]
fn zero_elapsed_time_does_not_divide_by_zero() {
    let mut i = Iface {
        name: "eth0".into(),
        speed: None,
        state: "up".into(),
        rx_rate: None,
        tx_rate: None,
        errs: 0,
        drops: 0,
        present: true,
        prev: Some(Counters {
            rx: 0,
            tx: 0,
            errs: 0,
            drops: 0,
        }),
    };
    i.update(DEV, 0);
    assert_eq!(i.rx_rate, None);
}

#[test]
fn virtual_interfaces_are_excluded_from_discovery() {
    assert!(is_virtual("lo"));
    assert!(is_virtual("docker0"));
    assert!(is_virtual("veth1a2b"));
    assert!(is_virtual("br-abc"));
    assert!(!is_virtual("eth0"));
    assert!(!is_virtual("wlan0"));
}

#[test]
fn more_virtual_names() {
    assert!(is_virtual("virbr0"));
    assert!(!is_virtual("lo0"));
    assert!(!is_virtual("br0"));
    assert!(!is_virtual(""));
}

#[test]
fn parse_net_dev_stops_at_a_line_without_a_colon() {
    let d = b"h1\nh2\nbroken line\n eth0: 1 2 3 4 5 6 7 8 9 10 11 12\n";
    assert_eq!(parse_net_dev(d, "eth0"), None);
    let d = b"h1\nh2\n eth0: 1 2 3 4 5 6 7 8 9 10 11 12\n";
    assert_eq!(
        parse_net_dev(d, "eth0"),
        Some(Counters { rx: 1, tx: 9, errs: 3 + 11, drops: 4 + 12 })
    );
    let d = b"h1\nh2\n eth0: 1 2 3 4 5 6 7 8 9 10 11\n";
    assert_eq!(parse_net_dev(d, "eth0"), None);
}

#[test]
fn net_dev_fits_flags_overflowing_sums() {
    assert!(net_dev_fits(DEV, "eth0"));
    let d = b"h1\nh2\neth0: 1 2 18446744073709551615 4 5 6 7 8 9 10 1 12\n";
    assert!(!net_dev_fits(d, "eth0"));
    assert!(net_dev_fits(d, "wlan0"));
}

#[test]
fn speed_from_treats_minus_one_as_unknown() {
    assert_eq!(speed_from(b"1000\n"), Some(1000));
    assert_eq!(speed_from(b"-1\n"), None);
    assert_eq!(speed_from(b"0"), None);
    assert_eq!(speed_from(b""), None);
}

#[test]
fn iface_new_starts_present_without_rates() {
    let i = Iface::new("eth0".to_string(), Some(100), "up".to_string());
    assert!(i.present);
    assert_eq!(i.rx_rate, None);
    assert_eq!(i.prev, None);
    let j = eth0(None, Some(3));
    assert_eq!(j.rx_rate, Some(3));
}

#[test]
fn net_source_reads_links_every_fifth_refresh() {
    let mut n = NetSource::new(Some(eth0(None, None)), None);
    assert!(n.tick(Some(DEV), 1000));
    assert!(!n.tick(None, 1000));
    for _ in 0..4 {
        assert!(!n.tick(Some(DEV), 1000));
    }
    assert!(n.tick(Some(DEV), 1000));
    let e = n.eth.as_ref().unwrap();
    assert_eq!(e.rx_rate, Some(0));
    assert!(n.wlan.is_none());
}

#[test]
fn discovery_picks_the_first_name_of_each_kind() {
    let cands = vec![
        ("wlan1".to_string(), true),
        ("lo".to_string(), false),
        ("eth1".to_string(), false),
        ("docker0".to_string(), false),
        ("end0".to_string(), false),
        ("wlan0".to_string(), true),
        ("br-x".to_string(), true),
    ];
    let (eth, wlan) = choose_interfaces(&cands);
    assert_eq!(eth.as_deref(), Some("end0"));
    assert_eq!(wlan.as_deref(), Some("wlan0"));
    let (eth, wlan) = choose_interfaces(&vec![("lo".to_string(), false)]);
    assert_eq!((eth, wlan), (None, None));
    let (eth, _) = choose_interfaces(&vec![("eth10".to_string(), false), ("eth1".to_string(), false)]);
    assert_eq!(eth.as_deref(), Some("eth1"));
}
