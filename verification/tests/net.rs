use cloudyy_system_monitor::net::{
    default_iface, default_iface_and_ip, find_ipv4, iface_byte_counters, iface_ipv4, is_ipv4,
};

const HEADING: &str = "Iface\tDestination\tGateway\tFlags\tRefCnt\tUse\tMetric\tMask\n";

fn table(rows: &[&str]) -> String {
    let mut t = String::from(HEADING);
    for r in rows {
        t.push_str(r);
        t.push('\n');
    }
    t
}

#[test]
fn least_metric_wins() {
    let t = table(&[
        "wlan0 00000000 0101A8C0 0003 0 0 600 00000000",
        "eth0 00000000 0101A8C0 0003 0 0 100 00000000",
        "eth0 0001A8C0 00000000 0001 0 0 1 00FFFFFF",
        "tun0 00000000 0101A8C0 0003 0 0 700 00000000",
    ]);
    assert_eq!(default_iface(Some(&t)), "eth0");
}

#[test]
fn last_of_equal_metrics_wins() {
    let t = table(&["a 00000000 g 0003 0 0 5", "b 00000000 g 0003 0 0 5", "c 00000000 g 0003 0 0 6"]);
    assert_eq!(default_iface(Some(&t)), "b");
    let t = table(&["a 00000000 g 0003 0 0 4294967295"]);
    assert_eq!(default_iface(Some(&t)), "a");
}

#[test]
fn unreadable_metric_counts_as_zero() {
    let t = table(&["a 00000000 g 0003 0 0 1", "b 00000000 g 0003", "c 00000000 g 0003 0 0 x"]);
    assert_eq!(default_iface(Some(&t)), "c");
}

#[test]
fn without_default_route_it_is_loopback() {
    assert_eq!(default_iface(None), "lo");
    assert_eq!(default_iface(Some("")), "lo");
    assert_eq!(default_iface(Some("eth0 00000000 g 0003 0 0 0")), "lo");
    let t = table(&["a 00000000 g 0001 0 0 1", "b 01000000 g 0003 0 0 1", "", "c"]);
    assert_eq!(default_iface(Some(&t)), "lo");
}

#[test]
fn addresses_are_four_plain_numbers() {
    let check = |s: &str| is_ipv4(&s.chars().collect::<Vec<char>>());
    for s in ["192.168.1.10", "0.0.0.0", "255.255.255.255", "1.20.100.9"] {
        assert!(check(s));
    }
    for s in [
        "256.0.0.1", "1.2.3", "1.2.3.4.5", "1.2.3.", ".1.2.3", "01.2.3.4", "1.2.3.04", "00.0.0.0",
        "1..2.3", "1.2.3.4 ", "+1.2.3.4", "a.b.c.d", "1.2.3.0004", "", "1.2.3.-4", "\u{661}.2.3.4",
    ] {
        assert!(!check(s));
    }
}

#[test]
fn first_address_with_a_length_is_taken() {
    let listing = "2: eth0    inet 10.0.0.300/24 brd 10.0.0.255 scope a.b/c\\ 10.0.0.7/24 10.0.0.8/24";
    assert_eq!(find_ipv4(listing), Some("10.0.0.7".to_string()));
    assert_eq!(find_ipv4("inet 10.0.0.7 none"), None);
    assert_eq!(find_ipv4("10.0.0.7/8/9"), Some("10.0.0.7".to_string()));
    assert_eq!(find_ipv4("/10.0.0.7"), None);
    assert_eq!(find_ipv4(""), None);
}

#[test]
fn address_is_read_from_bytes() {
    assert_eq!(iface_ipv4(&None), None);
    assert_eq!(iface_ipv4(&Some(b"1: lo inet 127.0.0.1/8".to_vec())), Some("127.0.0.1".to_string()));
    assert_eq!(iface_ipv4(&Some(b"\xff 127.0.0.1/8".to_vec())), Some("127.0.0.1".to_string()));
}

#[test]
fn interface_and_address() {
    let t = table(&["eth0 00000000 g 0003 0 0 1"]);
    assert_eq!(
        default_iface_and_ip(Some(&t), &Some(b"inet 10.1.2.3/16".to_vec())),
        ("eth0".to_string(), "10.1.2.3".to_string())
    );
    assert_eq!(default_iface_and_ip(None, &None), ("lo".to_string(), String::new()));
}

#[test]
fn counters_default_to_zero() {
    assert_eq!(iface_byte_counters(Some("123\n"), Some(" 45 ")), (123, 45));
    assert_eq!(iface_byte_counters(None, Some("x")), (0, 0));
}
