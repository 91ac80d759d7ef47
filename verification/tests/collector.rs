use cloudyy_system_monitor::cache::{read_cache, write_cache, Saved, SavedNet};
use cloudyy_system_monitor::cli::{parse_args, warm_up_ms, Invocation};
use cloudyy_system_monitor::collector::{
    epoch_ms, rate_window_ns, state_cache_path, Collector, Readings, Traffic,
};
use cloudyy_system_monitor::command::CommandOutput;
use cloudyy_system_monitor::sensors::{Chip, ChipFile, ThermalZone};
use cloudyy_system_monitor::share::Share;
use cloudyy_system_monitor::window::{push_recent, rolling_avg};

fn some(s: &str) -> Option<String> {
    Some(s.to_string())
}

fn fresh() -> Collector {
    Collector::new(None, None, 0, 0)
}

fn nothing_read() -> Readings {
    Readings {
        stat: None,
        busy_percent: 0,
        zones: Vec::new(),
        freq: None,
        meminfo: None,
        nvidia_smi: None,
        df: None,
        route: None,
        addr: None,
        rx: None,
        tx: None,
        now_ns: 0,
        chips: Vec::new(),
    }
}

#[test]
fn window_keeps_the_latest() {
    let mut buf = Vec::new();
    for i in 0..35u8 {
        push_recent(&mut buf, i);
        assert!(buf.len() <= 30);
    }
    assert_eq!(buf, (5..35u8).collect::<Vec<u8>>());
}

#[test]
fn average_is_rounded_down() {
    assert_eq!(rolling_avg(&[]), 0);
    assert_eq!(rolling_avg(&[7]), 7);
    assert_eq!(rolling_avg(&[1, 2]), 1);
    assert_eq!(rolling_avg(&[100, 100, 99]), 99);
    assert_eq!(rolling_avg(&[255; 30]), 255);
}

#[test]
fn epoch_is_cut_to_64_bits() {
    assert_eq!(epoch_ms(None), 0);
    assert_eq!(epoch_ms(Some(1_700_000_000_123)), 1_700_000_000_123);
    assert_eq!(epoch_ms(Some((1u128 << 64) + 5)), 5);
}

#[test]
fn cache_directory_goes_before_home() {
    let p = state_cache_path(some("/c"), some("/h")).unwrap();
    assert_eq!((p.base.as_str(), p.below.as_str()), ("/c", "cloudyy/system-monitor.state"));
    let p = state_cache_path(None, some("/h")).unwrap();
    assert_eq!((p.base.as_str(), p.below.as_str()), ("/h", ".cache/cloudyy/system-monitor.state"));
    assert!(state_cache_path(None, None).is_none());
}

#[test]
fn arguments() {
    let ask = |args: &[&str]| parse_args(&args.iter().map(|a| a.to_string()).collect());
    assert_eq!(ask(&[]), Invocation::Repeat { interval_ms: 2000 });
    assert_eq!(ask(&["--once"]), Invocation::Once);
    assert_eq!(ask(&["--interval-ms", "1000"]), Invocation::Repeat { interval_ms: 1000 });
    assert_eq!(ask(&["--interval-ms", "soon"]), Invocation::Repeat { interval_ms: 2000 });
    assert_eq!(ask(&["--interval-ms", "5", "--interval-ms"]), Invocation::Repeat { interval_ms: 2000 });
    assert_eq!(ask(&["--interval-ms", "--once"]), Invocation::Repeat { interval_ms: 2000 });
    assert_eq!(ask(&["--interval-ms", "--help"]), Invocation::Repeat { interval_ms: 2000 });
    assert_eq!(ask(&["--once", "--help"]), Invocation::Help);
    assert_eq!(ask(&["what", "-h"]), Invocation::Help);
    assert_eq!(ask(&["what", "--interval-ms", "0"]), Invocation::Repeat { interval_ms: 0 });
}

#[test]
fn help_is_not_taken_back() {
    let args: Vec<String> = ["-h", "--once", "--interval-ms", "5"].iter().map(|a| a.to_string()).collect();
    assert_eq!(parse_args(&args[..1].to_vec()), Invocation::Help);
    assert_eq!(parse_args(&args), Invocation::Help);
}

#[test]
fn only_a_single_snapshot_without_a_reading_warms_up() {
    assert_eq!(warm_up_ms(Invocation::Once, false), Some(350));
    assert_eq!(warm_up_ms(Invocation::Once, true), None);
    assert_eq!(warm_up_ms(Invocation::Repeat { interval_ms: 1 }, false), None);
    assert_eq!(warm_up_ms(Invocation::Help, false), None);
}

#[test]
fn rates_are_taken_over_at_least_a_millisecond() {
    assert_eq!(rate_window_ns(0), 1_000_000);
    assert_eq!(rate_window_ns(999_999), 1_000_000);
    assert_eq!(rate_window_ns(1_000_000), 1_000_000);
    assert_eq!(rate_window_ns(5_000_000_000), 5_000_000_000);
}

#[test]
fn percentages_stay_at_most_a_hundred() {
    let mut c = fresh();
    c.cpu_prev = Some((0, 0));
    assert_eq!(c.read_cpu(Some((10, 1)), 100), (100, 100));
    assert_eq!(c.read_cpu(Some((20, 2)), 255), (100, 100));
    assert_eq!(c.read_cpu(Some((30, 3)), 99), (99, 99));
    assert!(c.cpu_recent.iter().all(|p| *p <= 100));
}

#[test]
fn no_and_all_busy_ticks_decide_the_percentage() {
    let mut c = fresh();
    c.cpu_prev = Some((100, 80));
    assert_eq!(c.read_cpu(Some((200, 80)), 0), (100, 100));
    assert_eq!(c.read_cpu(Some((300, 180)), 55), (0, 50));
    assert_eq!(c.read_cpu(Some((400, 279)), 1), (1, 33));
}

#[test]
fn cache_text_has_one_line_per_value() {
    let net = SavedNet { iface: "eth0".to_string(), rx: 1, tx: 2, epoch_ms: 3 };
    let both = Saved { cpu: Some((10, 4)), net: Some(net) };
    assert_eq!(
        write_cache(&both).as_deref(),
        Some("cpu_total=10\ncpu_idle=4\nnet_iface=eth0\nnet_rx=1\nnet_tx=2\nnet_epoch_ms=3")
    );
    let cpu = Saved { cpu: Some((10, 4)), net: None };
    assert_eq!(write_cache(&cpu).as_deref(), Some("cpu_total=10\ncpu_idle=4"));
    assert!(write_cache(&Saved { cpu: None, net: None }).is_none());
}

#[test]
fn cache_is_read_back_whole() {
    for iface in ["eth0", "a b", "\u{e9}=\r-"] {
        let net = SavedNet { iface: iface.to_string(), rx: u64::MAX, tx: 0, epoch_ms: 1 };
        let text = write_cache(&Saved { cpu: Some((u64::MAX, 7)), net: Some(net) }).unwrap();
        let back = read_cache(&text);
        assert_eq!(back.cpu, Some((u64::MAX, 7)));
        let net = back.net.unwrap();
        assert_eq!((net.iface.as_str(), net.rx, net.tx, net.epoch_ms), (iface, u64::MAX, 0, 1));
    }
}

#[test]
fn cache_leaves_out_what_it_cannot_read() {
    let c = read_cache("cpu_total=5\n");
    assert!(c.cpu.is_none() && c.net.is_none());
    let c = read_cache("cpu_total= 5 \ncpu_idle=2\ncpu_total=x\n");
    assert!(c.cpu.is_none());
    let c = read_cache(" cpu_total=5\ncpu_idle=2\nnet_iface=lo\nnet_epoch_ms=0\n");
    assert!(c.cpu.is_none() && c.net.is_none());
    let c = read_cache("net_iface= \nnet_epoch_ms=4\n");
    assert!(c.net.is_none());
    let n = read_cache("net_iface=lo\nnet_rx=?\nnet_epoch_ms=4\r\njunk\n").net.unwrap();
    assert_eq!((n.iface.as_str(), n.rx, n.tx, n.epoch_ms), ("lo", 0, 0, 4));
}

#[test]
fn new_collector_reads_processor_and_cache() {
    let c = Collector::new(
        Some("processor: 0\nmodel name: X @ 1\nprocessor: 1\n"),
        Some("cpu_total=100\ncpu_idle=40\nnet_iface=eth0\nnet_rx=7\nnet_tx=8\nnet_epoch_ms=1000"),
        1500,
        99,
    );
    assert_eq!((c.cpu_model.as_str(), c.cpu_cores), ("X", 2));
    assert_eq!(c.cpu_prev, Some((100, 40)));
    assert!(c.cpu_recent.is_empty() && c.gpu_name_cache.is_none());
    let p = c.net_prev.unwrap();
    assert_eq!((p.iface.as_str(), p.rx, p.tx, p.at_ns, p.age_ms), ("eth0", 7, 8, 99, 500));
}

#[test]
fn cached_age_is_bounded() {
    let age = |saved: u64, now: u64| {
        let text = format!("net_iface=e\nnet_epoch_ms={saved}");
        Collector::new(None, Some(&text), now, 0).net_prev.unwrap().age_ms
    };
    assert_eq!(age(1000, 500), 0);
    assert_eq!(age(1000, 1000), 0);
    assert_eq!(age(1000, 121_000), 120_000);
    assert_eq!(age(1000, 121_001), 120_000);
}

#[test]
fn loading_nothing_changes_nothing() {
    let mut c = fresh();
    c.cpu_prev = Some((3, 1));
    c.load_cached_state(None, 5, 5);
    c.load_cached_state(Some("garbage"), 5, 5);
    assert_eq!(c.cpu_prev, Some((3, 1)));
    assert!(c.net_prev.is_none());
}

#[test]
fn next_process_goes_on() {
    let mut a = fresh();
    a.read_cpu(Some((1000, 600)), 0);
    a.read_network("eth0".to_string(), String::new(), 5000, 700, 1);
    let text = a.save_cached_state(10_000).unwrap();
    let mut b = Collector::new(None, Some(&text), 12_000, 0);
    assert_eq!(b.cpu_share(Some((1100, 650))), Some(Share { part: 50, whole: 100 }));
    let n = b.read_network("eth0".to_string(), String::new(), 6000, 900, 500);
    assert_eq!(n.traffic, Some(Traffic { rx: 1000, tx: 200, elapsed_ns: 2_000_000_500 }));
}

#[test]
fn nothing_is_saved_of_a_fresh_collector() {
    assert!(fresh().save_cached_state(1).is_none());
}

#[test]
fn busy_share_is_a_proper_fraction() {
    let mut c = fresh();
    assert_eq!(c.cpu_share(Some((100, 50))), None);
    c.cpu_prev = Some((100, 50));
    assert_eq!(c.cpu_share(None), None);
    assert_eq!(c.cpu_share(Some((100, 50))), None);
    assert_eq!(c.cpu_share(Some((90, 50))), None);
    assert_eq!(c.cpu_share(Some((200, 75))), Some(Share { part: 75, whole: 100 }));
    assert_eq!(c.cpu_share(Some((200, 10))), Some(Share { part: 100, whole: 100 }));
    assert_eq!(c.cpu_share(Some((200, 900))), Some(Share { part: 0, whole: 100 }));
}

#[test]
fn cpu_readings_fill_the_window() {
    let mut c = fresh();
    assert_eq!(c.read_cpu(Some((100, 50)), 77), (0, 0));
    assert_eq!(c.cpu_prev, Some((100, 50)));
    assert_eq!(c.read_cpu(Some((200, 90)), 60), (60, 30));
    assert_eq!(c.read_cpu(None, 60), (0, 30));
    assert_eq!(c.cpu_prev, Some((200, 90)));
    assert_eq!(c.read_cpu(Some((200, 90)), 60), (0, 20));
    assert_eq!(c.cpu_recent, vec![0, 60, 0]);
}

#[test]
fn traffic_is_that_of_one_interface() {
    let mut c = fresh();
    let n = c.read_network("a".to_string(), "1.2.3.4".to_string(), 10, 20, 100);
    assert_eq!((n.iface.as_str(), n.ip.as_str(), n.traffic), ("a", "1.2.3.4", None));
    let n = c.read_network("a".to_string(), String::new(), 15, 19, 300);
    assert_eq!(n.traffic, Some(Traffic { rx: 5, tx: 0, elapsed_ns: 200 }));
    let n = c.read_network("b".to_string(), String::new(), 99, 99, 400);
    assert_eq!(n.traffic, None);
    let n = c.read_network("b".to_string(), String::new(), 100, 100, 350);
    assert_eq!(n.traffic, Some(Traffic { rx: 1, tx: 1, elapsed_ns: 0 }));
}

#[test]
fn missing_readings_leave_a_plain_snapshot() {
    let mut c = fresh();
    let s = c.sample(&nothing_read());
    assert_eq!((s.cpu.percent, s.cpu.avg_percent, s.cpu.temp_c, s.cpu.freq_khz), (0, 0, None, None));
    assert_eq!((s.cpu.model.as_str(), s.cpu.cores), ("CPU", 1));
    assert_eq!((s.ram.total_kb, s.ram.used_kb, s.ram.swap_total_kb), (0, 0, 0));
    assert!(!s.gpu.available);
    assert!(s.disks.is_empty() && s.sensors.is_empty() && s.fans.is_empty());
    assert_eq!((s.network.iface.as_str(), s.network.ip.as_str()), ("lo", ""));
    assert!(s.network.traffic.is_none());
    assert!(c.cpu_prev.is_none());
    assert_eq!(c.net_prev.unwrap().iface, "lo");
}

#[test]
fn full_readings_make_a_full_snapshot() {
    let mut c = Collector::new(Some("processor: 0\nmodel name: M\n"), None, 0, 0);
    c.cpu_prev = Some((0, 0));
    let mut r = nothing_read();
    r.stat = Some((100, 25));
    r.busy_percent = 75;
    r.zones.push(ThermalZone { name: "thermal_zone0".to_string(), kind: some("tctl"), temp: some("55000") });
    r.freq = some("3100000");
    r.meminfo = some("MemTotal: 8 kB\nMemAvailable: 6 kB\n");
    r.nvidia_smi = Some(CommandOutput { success: true, stdout: b"9, 40, 20.5, 1, 2, G".to_vec() });
    r.df = Some(CommandOutput { success: true, stdout: b"h\nd ext4 1 10 1 20% /".to_vec() });
    r.route = some("h\neth0 00000000 g 0003 0 0 1\n");
    r.addr = Some(b"inet 10.0.0.1/8".to_vec());
    r.rx = some("11");
    r.tx = some("22");
    r.now_ns = 33;
    r.chips.push(Chip {
        name: some("chip"),
        files: Some(vec![
            ChipFile { name: "temp1_input".to_string(), data: some("44000") },
            ChipFile { name: "fan1_input".to_string(), data: some("1000") },
        ]),
    });
    let s = c.sample(&r);
    assert_eq!((s.cpu.percent, s.cpu.avg_percent, s.cpu.temp_c, s.cpu.freq_khz), (75, 75, Some(55), Some(3_100_000)));
    assert_eq!((s.cpu.model.as_str(), s.cpu.cores), ("M", 1));
    assert_eq!((s.ram.total_kb, s.ram.used_kb), (8, 2));
    assert_eq!((s.gpu.percent, s.gpu.name), (Some(9), some("G")));
    assert_eq!((s.disks[0].mount.as_str(), s.disks[0].total), ("/", 50));
    assert_eq!((s.network.iface.as_str(), s.network.ip.as_str()), ("eth0", "10.0.0.1"));
    assert_eq!((s.sensors[0].label.as_str(), s.sensors[0].temp_c), ("chip", 44));
    assert_eq!((s.fans[0].label.as_str(), s.fans[0].rpm), ("chip", 1000));
    assert_eq!(c.cpu_prev, Some((100, 25)));
    assert_eq!(c.cpu_recent, vec![75]);
    assert_eq!(c.gpu_name_cache, some("G"));
    let p = c.net_prev.unwrap();
    assert_eq!((p.iface.as_str(), p.rx, p.tx, p.at_ns, p.age_ms), ("eth0", 11, 22, 33, 0));
}
