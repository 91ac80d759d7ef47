use cloudyy_system_monitor::memory::read_ram;
use cloudyy_system_monitor::share::Share;

#[test]
fn memory_in_use_is_what_is_not_available() {
    let info = "MemTotal:       16000000 kB\nMemFree: 1 kB\nMemAvailable:    4000000 kB\n\
                SwapTotal:       2000000 kB\nSwapFree:        1500000 kB\n";
    let ram = read_ram(Some(info));
    assert_eq!(ram.total_kb, 16_000_000);
    assert_eq!(ram.used_kb, 12_000_000);
    assert_eq!(ram.used, Share { part: 12_000_000, whole: 16_000_000 });
    assert_eq!(ram.swap_total_kb, 2_000_000);
    assert_eq!(ram.swap_used_kb, 500_000);
    assert_eq!(ram.swap_used, Share { part: 500_000, whole: 2_000_000 });
}

#[test]
fn missing_memory_counts_as_zero_of_one() {
    for info in [None, Some(""), Some("MemTotal 5\nMemTotal: many kB\n")] {
        let ram = read_ram(info);
        assert_eq!((ram.total_kb, ram.used_kb), (0, 0));
        assert_eq!(ram.used, Share { part: 0, whole: 1 });
        assert_eq!(ram.swap_used, Share { part: 0, whole: 1 });
    }
}

#[test]
fn last_line_of_a_key_counts() {
    let ram = read_ram(Some("MemTotal: 10 kB\n  MemTotal : 20 kB\nMemAvailable: 5\nMemAvailable: x\n"));
    assert_eq!((ram.total_kb, ram.used_kb), (20, 20));
}

#[test]
fn order_and_other_lines_have_no_influence() {
    let want = read_ram(Some("MemTotal: 9 kB\nMemAvailable: 4 kB\nSwapTotal: 3 kB\nSwapFree: 1 kB\n"));
    assert_eq!((want.used_kb, want.swap_used_kb), (5, 2));
    let permuted = "SwapFree: 1 kB\nMemAvailable: 4 kB\nMemTotal: 9 kB\nSwapTotal: 3 kB\n";
    assert_eq!(read_ram(Some(permuted)), want);
    let more = "Buffers: 7 kB\nMemTotal: 9 kB\nMemTotal 8\nMemAvailable: 4 kB\n\nSwapTotal: 3 kB\nMemFree: 2 kB\nSwapFree: 1 kB\n";
    assert_eq!(read_ram(Some(more)), want);
}

#[test]
fn use_is_never_negative() {
    let ram = read_ram(Some("MemTotal: 10 kB\nMemAvailable: 11 kB\nSwapFree: 1 kB"));
    assert_eq!((ram.used_kb, ram.swap_used_kb), (0, 0));
    assert!(ram.used_kb <= ram.total_kb && ram.swap_used_kb <= ram.swap_total_kb);
}
