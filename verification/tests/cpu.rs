use cloudyy_system_monitor::cpu::{
    model_in_line, parse_proc_stat, read_cpu_cores, read_cpu_freq_khz, read_cpu_model, TickOverflow,
};

#[test]
fn ticks_of_the_first_line_are_added() {
    let stat = "cpu  100 20 30 400 50 6 7 0 0 0\ncpu0 1 1 1 1 1\n";
    assert_eq!(parse_proc_stat(Some(stat)), Ok(Some((613, 450))));
}

#[test]
fn short_lines_have_less_idle() {
    assert_eq!(parse_proc_stat(Some("cpu 1 2 3 4")), Ok(Some((10, 4))));
    assert_eq!(parse_proc_stat(Some("cpu 1 2 3")), Ok(Some((6, 0))));
}

#[test]
fn unreadable_ticks_are_none() {
    assert_eq!(parse_proc_stat(None), Ok(None));
    assert_eq!(parse_proc_stat(Some("")), Ok(None));
    assert_eq!(parse_proc_stat(Some("\ncpu 1 2")), Ok(None));
    assert_eq!(parse_proc_stat(Some("cpu")), Ok(None));
    assert_eq!(parse_proc_stat(Some("cpu 0 0 0 0 0")), Ok(None));
    assert_eq!(parse_proc_stat(Some("cpu 1 2 x 4")), Ok(None));
    assert_eq!(parse_proc_stat(Some("cpu 1 2 3 -4")), Ok(None));
}

#[test]
fn ticks_that_overflow_are_told() {
    let max = u64::MAX;
    assert_eq!(parse_proc_stat(Some(&format!("cpu {max} 0 0"))), Ok(Some((max, 0))));
    assert_eq!(parse_proc_stat(Some(&format!("cpu {max} 1"))), Err(TickOverflow));
    assert_eq!(parse_proc_stat(Some(&format!("cpu {max} 1 x"))), Err(TickOverflow));
    assert_eq!(parse_proc_stat(Some(&format!("cpu {max} x 1"))), Ok(None));
}

#[test]
fn idle_never_exceeds_the_total() {
    for stat in ["cpu 0 0 0 5 6", "cpu 1 0 0 0 9 9", "cpu 3 3 3 3 3 3 3 3"] {
        let (total, idle) = parse_proc_stat(Some(stat)).unwrap().unwrap();
        assert!(0 < total && idle <= total);
    }
}

#[test]
fn model_is_cut_at_the_clock_rate() {
    let info = "processor\t: 0\nvendor_id\t: GenuineIntel\n\
                model name\t: Intel(R) Core(TM) i7-8650U CPU @ 1.90GHz\nmodel name\t: other\n";
    assert_eq!(read_cpu_model(Some(info)), "Intel(R) Core(TM) i7-8650U CPU");
}

#[test]
fn model_key_ignores_case() {
    assert_eq!(read_cpu_model(Some("Model Name: ARM: v8 \n")), "ARM: v8");
    assert_eq!(read_cpu_model(Some("MODEL NAME \u{c4}: X")), "X");
}

#[test]
fn model_defaults() {
    assert_eq!(read_cpu_model(None), "CPU");
    assert_eq!(read_cpu_model(Some("")), "CPU");
    assert_eq!(read_cpu_model(Some("model name without a colon")), "CPU");
    assert_eq!(read_cpu_model(Some(" model name: indented")), "CPU");
    assert_eq!(read_cpu_model(Some("model name:\n")), "");
    assert_eq!(read_cpu_model(Some("model name: @ 3 GHz")), "");
}

#[test]
fn model_in_a_line_goes_by_its_lower_case() {
    assert_eq!(model_in_line("A: b", "model name: b"), Some("b".to_string()));
    assert_eq!(model_in_line("model name: b", "a: b"), None);
    assert_eq!(model_in_line("model name b", "model name b"), None);
}

#[test]
fn cores_are_counted() {
    assert_eq!(read_cpu_cores(Some("processor\t: 0\nx\nprocessor\t: 1\nprocessors\n processor\n")), 3);
    assert_eq!(read_cpu_cores(Some("nothing")), 1);
    assert_eq!(read_cpu_cores(None), 1);
}

#[test]
fn cores_are_counted_in_sixteen_bits() {
    assert_eq!(read_cpu_cores(Some(&"processor\n".repeat(65_535))), 65_535);
    assert_eq!(read_cpu_cores(Some(&"processor\n".repeat(65_536))), 1);
    assert_eq!(read_cpu_cores(Some(&"processor\n".repeat(65_538))), 2);
}

#[test]
fn frequency_is_trimmed() {
    assert_eq!(read_cpu_freq_khz(Some("2400000\n")), Some(2_400_000));
    assert_eq!(read_cpu_freq_khz(Some("fast")), None);
    assert_eq!(read_cpu_freq_khz(None), None);
}
