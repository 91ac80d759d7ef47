use cloudyy_system_monitor::command::CommandOutput;
use cloudyy_system_monitor::gpu::{gpu_unavailable, parse_nvidia_smi, read_gpu};

fn some(s: &str) -> Option<String> {
    Some(s.to_string())
}

#[test]
fn fields_are_split_and_trimmed() {
    let g = parse_nvidia_smi(" 37, 61, 112.54, 2048, 8192, NVIDIA GeForce RTX 3070 \nsecond, card\n");
    assert!(g.available);
    assert_eq!(g.percent, Some(37));
    assert_eq!(g.temp_c, some("61"));
    assert_eq!(g.power_w, some("112.54"));
    assert_eq!(g.vram_used_mb, some("2048"));
    assert_eq!(g.vram_total_mb, some("8192"));
    assert_eq!(g.name, some("NVIDIA GeForce RTX 3070"));
}

#[test]
fn use_is_at_most_a_hundred() {
    assert_eq!(parse_nvidia_smi("100").percent, Some(100));
    assert_eq!(parse_nvidia_smi("101").percent, Some(100));
    assert_eq!(parse_nvidia_smi("256").percent, Some(0));
    assert_eq!(parse_nvidia_smi("[N/A], 50").percent, Some(0));
}

#[test]
fn missing_fields() {
    let g = parse_nvidia_smi("");
    assert!(g.available);
    assert_eq!(g.percent, Some(0));
    assert_eq!(g.temp_c, None);
    assert_eq!(g.power_w, None);
    assert_eq!(g.vram_used_mb, some("0"));
    assert_eq!(g.vram_total_mb, some("0"));
    assert_eq!(g.name, some("GPU"));
    let g = parse_nvidia_smi("1, 2, 3, 4");
    assert_eq!((g.vram_used_mb, g.vram_total_mb), (some("4"), some("0")));
    let g = parse_nvidia_smi("1,,,4,5,,7");
    assert_eq!(g.temp_c, some(""));
    assert_eq!(g.name, some(""));
}

#[test]
fn name_is_kept_only_of_a_card() {
    let mut name = some("before");
    let g = read_gpu(&None, &mut name);
    assert!(!g.available && g.percent.is_none() && g.name.is_none());
    assert_eq!(name, some("before"));
    let failed = CommandOutput { success: false, stdout: b"1,2,3,4,5,X".to_vec() };
    assert!(!read_gpu(&Some(failed), &mut name).available);
    assert_eq!(name, some("before"));
    let fine = CommandOutput { success: true, stdout: b"1,2,3,4,5,X".to_vec() };
    assert!(read_gpu(&Some(fine), &mut name).available);
    assert_eq!(name, some("X"));
}

#[test]
fn no_card_has_no_readings() {
    let g = gpu_unavailable();
    assert!(!g.available);
    assert!(g.percent.is_none() && g.power_w.is_none() && g.temp_c.is_none());
    assert!(g.vram_used_mb.is_none() && g.vram_total_mb.is_none() && g.name.is_none());
}

#[test]
fn invalid_bytes_in_a_name_are_replaced() {
    let mut name = None;
    let out = CommandOutput { success: true, stdout: b"1,2,3,4,5,\xc3\xa9\xff".to_vec() };
    assert_eq!(read_gpu(&Some(out), &mut name).name, some("\u{e9}\u{fffd}"));
}
