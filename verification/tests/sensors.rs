use cloudyy_system_monitor::sensors::{
    fan_rpm, is_input, read_cpu_temp_c, read_fans, read_thermal_sensors, temp_milli_c,
    thermal_zone_temp, Chip, ChipFile, ThermalZone,
};

fn some(s: &str) -> Option<String> {
    Some(s.to_string())
}

fn zone(name: &str, kind: Option<&str>, temp: Option<&str>) -> ThermalZone {
    ThermalZone {
        name: name.to_string(),
        kind: kind.map(String::from),
        temp: temp.map(String::from),
    }
}

fn chip(name: Option<&str>, files: &[(&str, Option<&str>)]) -> Chip {
    Chip {
        name: name.map(String::from),
        files: Some(
            files
                .iter()
                .map(|(n, d)| ChipFile { name: n.to_string(), data: d.map(String::from) })
                .collect(),
        ),
    }
}

#[test]
fn temperatures_have_to_be_plausible() {
    assert_eq!(temp_milli_c(&some("45500\n")), Some(45));
    assert_eq!(temp_milli_c(&some("10000")), Some(10));
    assert_eq!(temp_milli_c(&some("9999")), None);
    assert_eq!(temp_milli_c(&some("120999")), Some(120));
    assert_eq!(temp_milli_c(&some("121000")), None);
    assert_eq!(temp_milli_c(&some("-45000")), None);
    assert_eq!(temp_milli_c(&some("hot")), None);
    assert_eq!(temp_milli_c(&some("")), None);
    assert_eq!(temp_milli_c(&None), None);
}

#[test]
fn speeds_have_to_be_plausible() {
    assert_eq!(fan_rpm(&some("1200\n")), Some(1200));
    assert_eq!(fan_rpm(&some("0")), None);
    assert_eq!(fan_rpm(&some("1")), Some(1));
    assert_eq!(fan_rpm(&some("49999")), Some(49_999));
    assert_eq!(fan_rpm(&some("50000")), None);
    assert_eq!(fan_rpm(&some("-5")), None);
    assert_eq!(fan_rpm(&None), None);
}

#[test]
fn first_zone_of_a_type_decides() {
    let zones = vec![
        zone("thermal_zone0", Some("acpitz\n"), Some("90000")),
        zone("thermal_zone1", Some("tctl\n"), Some("5")),
        zone("thermal_zone2", Some("tctl\n"), Some("50000")),
    ];
    assert_eq!(thermal_zone_temp(&zones, "acpitz"), Some(90));
    assert_eq!(thermal_zone_temp(&zones, "tctl"), None);
    assert_eq!(thermal_zone_temp(&zones, "other"), None);
    assert_eq!(thermal_zone_temp(&vec![zone("z", None, Some("50000"))], ""), Some(50));
}

#[test]
fn processor_types_come_in_order() {
    let mut zones = vec![
        zone("thermal_zone0", Some("acpitz"), Some("90000")),
        zone("thermal_zone1", Some("cpu-thermal"), Some("41000")),
        zone("thermal_zone2", Some("tctl"), Some("42000")),
        zone("thermal_zone3", Some("x86_pkg_temp"), Some("43000")),
    ];
    assert_eq!(read_cpu_temp_c(&zones), Some(43));
    zones.pop();
    assert_eq!(read_cpu_temp_c(&zones), Some(42));
    zones.pop();
    assert_eq!(read_cpu_temp_c(&zones), Some(41));
    zones.pop();
    assert_eq!(read_cpu_temp_c(&zones), Some(90));
    zones.pop();
    assert_eq!(read_cpu_temp_c(&zones), None);
}

#[test]
fn hottest_zone_is_taken_of_zones_only() {
    let zones = vec![
        zone("thermal_zone0", None, Some("50000")),
        zone("cooling_device0", None, Some("99000")),
        zone("thermal_zone1", None, Some("70000")),
        zone("thermal_zone2", None, Some("300000")),
        zone("thermal_zone3", None, Some("60000")),
    ];
    assert_eq!(read_cpu_temp_c(&zones), Some(70));
}

#[test]
fn input_names() {
    assert!(is_input("temp1_input", "temp"));
    assert!(is_input("temp_input", "temp"));
    assert!(!is_input("temp1_label", "temp"));
    assert!(!is_input("fan1_input", "temp"));
    assert!(is_input("fan1_input", "fan"));
}

#[test]
fn first_temperature_of_each_chip() {
    let chips = vec![
        chip(
            Some("coretemp\n"),
            &[
                ("name", Some("50000")),
                ("temp1_label", Some("50000")),
                ("temp1_input", Some("0")),
                ("temp2_input", Some("51000")),
                ("temp3_input", Some("52000")),
            ],
        ),
        chip(None, &[("temp1_input", Some("33000"))]),
        chip(Some("empty"), &[]),
        Chip { name: some("closed"), files: None },
    ];
    let got: Vec<(String, u8)> =
        read_thermal_sensors(&chips).into_iter().map(|s| (s.label, s.temp_c)).collect();
    assert_eq!(got, vec![("coretemp".to_string(), 51), ("sensor".to_string(), 33)]);
}

#[test]
fn first_fan_of_each_chip() {
    let chips = vec![
        chip(Some(" it87 "), &[("fan1_input", Some("0")), ("fan2_input", Some("900")), ("fan3_input", Some("1"))]),
        chip(None, &[("fan1_input", None), ("fan2_input", Some("800\n"))]),
        chip(Some("x"), &[("fan1_max", Some("800"))]),
    ];
    let got: Vec<(String, u32)> = read_fans(&chips).into_iter().map(|f| (f.label, f.rpm)).collect();
    assert_eq!(got, vec![("it87".to_string(), 900), ("fan".to_string(), 800)]);
}

#[test]
fn no_more_than_the_limit_is_shown() {
    let mut chips = Vec::new();
    for i in 0..10 {
        let name = format!("c{i}");
        let temp = format!("{}000", 20 + i);
        chips.push(chip(Some(&name), &[("temp1_input", Some(&temp)), ("fan1_input", Some(&temp))]));
    }
    let temps = read_thermal_sensors(&chips);
    assert_eq!(temps.len(), 8);
    assert_eq!((temps[0].temp_c, temps[7].temp_c), (20, 27));
    assert_eq!(temps[7].label, "c7");
    let fans = read_fans(&chips);
    assert_eq!(fans.len(), 4);
    assert_eq!(fans[3].rpm, 23_000);
    assert!(read_thermal_sensors(&Vec::new()).is_empty() && read_fans(&Vec::new()).is_empty());
}
