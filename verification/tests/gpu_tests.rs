use vram_map::gpu::{
    detect_driver_version, is_card_name, parse_active_dpm, parse_sysfs_u64, pci_id_to_name,
    read_stats, GpuStats, StatsSources,
};

fn some(s: &str) -> Option<String> {
    Some(s.to_string())
}

#[test]
fn known_devices_are_named() {
    assert_eq!(pci_id_to_name("0x150e\n"), "AMD Radeon 890M (gfx1150)");
    assert_eq!(pci_id_to_name("0x1900"), "AMD Radeon RX 6900 XT");
    assert_eq!(pci_id_to_name("73bf"), "AMD Radeon RX 6900 XT");
    assert_eq!(pci_id_to_name("  0x164e  "), "AMD Radeon 780M");
}

#[test]
fn unknown_device_shows_its_id() {
    assert_eq!(pci_id_to_name("0x15bf\n"), "AMD GPU [15bf]");
    assert_eq!(pci_id_to_name(""), "AMD GPU []");
    assert_eq!(pci_id_to_name("0x0x150e"), "AMD Radeon 890M (gfx1150)");
    assert_eq!(pci_id_to_name("0X150e"), "AMD GPU [0X150e]");
}

#[test]
fn prefix_free_naming_on_samples() {
    for id in ["150e", "abcd", "", "73bf"] {
        assert_eq!(pci_id_to_name(&format!("0x{}", id)), pci_id_to_name(id));
    }
}

#[test]
fn driver_version_prefers_module_version() {
    assert_eq!(detect_driver_version(Some("3.57\n"), Some("12"), Some("6.8.0")), "3.57");
}

#[test]
fn driver_version_falls_back_to_firmware() {
    assert_eq!(detect_driver_version(Some("  \n"), Some("0x21\n"), Some("6.8.0")), "fw:0x21");
    assert_eq!(detect_driver_version(None, Some("7"), None), "fw:7");
}

#[test]
fn driver_version_falls_back_to_kernel() {
    assert_eq!(detect_driver_version(None, Some(""), Some("6.8.0-45-generic\n")), "kernel:6.8.0-45-generic");
    assert_eq!(detect_driver_version(None, None, Some("")), "kernel:");
}

#[test]
fn driver_version_unknown() {
    assert_eq!(detect_driver_version(None, None, None), "unknown");
    assert_eq!(detect_driver_version(Some(""), Some(" "), None), "unknown");
}

#[test]
fn card_names() {
    assert!(is_card_name("card0"));
    assert!(is_card_name("card12"));
    assert!(!is_card_name("card0-DP-1"));
    assert!(!is_card_name("renderD128"));
    assert!(!is_card_name("car"));
}

#[test]
fn sysfs_numbers() {
    assert_eq!(parse_sysfs_u64("536870912\n"), Some(536870912));
    assert_eq!(parse_sysfs_u64("  42  "), Some(42));
    assert_eq!(parse_sysfs_u64("n/a\n"), None);
    assert_eq!(parse_sysfs_u64(""), None);
}

#[test]
fn active_dpm_level() {
    let table = "0: 400Mhz\n1: 742Mhz *\n2: 2900Mhz\n";
    assert_eq!(parse_active_dpm(table), Some(742));
    assert_eq!(parse_active_dpm("0: 96Mhz\n1: 1000MHz *\n"), Some(1000));
    assert_eq!(parse_active_dpm("0: 96Mhz\n1: 1000Mhz\n"), None);
    assert_eq!(parse_active_dpm("*\n1: 500Mhz *\n"), None);
    assert_eq!(parse_active_dpm("1: abcMhz *\n2: 5Mhz *"), None);
    assert_eq!(parse_active_dpm("1: 800MhzMhz *\r\n"), Some(800));
    assert_eq!(parse_active_dpm(""), None);
}

#[test]
fn stats_from_sources() {
    let s = read_stats(&StatsSources {
        vram_used: some("1048576\n"),
        gtt_used: some("2097152\n"),
        gpu_busy_percent: some("37\n"),
        hwmon_temp: some("45000\n"),
        dpm_sclk: some("0: 600Mhz\n1: 2900Mhz *\n"),
        dpm_mclk: some("0: 1000Mhz *\n"),
    });
    assert_eq!(s.vram_used, 1048576);
    assert_eq!(s.gtt_used, 2097152);
    assert_eq!(s.gpu_busy_pct, 37);
    assert_eq!(s.temp_millicelsius, 45000);
    assert_eq!(s.sclk_mhz, 2900);
    assert_eq!(s.mclk_mhz, 1000);
}

#[test]
fn failed_reads_count_as_zero() {
    let s = read_stats(&StatsSources {
        vram_used: None,
        gtt_used: some("garbage"),
        gpu_busy_percent: None,
        hwmon_temp: None,
        dpm_sclk: None,
        dpm_mclk: some("0: 1000Mhz\n"),
    });
    let d = GpuStats::default();
    assert_eq!(s.vram_used, d.vram_used);
    assert_eq!(s.gtt_used, 0);
    assert_eq!(s.gpu_busy_pct, 0);
    assert_eq!(s.temp_millicelsius, 0);
    assert_eq!(s.sclk_mhz, 0);
    assert_eq!(s.mclk_mhz, 0);
}

#[test]
fn narrow_readings_truncate_like_a_cast() {
    let s = read_stats(&StatsSources {
        vram_used: None,
        gtt_used: None,
        gpu_busy_percent: some("300"),
        hwmon_temp: some("4294967297"),
        dpm_sclk: None,
        dpm_mclk: None,
    });
    assert_eq!(s.gpu_busy_pct, 300u64 as u8);
    assert_eq!(s.temp_millicelsius, 4294967297u64 as u32);
}


fn dpm_by_std(content: &str) -> Option<u32> {
    for line in content.lines() {
        if line.contains('*') {
            let mhz = line.split_whitespace().nth(1)?;
            return mhz.trim_end_matches("Mhz").trim_end_matches("MHz").parse().ok();
        }
    }
    None
}

#[test]
fn active_dpm_agrees_with_std_line_handling() {
    let samples = [
        "0: 400Mhz\n1: 742Mhz *\n",
        "0: 400Mhz *\r\n1: 742Mhz *\r\n",
        "\n\n1:\t1200MHz\t*",
        "1: 5MHzMhz *",
        "1: 5MhzMHz *",
        "*",
        "a b*\n",
        "1: 99 *\n2: 100Mhz *",
        "1: 4294967296Mhz *",
    ];
    for s in samples {
        assert_eq!(parse_active_dpm(s), dpm_by_std(s), "{:?}", s);
    }
}
