use vram_map::display::{
    bar_color, bytes_unit, is_quit_key, kib_unit, poll_timeout_ns, tick_due, uma_usage, BarColor, KeyPress,
    SizeUnit, TICK_NS,
};
use vram_map::gpu::{GpuInfo, GpuStats};

#[test]
fn bar_colors_at_thresholds() {
    assert_eq!(bar_color(0), BarColor::Green);
    assert_eq!(bar_color(69), BarColor::Green);
    assert_eq!(bar_color(70), BarColor::Yellow);
    assert_eq!(bar_color(71), BarColor::Yellow);
    assert_eq!(bar_color(90), BarColor::Yellow);
    assert_eq!(bar_color(91), BarColor::Red);
    assert_eq!(bar_color(150), BarColor::Red);
}

#[test]
fn bar_colors_never_calm_down_as_usage_grows() {
    fn rank(c: BarColor) -> u8 {
        match c {
            BarColor::Green => 0,
            BarColor::Yellow => 1,
            BarColor::Red => 2,
        }
    }
    for p in 0u16..200 {
        assert!(rank(bar_color(p)) <= rank(bar_color(p + 1)));
    }
}

#[test]
fn byte_units() {
    assert_eq!(bytes_unit(0), SizeUnit::B);
    assert_eq!(bytes_unit(1023), SizeUnit::B);
    assert_eq!(bytes_unit(1024), SizeUnit::KiB);
    assert_eq!(bytes_unit(1024 * 1024 - 1), SizeUnit::KiB);
    assert_eq!(bytes_unit(1024 * 1024), SizeUnit::MiB);
    assert_eq!(bytes_unit(1024 * 1024 * 1024 - 1), SizeUnit::MiB);
    assert_eq!(bytes_unit(1024 * 1024 * 1024), SizeUnit::GiB);
    assert_eq!(bytes_unit(u64::MAX), SizeUnit::GiB);
}

#[test]
fn kib_units() {
    assert_eq!(kib_unit(0), SizeUnit::KiB);
    assert_eq!(kib_unit(1023), SizeUnit::KiB);
    assert_eq!(kib_unit(1024), SizeUnit::MiB);
    assert_eq!(kib_unit(1024 * 1024 - 1), SizeUnit::MiB);
    assert_eq!(kib_unit(1024 * 1024), SizeUnit::GiB);
}

#[test]
fn quit_keys() {
    assert!(is_quit_key(KeyPress::Char('q')));
    assert!(is_quit_key(KeyPress::Esc));
    assert!(!is_quit_key(KeyPress::Char('Q')));
    assert!(!is_quit_key(KeyPress::Other));
}

#[test]
fn uma_pool_adds_vram_and_gtt() {
    let info = GpuInfo {
        name: "g".to_string(),
        driver_version: "v".to_string(),
        vram_total: 512,
        gtt_total: 2048,
        card_path: std::path::PathBuf::from("/sys/class/drm/card0/device"),
    };
    let stats = GpuStats { vram_used: 100, gtt_used: 300, ..GpuStats::default() };
    assert_eq!(uma_usage(&info, &stats), (400, 2560));
}

#[test]
fn refresh_pacing() {
    assert_eq!(TICK_NS, 500_000_000);
    assert_eq!(poll_timeout_ns(0), 500_000_000);
    assert_eq!(poll_timeout_ns(120_000_000), 380_000_000);
    assert_eq!(poll_timeout_ns(500_000_000), 0);
    assert_eq!(poll_timeout_ns(u64::MAX), 0);
    assert!(!tick_due(499_999_999));
    assert!(tick_due(500_000_000));
    assert!(tick_due(900_000_000));
}

#[test]
fn waiting_the_timeout_ends_the_tick() {
    for e in [0u64, 1, 250_000_000, 499_999_999, 500_000_000, 700_000_000] {
        assert!(tick_due(e + poll_timeout_ns(e)));
    }
}
