use vram_map::procs::{
    fdinfo_usage, parse_kib_value, pid_from_dir_name, process_name, process_usage,
    sort_by_total_desc, ProcessGpuMem, ProcessTable,
};

fn entry(pid: u32, name: &str, vram_kib: u64, gtt_kib: u64) -> ProcessGpuMem {
    ProcessGpuMem { pid, name: name.to_string(), vram_kib, gtt_kib }
}

#[test]
fn total_is_vram_plus_gtt() {
    assert_eq!(entry(1, "a", 1024, 2048).total_kib(), 3072);
}

#[test]
fn kib_values() {
    assert_eq!(parse_kib_value("\t12345 KiB"), Some(12345));
    assert_eq!(parse_kib_value(" 12345 KiB"), Some(12345));
    assert_eq!(parse_kib_value("  "), None);
    assert_eq!(parse_kib_value("x KiB"), None);
}

const FDINFO: &str = "pos:\t0\nflags:\t02100002\nmnt_id:\t26\nino:\t1061\ndrm-driver:\tamdgpu\ndrm-client-id:\t31\ndrm-memory-vram:\t20480 KiB\ndrm-memory-gtt: \t4096 KiB\ndrm-memory-cpu: \t0 KiB\n";

#[test]
fn fdinfo_with_drm_memory() {
    assert_eq!(fdinfo_usage(FDINFO), Some((20480, 4096)));
}

#[test]
fn fdinfo_without_vram_is_not_drm() {
    assert_eq!(fdinfo_usage("pos:\t0\nflags:\t02\n"), None);
    assert_eq!(fdinfo_usage("drm-memory-gtt:\t4096 KiB\n"), None);
    assert_eq!(fdinfo_usage("drm-memory-vram:\tlots\n"), None);
}

#[test]
fn fdinfo_last_reading_wins() {
    let s = "drm-memory-vram: 5 KiB\ndrm-memory-gtt: 7 KiB\ndrm-memory-vram: 3 KiB\ndrm-memory-gtt: bad\n";
    assert_eq!(fdinfo_usage(s), Some((3, 7)));
}

#[test]
fn process_takes_largest_over_fds() {
    let fds = vec![
        "drm-memory-vram: 10 KiB\ndrm-memory-gtt: 50 KiB\n".to_string(),
        "pos: 0\n".to_string(),
        "drm-memory-vram: 30 KiB\ndrm-memory-gtt: 20 KiB\n".to_string(),
    ];
    assert_eq!(process_usage(&fds), Some((30, 50)));
    assert_eq!(process_usage(&vec!["pos: 0\n".to_string()]), None);
    assert_eq!(process_usage(&Vec::new()), None);
}

#[test]
fn shared_context_is_not_double_counted() {
    let fds = vec![FDINFO.to_string(), FDINFO.to_string(), "flags: 0\n".to_string()];
    assert_eq!(process_usage(&fds), Some((20480, 4096)));
}

#[test]
fn pids_and_names() {
    assert_eq!(pid_from_dir_name("1234"), Some(1234));
    assert_eq!(pid_from_dir_name("self"), None);
    assert_eq!(pid_from_dir_name("4294967296"), None);
    assert_eq!(process_name(Some("firefox\n")), "firefox");
    assert_eq!(process_name(None), "?");
}

#[test]
fn table_merges_per_pid_and_sorts() {
    let mut t = ProcessTable::new();
    t.record(10, "small".to_string(), 100, 0);
    t.record(20, "big".to_string(), 5000, 10);
    t.record(10, "renamed".to_string(), 50, 300);
    t.record(30, "mid".to_string(), 400, 400);
    let out = t.into_sorted();
    let got: Vec<(u32, &str, u64, u64)> =
        out.iter().map(|p| (p.pid, p.name.as_str(), p.vram_kib, p.gtt_kib)).collect();
    assert_eq!(got, vec![(20, "big", 5000, 10), (30, "mid", 400, 400), (10, "small", 100, 300)]);
}

#[test]
fn recording_twice_is_recording_once() {
    let mut a = ProcessTable::new();
    a.record(7, "x".to_string(), 1, 2);
    let mut b = ProcessTable::new();
    b.record(7, "x".to_string(), 1, 2);
    b.record(7, "x".to_string(), 1, 2);
    let a = a.into_sorted();
    let b = b.into_sorted();
    assert_eq!(a.len(), 1);
    assert_eq!(b.len(), 1);
    assert_eq!((a[0].pid, a[0].vram_kib, a[0].gtt_kib), (b[0].pid, b[0].vram_kib, b[0].gtt_kib));
}

#[test]
fn record_order_does_not_change_usage() {
    let mut a = ProcessTable::new();
    a.record(7, "x".to_string(), 1, 20);
    a.record(7, "y".to_string(), 10, 2);
    let mut b = ProcessTable::new();
    b.record(7, "y".to_string(), 10, 2);
    b.record(7, "x".to_string(), 1, 20);
    let a = a.into_sorted();
    let b = b.into_sorted();
    assert_eq!((a[0].vram_kib, a[0].gtt_kib), (10, 20));
    assert_eq!((b[0].vram_kib, b[0].gtt_kib), (10, 20));
    assert_eq!(a[0].name, "x");
    assert_eq!(b[0].name, "y");
}

#[test]
fn sort_orders_by_total_descending() {
    let v = vec![entry(1, "a", 1, 1), entry(2, "b", 10, 0), entry(3, "c", 0, 0), entry(4, "d", 3, 3)];
    let s = sort_by_total_desc(v);
    let totals: Vec<u64> = s.iter().map(|p| p.total_kib()).collect();
    assert_eq!(totals, vec![10, 6, 2, 0]);
    assert!(sort_by_total_desc(Vec::new()).is_empty());
}

fn kib_by_std(s: &str) -> Option<u64> {
    s.trim().split_whitespace().next()?.parse().ok()
}

#[test]
fn kib_values_agree_with_std_tokenizing() {
    for s in ["\t12345 KiB", "", " \u{2003}7\u{a0}KiB", "+9 KiB", "12KiB", "\n 0 \n", "x 1"] {
        assert_eq!(parse_kib_value(s), kib_by_std(s), "{:?}", s);
    }
}

#[test]
fn crlf_line_endings_read_the_same() {
    let crlf = FDINFO.replace('\n', "\r\n");
    assert_eq!(fdinfo_usage(&crlf), fdinfo_usage(FDINFO));
    assert_eq!(fdinfo_usage("drm-memory-vram: 8 KiB\r"), Some((8, 0)));
}
