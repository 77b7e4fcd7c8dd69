use ci_runner::mem::{
    buffcache_fits, disk_from_statvfs, kb_value, parse_diskstats, parse_meminfo, root_device,
    strip_partition, Disk, DiskCounters, DiskIo, MemSource,
};

const MEMINFO: &[u8] = b"MemTotal:        3874892 kB\n\
MemFree:         2066732 kB\n\
MemAvailable:    3005216 kB\n\
Buffers:           44584 kB\n\
Cached:          1025988 kB\n\
SwapCached:            0 kB\n\
SReclaimable:      56240 kB\n\
SwapTotal:       8388604 kB\n\
SwapFree:        8388604 kB\n";

#[test]
fn parse_meminfo_converts_kb_to_bytes() {
    let m = parse_meminfo(MEMINFO).unwrap();
    assert_eq!(m.total, 3_874_892 * 1024);
    assert_eq!(m.available, 3_005_216 * 1024);
    assert_eq!(m.swap_total, 8_388_604 * 1024);
}

#[test]
fn used_follows_the_procps_available_formula() {
    let m = parse_meminfo(MEMINFO).unwrap();
    assert_eq!(m.used(), (3_874_892 - 3_005_216) * 1024);
}

#[test]
fn used_does_not_use_the_legacy_free_formula() {
    let m = parse_meminfo(MEMINFO).unwrap();
    let legacy: u64 = (3_874_892u64 - 2_066_732 - 44_584 - 1_025_988 - 56_240) * 1024;
    assert_eq!(legacy, 681_348 * 1024);
    assert_ne!(m.used(), legacy);
}

#[test]
fn buffcache_sums_buffers_cached_and_sreclaimable() {
    let m = parse_meminfo(MEMINFO).unwrap();
    assert_eq!(m.buffcache, (44_584 + 1_025_988 + 56_240) * 1024);
}

#[test]
fn swap_used_is_total_minus_free_without_swapcached() {
    let m = parse_meminfo(MEMINFO).unwrap();
    assert_eq!(m.swap_used(), 0);
}

#[test]
fn cached_label_does_not_capture_swapcached() {
    let m = parse_meminfo(b"MemTotal: 100 kB\nSwapCached: 999 kB\nCached: 7 kB\n").unwrap();
    assert_eq!(m.buffcache, 7 * 1024);
}

#[test]
fn parse_meminfo_requires_memtotal() {
    assert!(parse_meminfo(b"MemFree: 12 kB\n").is_none());
    assert!(parse_meminfo(b"").is_none());
}

const DISKSTATS: &[u8] = b" 179       0 mmcblk0 73808 14004 10649174 274785 22425 34199 2609932 740017 0 213246 1014803 0 0 0 0 0 0\n 179       2 mmcblk0p2 73000 14000 10000000 270000 22000 34000 2600000 740000 0 213000 1014000 0 0 0 0 0 0\n";

#[test]
fn strip_partition_handles_mmc_nvme_and_sata() {
    assert_eq!(strip_partition("mmcblk0p2"), "mmcblk0");
    assert_eq!(strip_partition("nvme0n1p2"), "nvme0n1");
    assert_eq!(strip_partition("sda1"), "sda");
    assert_eq!(strip_partition("sda"), "sda");
    assert_eq!(strip_partition("vda15"), "vda");
}

#[test]
fn parse_diskstats_reads_the_whole_disk_not_the_partition() {
    let c = parse_diskstats(DISKSTATS, "mmcblk0").unwrap();
    assert_eq!(c.read_sectors, 10_649_174);
    assert_eq!(c.write_sectors, 2_609_932);
    assert_eq!(c.io_ms, 213_246);
}

#[test]
fn parse_diskstats_returns_none_for_an_absent_device() {
    assert!(parse_diskstats(DISKSTATS, "sda").is_none());
    assert!(parse_diskstats(b"", "mmcblk0").is_none());
}

#[test]
fn disk_io_first_tick_has_no_rate() {
    let mut d = DiskIo {
        name: Some("mmcblk0".into()),
        prev: None,
        read_bps: None,
        write_bps: None,
        util: None,
    };
    d.prev = parse_diskstats(DISKSTATS, "mmcblk0");
    assert_eq!(d.read_bps, None);
}

#[test]
fn disk_percent_ceilings_against_used_plus_available() {
    let d = Disk {
        used: (15_197_424 - 9_950_108) * 4096,
        avail: 9_319_025 * 4096,
        total: 15_197_424 * 4096,
    };
    assert_eq!(d.percent(), 37);
}

#[test]
fn disk_percent_guards_empty_filesystem() {
    assert_eq!(Disk::default().percent(), 0);
}

#[test]
fn kb_value_needs_the_exact_label_and_a_number() {
    assert_eq!(kb_value(b"Cached:  7 kB", b"Cached:"), Some(7168));
    assert_eq!(kb_value(b"SwapCached: 7 kB", b"Cached:"), None);
    assert_eq!(kb_value(b"Cached: kB", b"Cached:"), None);
    assert_eq!(kb_value(b"Cached: 18014398509481984 kB", b"Cached:"), Some(u64::MAX));
}

#[test]
fn meminfo_later_lines_win_and_overflowing_cache_is_reported() {
    let m = parse_meminfo(b"MemTotal: 1 kB\nMemTotal: 2 kB\n").unwrap();
    assert_eq!(m.total, 2048);
    assert!(buffcache_fits(MEMINFO));
    assert!(!buffcache_fits(
        b"MemTotal: 1 kB\nBuffers: 18014398509481984 kB\nCached: 1 kB\n"
    ));
}

#[test]
fn meminfo_without_memtotal_is_none_whatever_the_cache_adds_up_to() {
    let data = b"Buffers: 18014398509481984 kB\nCached: 1 kB\n";
    assert!(buffcache_fits(data));
    assert_eq!(parse_meminfo(data), None);
    assert_eq!(parse_meminfo(b"MemTotal: kB\nMemFree: 12 kB\n"), None);
    assert_eq!(parse_meminfo(b"MemTotal: 99999999999999999999 kB\n"), None);
}

#[test]
fn strip_partition_keeps_digit_only_and_p_without_digits() {
    assert_eq!(strip_partition("123"), "123");
    assert_eq!(strip_partition("loop"), "loop");
    assert_eq!(strip_partition("sdp1"), "sdp");
    assert_eq!(strip_partition("mmcblk0"), "mmcblk");
}

#[test]
fn parse_diskstats_needs_ten_numeric_counters() {
    assert!(parse_diskstats(b"1 2 sda 1 2 3 4 5 6 7 8 9\n", "sda").is_none());
    assert!(parse_diskstats(b"1 2 sda 1 2 3 4 5 6 7 8 9 x\n", "sda").is_none());
    assert_eq!(
        parse_diskstats(b"1 2 sda 1 2 3 4 5 6 7 8 9 10\n", "sda"),
        Some(DiskCounters { read_sectors: 3, write_sectors: 7, io_ms: 10 })
    );
}

#[test]
fn disk_io_rates_from_sector_deltas() {
    let mut d = DiskIo::new(Some("sda".to_string()));
    d.tick(Some(b"1 2 sda 0 0 100 0 0 0 200 0 0 1000\n"), 1000);
    assert_eq!(d.read_bps, None);
    d.tick(Some(b"1 2 sda 0 0 102 0 0 0 204 0 0 1500\n"), 1000);
    assert_eq!(d.read_bps, Some(1024));
    assert_eq!(d.write_bps, Some(2048));
    assert_eq!(d.util, Some(50));
    d.tick(Some(b"1 2 sda 0 0 1 0 0 0 204 0 0 1500\n"), 1000);
    assert_eq!(d.read_bps, None);
    assert_eq!(d.util, None);
    assert_eq!(d.device(), "sda");
    assert_eq!(DiskIo::new(None).device(), "--");
}

#[test]
fn disk_from_statvfs_uses_the_fragment_size() {
    let d = disk_from_statvfs(4096, 512, 100, 40, 30);
    assert_eq!(d, Disk { total: 409600, used: 245760, avail: 122880 });
    let d = disk_from_statvfs(0, 512, 10, 20, 5);
    assert_eq!(d, Disk { total: 5120, used: 0, avail: 2560 });
}

#[test]
fn root_device_reads_the_mount_of_slash() {
    let m = b"sysfs /sys sysfs rw 0 0\n/dev/mmcblk0p2 / ext4 rw 0 0\n";
    assert_eq!(root_device(m).unwrap(), "mmcblk0");
    assert!(root_device(b"sysfs /sys sysfs rw 0 0\n").is_none());
    assert_eq!(root_device(b"/dev/root / ext4 rw 0 0\n").unwrap(), "root");
}

#[test]
fn mem_source_measures_the_disk_every_tenth_tick() {
    let mut m = MemSource::new();
    assert!(m.tick(Some(MEMINFO)));
    for _ in 0..9 {
        assert!(!m.tick(None));
    }
    assert!(m.tick(Some(b"")));
    assert!(m.info.is_none());
}

#[test]
fn mem_source_counts_down_from_any_countdown() {
    let mut m = MemSource::new();
    m.disk_countdown = 200;
    assert!(!m.tick(None));
    assert_eq!(m.disk_countdown, 199);
    m.disk_countdown = 0;
    assert!(m.tick(None));
    assert_eq!(m.disk_countdown, 9);
}
