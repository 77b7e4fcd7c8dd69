use ci_runner::cpu::Load;
use ci_runner::mem::{Disk, MemInfo};
use ci_runner::therm::{Fan, Therm};
use ci_runner::view::{
    bytes_or_dash, disk_text, freq_text, link_text, load_text, meter_rows, mhz_text, pad_left,
    pad_right,
    link_is_up, percent_text, ram_text, rate_or_dash, swap_percent, swap_text, tasks_text, temp_text,
    uptime_text,
};

fn load() -> Load {
    Load { one: 49, five: 31, fifteen: 28, runnable: 3, threads: 233 }
}

#[test]
fn capacity_lines_match_the_readme() {
    assert_eq!(freq_text(4, Some(600), Some(1800)), "4 x 600-1800 MHz");
    assert_eq!(freq_text(4, Some(600), None), "4 cores");
    assert_eq!(tasks_text(Some(load())), "3 runnable / 233");
    assert_eq!(tasks_text(None), "--");
    assert_eq!(bytes_or_dash(Some(3_874_892 * 1024)), "3.6 GiB");
    assert_eq!(bytes_or_dash(None), "--");
}

#[test]
fn runner_and_cpu_texts() {
    assert_eq!(uptime_text(Some(8700)), "2h 25m");
    assert_eq!(uptime_text(None), "--");
    assert_eq!(load_text(Some(load())), "load 0.49 0.31 0.28");
    assert_eq!(load_text(None), "");
    assert_eq!(mhz_text(Some(1800)), "1800 MHz  ");
    assert_eq!(mhz_text(None), "");
    let mut fan = Fan::new(true);
    fan.on = Some(false);
    assert_eq!(temp_text(Some(53_100), &fan), "53.1 C  fan OFF");
    fan.on = Some(true);
    assert_eq!(temp_text(Some(53_100), &fan), "53.1 C  fan ON");
    assert_eq!(temp_text(Some(53_100), &Fan::new(false)), "53.1 C  fan --");
    assert_eq!(temp_text(None, &fan), "sensor unavailable");
}

#[test]
fn memory_and_disk_texts() {
    let m = MemInfo {
        total: 4 << 30,
        available: 3 << 30,
        buffcache: 1 << 20,
        swap_total: 0,
        swap_free: 0,
    };
    assert_eq!(ram_text(m), "1.0 GiB / 4.0 GiB  cache 1.0 MiB");
    assert_eq!(swap_text(m), "0 B / 0 B");
    assert_eq!(swap_percent(m), None);
    let s = MemInfo { swap_total: 1000, swap_free: 250, ..m };
    assert_eq!(swap_percent(s), Some(75));
    let d = Disk { total: 2048, used: 1024, avail: 1024 };
    assert_eq!(disk_text(d), "1.0 KiB / 2.0 KiB  free 1.0 KiB");
}

#[test]
fn network_texts_and_padding() {
    assert_eq!(link_text(Some(100)), "100 Mb");
    assert_eq!(link_text(None), "--");
    assert_eq!(rate_or_dash(Some(239)), "239 B/s");
    assert_eq!(rate_or_dash(None), "--");
    assert_eq!(pad_right("eth0", 7), "eth0   ");
    assert_eq!(pad_right("longer-name", 7), "longer-name");
    assert_eq!(pad_left("--", 7), "     --");
    assert_eq!(pad_left("\u{2588}", 2), " \u{2588}");
    assert_eq!(percent_text(4), "  4%  ");
    assert_eq!(percent_text(100), "100%  ");
    assert_eq!(percent_text(1000), "1000%  ");
}

#[test]
fn meter_rows_give_each_meter_its_level_and_text() {
    let mut t = Therm::new();
    t.milli_c = Some(57_500);
    let load = Load { one: 49, five: 31, fifteen: 28, runnable: 1, threads: 300 };
    let disk = Disk { total: 100, used: 50, avail: 50 };
    let mut fan = Fan::new(true);
    fan.on = Some(false);
    let cores = vec![Some(0), Some(100), Some(4), None];
    let rows = meter_rows(Some(42), Some(1800), Some(load), &cores, false, &t, &fan, None, Some(disk));
    let labels: Vec<&str> = rows.iter().map(|r| r.label.as_str()).collect();
    assert_eq!(labels, vec!["cpu", "temp", "ram", "swap", "disk"]);
    assert_eq!(rows[0].percent, Some(42));
    assert_eq!(rows[0].right, "1800 MHz  load 0.49 0.31 0.28");
    assert_eq!(rows[1].percent, Some(50));
    assert_eq!(rows[1].right, "57.5 C  fan OFF");
    assert_eq!(rows[2].percent, None);
    assert_eq!(rows[2].right, "unavailable");
    assert_eq!(rows[3].percent, None);
    assert_eq!(rows[3].right, "unavailable");
    assert_eq!(rows[4].percent, Some(50));
    assert_eq!(rows[4].right, "50 B / 100 B  free 50 B");

    let mem = MemInfo {
        total: 4 << 20,
        available: 2 << 20,
        buffcache: 1024,
        swap_total: 0,
        swap_free: 0,
    };
    let rows = meter_rows(None, None, None, &vec![], true, &Therm::new(), &fan, Some(mem), None);
    assert_eq!(rows.len(), 5);
    assert_eq!(rows[0].label, "cpu");
    assert_eq!(rows[0].percent, None);
    assert_eq!(rows[0].right, "");
    assert_eq!(rows[1].percent, None);
    assert_eq!(rows[1].right, "sensor unavailable");
    assert_eq!(rows[2].percent, Some(50));
    assert_eq!(rows[2].right, "2.0 MiB / 4.0 MiB  cache 1.0 KiB");
    assert_eq!(rows[3].percent, None);
    assert_eq!(rows[3].right, "0 B / 0 B");
    assert_eq!(rows[4].percent, None);
    assert_eq!(rows[4].right, "unavailable");
}

#[test]
fn meter_rows_show_one_row_per_core_when_asked() {
    let mut t = Therm::new();
    t.milli_c = Some(53_100);
    let fan = Fan::new(false);
    let cores = vec![Some(0), Some(100), Some(4), None];
    let rows = meter_rows(Some(42), Some(1800), None, &cores, true, &t, &fan, None, None);
    let labels: Vec<&str> = rows.iter().map(|r| r.label.as_str()).collect();
    assert_eq!(labels, vec!["cpu_0", "cpu_1", "cpu_2", "cpu_3", "temp", "ram", "swap", "disk"]);
    let levels: Vec<Option<u16>> = rows.iter().take(4).map(|r| r.percent).collect();
    assert_eq!(levels, cores);
    assert!(rows.iter().take(4).all(|r| r.right.is_empty()));
    assert_eq!(rows[4].right, "53.1 C  fan --");
    assert_eq!(rows[4].percent, Some(42));
}

#[test]
fn link_is_up_only_for_up() {
    assert!(link_is_up("up"));
    assert!(!link_is_up("down"));
    assert!(!link_is_up("up "));
    assert!(!link_is_up(""));
}
