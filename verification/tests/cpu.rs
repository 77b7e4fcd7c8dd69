use ci_runner::cpu::{
    busy_percent, parse_cores, parse_loadavg, parse_stat, CpuSource, CpuTimes, Load,
};
use ci_runner::fmt::centi;

const STAT: &[u8] = b"cpu  4372 12 5070 1858281 2674 0 29 3 91 7\n\
cpu0 979 0 1279 464091 762 0 13 0 0 0\n\
intr 890640 0 7804\n";

#[test]
fn parse_stat_reads_the_aggregate_line_not_cpu0() {
    let t = parse_stat(STAT).unwrap();
    assert_eq!(t.total, 4372 + 12 + 5070 + 1858281 + 2674 + 29 + 3);
    assert_eq!(t.idle, 1858281 + 2674);
}

#[test]
fn parse_stat_excludes_guest_fields_to_avoid_double_counting() {
    let t = parse_stat(STAT).unwrap();
    assert!(!format!("{}", t.total).is_empty());
    assert_eq!(t.total, 1870441);
    assert_ne!(t.total, 1870441 + 91 + 7);
}

#[test]
fn parse_stat_treats_iowait_as_idle() {
    let t = parse_stat(b"cpu  10 0 10 100 80 0 0 0\n").unwrap();
    assert_eq!(t.idle, 180);
    assert_eq!(t.total, 200);
}

#[test]
fn parse_stat_rejects_input_without_an_aggregate_line() {
    assert!(parse_stat(b"intr 1 2 3\n").is_none());
    assert!(parse_stat(b"cpu0 1 2 3 4 5 6 7 8\n").is_none());
    assert!(parse_stat(b"").is_none());
}

#[test]
fn busy_percent_computes_from_deltas() {
    let a = CpuTimes {
        total: 1000,
        idle: 900,
    };
    let b = CpuTimes {
        total: 1100,
        idle: 950,
    };
    assert_eq!(busy_percent(a, b), Some(50));
}

#[test]
fn busy_percent_is_none_when_no_time_elapsed() {
    let a = CpuTimes {
        total: 1000,
        idle: 900,
    };
    assert_eq!(busy_percent(a, a), None);
}

#[test]
fn busy_percent_survives_counters_going_backwards() {
    let a = CpuTimes {
        total: 1000,
        idle: 900,
    };
    let b = CpuTimes {
        total: 1100,
        idle: 800,
    };
    assert_eq!(busy_percent(a, b), Some(100));
}

#[test]
fn parse_loadavg_reads_all_five_fields_without_floats() {
    let l = parse_loadavg(b"0.08 0.02 2.34 7/257 2179\n").unwrap();
    assert_eq!(l.one, 8);
    assert_eq!(l.five, 2);
    assert_eq!(l.fifteen, 234);
    assert_eq!(l.runnable, 7);
    assert_eq!(l.threads, 257);
}

#[test]
fn parse_loadavg_rejects_malformed_input() {
    assert!(parse_loadavg(b"").is_none());
    assert!(parse_loadavg(b"0.08 0.02\n").is_none());
    assert!(parse_loadavg(b"0.08 0.02 0.01 7 2179\n").is_none());
}

#[test]
fn parse_stat_skips_a_cpu_line_without_a_space_then_stops() {
    assert_eq!(
        parse_stat(b"cpux 1 1\ncpu  1 1 1 1 1 1 1 1\n"),
        Some(CpuTimes { total: 8, idle: 2 })
    );
    assert!(parse_stat(b"cpu  1 x 1\n").is_none());
    assert!(parse_stat(b"cpu  0 0 0 0\n").is_none());
}

#[test]
fn parse_stat_saturates_instead_of_overflowing() {
    let t = parse_stat(b"cpu  18446744073709551615 1\n").unwrap();
    assert_eq!(t.total, u64::MAX);
}

#[test]
fn busy_percent_is_none_when_time_goes_backwards() {
    let a = CpuTimes { total: 1000, idle: 900 };
    let b = CpuTimes { total: 900, idle: 800 };
    assert_eq!(busy_percent(a, b), None);
}

#[test]
fn cpu_source_measures_against_the_previous_sample() {
    let mut c = CpuSource::new();
    c.tick(Some(b"cpu  100 0 0 100 0 0 0 0\n"), Some(b"0.50 0.40 0.30 2/100 9\n"), Some(b"1500000\n"));
    assert_eq!(c.percent, None);
    assert_eq!(c.mhz, Some(1500));
    assert_eq!(c.load_avg.unwrap().one, 50);
    c.tick(Some(b"cpu  150 0 0 150 0 0 0 0\n"), None, None);
    assert_eq!(c.percent, Some(50));
    assert_eq!(c.mhz, Some(1500));
    c.tick(None, Some(b"junk\n"), Some(b"x"));
    assert_eq!(c.percent, Some(50));
    assert!(c.load_avg.is_none());
    assert_eq!(c.mhz, None);
}

#[test]
fn parse_stat_ignores_everything_after_the_aggregate_line() {
    let line: &[u8] = b"cpu  4372 12 5070 1858281 2674 0 29 3 91 7";
    let alone = parse_stat(line);
    assert_eq!(alone, Some(CpuTimes { total: 4372 + 12 + 5070 + 1858281 + 2674 + 29 + 3, idle: 1858281 + 2674 }));
    assert_eq!(parse_stat(STAT), alone);
    assert_eq!(parse_stat(b"cpu  4372 12 5070 1858281 2674 0 29 3 91 7\ngarbage\n\n"), alone);
    let c = alone.unwrap();
    assert!(c.idle <= c.total);
}

#[test]
fn parse_loadavg_reads_back_what_centi_writes() {
    let cases: [(u64, u64, u64, u64, u64); 4] = [
        (0, 0, 0, 0, 0),
        (8, 150, 1234, 2, 345),
        (99, 100, 101, 1, 1),
        (u64::MAX, 7, 10, u64::MAX, u64::MAX),
    ];
    for (a, b, c, r, t) in cases {
        let text = format!("{} {} {} {}/{} 12345\n", centi(a), centi(b), centi(c), r, t);
        assert_eq!(
            parse_loadavg(text.as_bytes()),
            Some(Load { one: a, five: b, fifteen: c, runnable: r, threads: t })
        );
        let bare = format!("{} {} {} {}/{}", centi(a), centi(b), centi(c), r, t);
        assert_eq!(
            parse_loadavg(bare.as_bytes()),
            Some(Load { one: a, five: b, fifteen: c, runnable: r, threads: t })
        );
    }
}

#[test]
fn parse_cores_reads_each_cpun_line_in_order() {
    let cores = parse_cores(b"cpu  10 0 0 10 0 0 0 0\ncpu0 5 0 0 5 0 0 0 0\ncpu1 0 0 0 0 0 0 0 0\ncpu2 1 x\ncpu3 2 0 0 2 1\nintr 1 2\ncpu4 9 9 9 9\n");
    assert_eq!(
        cores,
        vec![
            Some(CpuTimes { total: 10, idle: 5 }),
            None,
            None,
            Some(CpuTimes { total: 5, idle: 3 }),
        ]
    );
    assert_eq!(parse_cores(STAT), vec![Some(CpuTimes { total: 979 + 1279 + 464091 + 762 + 13, idle: 464091 + 762 })]);
    assert!(parse_cores(b"").is_empty());
}

#[test]
fn cpu_source_measures_each_core_against_its_previous_sample() {
    let mut c = CpuSource::new();
    c.tick(Some(b"cpu  200 0 0 200\ncpu0 100 0 0 100\ncpu1 100 0 0 100\n"), None, None);
    assert_eq!(c.core_percents, vec![None, None]);
    c.tick(Some(b"cpu  300 0 0 300\ncpu0 200 0 0 100\ncpu1 100 0 0 200\ncpu2 1 0 0 0\n"), None, None);
    assert_eq!(c.core_percents, vec![Some(100), Some(0), None]);
    c.tick(None, None, None);
    assert_eq!(c.core_percents, vec![Some(100), Some(0), None]);
}
