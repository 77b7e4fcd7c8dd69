use ci_runner::therm::{is_fan_cooling, is_fan_driver};
use ci_runner::therm::{Fan, Therm, COLD, HOT, WINDOW};

fn feed(t: &mut Therm, samples: &[i64]) {
    for &s in samples {
        t.window[t.head] = s;
        t.head = (t.head + 1) % WINDOW;
        if t.filled < WINDOW {
            t.filled += 1;
        }
        let sum: i64 = t.window[..t.filled].iter().sum();
        t.milli_c = Some(sum / t.filled as i64);
    }
}

#[test]
fn averages_over_the_window_to_damp_sensor_quantization() {
    let mut t = Therm::new();
    t.filled = 0;
    t.head = 0;
    t.window = [0; WINDOW];
    feed(&mut t, &[48686, 48686, 48199, 48199]);
    assert_eq!(t.milli_c, Some((48686 + 48686 + 48199 + 48199) / 4));
}

#[test]
fn averages_over_only_the_samples_seen_so_far() {
    let mut t = Therm::new();
    t.filled = 0;
    t.head = 0;
    t.window = [0; WINDOW];
    feed(&mut t, &[50000]);
    assert_eq!(t.milli_c, Some(50000));
    feed(&mut t, &[40000]);
    assert_eq!(t.milli_c, Some(45000));
}

#[test]
fn window_evicts_the_oldest_sample() {
    let mut t = Therm::new();
    t.filled = 0;
    t.head = 0;
    t.window = [0; WINDOW];
    feed(&mut t, &[10000, 10000, 10000, 10000, 20000]);
    assert_eq!(t.milli_c, Some((20000 + 10000 * 3) / 4));
}

#[test]
fn fan_label_reflects_state() {
    let mut f = Fan::new(false);
    f.on = Some(true);
    assert_eq!(f.label(), "fan ON");
    f.on = Some(false);
    assert_eq!(f.label(), "fan OFF");
    f.on = None;
    assert_eq!(f.label(), "fan --");
}

#[test]
fn percent_of_range_is_zero_without_a_reading() {
    let mut t = Therm::new();
    t.milli_c = None;
    assert_eq!(t.percent_of_range(), 0);
}

#[test]
fn percent_of_range_spans_cold_to_throttle() {
    let mut t = Therm::new();
    t.milli_c = Some(COLD);
    assert_eq!(t.percent_of_range(), 0);
    t.milli_c = Some((COLD + HOT) / 2);
    assert_eq!(t.percent_of_range(), 50);
    t.milli_c = Some(HOT);
    assert_eq!(t.percent_of_range(), 100);
}

#[test]
fn percent_of_range_clamps_at_both_ends() {
    let mut t = Therm::new();
    t.milli_c = Some(0);
    assert_eq!(t.percent_of_range(), 0);
    t.milli_c = Some(120_000);
    assert_eq!(t.percent_of_range(), 100);
}

#[test]
fn idle_temperature_reads_as_comfortable_not_alarming() {
    let mut t = Therm::new();
    t.milli_c = Some(48_600);
    assert!(t.percent_of_range() < 60, "48.6 C must not look hot");
}

#[test]
fn tick_averages_the_last_four_readings() {
    let mut t = Therm::new();
    for s in [b"10000\n".as_slice(), b"20000\n", b"30000\n", b"40000\n", b"50000\n"] {
        t.tick(Some(s));
    }
    assert_eq!(t.milli_c, Some(35000));
    t.tick(Some(b"junk"));
    t.tick(None);
    assert_eq!(t.milli_c, Some(35000));
}

#[test]
fn tick_rounds_negative_means_toward_zero() {
    let mut t = Therm::new();
    t.tick(Some(b"-1\n"));
    t.tick(Some(b"-2\n"));
    assert_eq!(t.milli_c, Some(-1));
}

#[test]
fn accepts_reading_flags_overflowing_sums() {
    let mut t = Therm::new();
    assert!(t.accepts_reading(i64::MAX));
    t.tick(Some(b"9223372036854775807"));
    assert!(!t.accepts_reading(1));
    assert!(t.accepts_reading(-1));
}

#[test]
fn fan_follows_its_level_only_when_present() {
    let mut f = Fan::new(true);
    f.tick(Some(b"1\n"));
    assert_eq!(f.on, Some(true));
    f.tick(Some(b"0\n"));
    assert_eq!(f.label(), "fan OFF");
    f.tick(Some(b"x"));
    assert_eq!(f.on, None);
    let mut g = Fan::new(false);
    g.tick(Some(b"1\n"));
    assert_eq!(g.label(), "fan --");
}

#[test]
fn fan_devices_are_recognised_by_name() {
    assert!(is_fan_driver(b"gpio_fan\n"));
    assert!(is_fan_driver(b"pwm_fan\n"));
    assert!(!is_fan_driver(b"cpu_thermal\n"));
    assert!(is_fan_cooling("pwm-fan"));
    assert!(is_fan_cooling("fan"));
    assert!(!is_fan_cooling("cpufreq"));
    assert!(!is_fan_cooling("fa"));
}

#[test]
fn tick_averages_the_filled_slots_wherever_the_write_position_stands() {
    let mut t = Therm::new();
    t.window = [10000, 20000, 0, 0];
    t.filled = 1;
    t.head = 2;
    assert!(t.accepts_reading(40000));
    t.tick(Some(b"40000\n"));
    assert_eq!(t.window, [10000, 20000, 40000, 0]);
    assert_eq!(t.head, 3);
    assert_eq!(t.filled, 2);
    assert_eq!(t.milli_c, Some(15000));
}
