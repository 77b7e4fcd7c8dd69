use ci_runner::fmt::{bar, bytes, centi, hms, milli, pct, rate};

#[test]
fn bytes_scales_and_keeps_one_decimal() {
    assert_eq!(bytes(0), "0 B");
    assert_eq!(bytes(512), "512 B");
    assert_eq!(bytes(1024), "1.0 KiB");
    assert_eq!(bytes(1536), "1.5 KiB");
    assert_eq!(bytes(3_967_889_408), "3.6 GiB");
    assert_eq!(bytes(1u64 << 40), "1.0 TiB");
    assert_eq!(bytes(u64::MAX), "15.9 EiB");
}

#[test]
fn rate_appends_per_second() {
    assert_eq!(rate(2048), "2.0 KiB/s");
}

#[test]
fn pct_clamps_and_guards_zero_denominator() {
    assert_eq!(pct(0, 0), 0);
    assert_eq!(pct(5, 0), 0);
    assert_eq!(pct(1, 2), 50);
    assert_eq!(pct(3, 2), 100);
    assert_eq!(pct(u64::MAX, 1), 100);
}

#[test]
fn milli_renders_one_decimal_without_float() {
    assert_eq!(milli(50634), "50.6");
    assert_eq!(milli(48199), "48.1");
    assert_eq!(milli(0), "0.0");
    assert_eq!(milli(-1500), "-1.5");
}

#[test]
fn centi_pads_two_decimals() {
    assert_eq!(centi(8), "0.08");
    assert_eq!(centi(234), "2.34");
    assert_eq!(centi(100), "1.00");
}

#[test]
fn hms_picks_coarsest_useful_unit() {
    assert_eq!(hms(59), "0m");
    assert_eq!(hms(600), "10m");
    assert_eq!(hms(3720), "1h 2m");
    assert_eq!(hms(90061), "1d 1h 1m");
}

#[test]
fn bar_fills_proportionally_and_clamps() {
    assert_eq!(bar(0, 4).chars().filter(|c| *c == '\u{2588}').count(), 0);
    assert_eq!(bar(50, 4).chars().filter(|c| *c == '\u{2588}').count(), 2);
    assert_eq!(bar(100, 4).chars().filter(|c| *c == '\u{2588}').count(), 4);
    assert_eq!(bar(250, 4).chars().filter(|c| *c == '\u{2588}').count(), 4);
    assert_eq!(bar(37, 10).chars().count(), 10);
}

#[test]
fn bytes_just_below_and_at_unit_boundaries() {
    assert_eq!(bytes(1023), "1023 B");
    assert_eq!(bytes(1024 * 1024 - 1), "1023.9 KiB");
    assert_eq!(bytes(1 << 20), "1.0 MiB");
    assert_eq!(bytes(1 << 50), "1.0 PiB");
    assert_eq!(bytes(1 << 60), "1.0 EiB");
}

#[test]
fn pct_of_equal_parts_that_saturate() {
    assert_eq!(pct(7, 7), 100);
    assert_eq!(pct(u64::MAX, u64::MAX), 1);
    assert_eq!(pct(1, 3), 33);
}

#[test]
fn milli_of_extremes() {
    assert_eq!(milli(i64::MIN), "-9223372036854775.8");
    assert_eq!(milli(-99), "-0.0");
    assert_eq!(milli(999), "0.9");
}

#[test]
fn centi_of_large_values() {
    assert_eq!(centi(0), "0.00");
    assert_eq!(centi(123456), "1234.56");
}

#[test]
fn hms_of_whole_days() {
    assert_eq!(hms(86400), "1d 0h 0m");
    assert_eq!(hms(3600), "1h 0m");
}

#[test]
fn bar_cells_are_full_then_light() {
    assert_eq!(bar(50, 4), "\u{2588}\u{2588}\u{2591}\u{2591}");
    assert_eq!(bar(0, 0), "");
    assert_eq!(bar(99, 3), "\u{2588}\u{2588}\u{2591}");
}
