use ci_runner::psi::{parse_some_avg10, Psi};

const CPU: &[u8] = b"some avg10=0.00 avg60=0.00 avg300=0.00 total=34433583\n\
full avg10=0.00 avg60=0.00 avg300=0.00 total=0\n";

#[test]
fn reads_avg10_from_the_some_line() {
    assert_eq!(parse_some_avg10(CPU), Some(0));
    assert_eq!(
        parse_some_avg10(b"some avg10=12.34 avg60=0.00 avg300=0.00 total=1\n"),
        Some(1234)
    );
}

#[test]
fn ignores_the_full_line() {
    let d = b"some avg10=1.00 avg60=0.00 avg300=0.00 total=1\n\
full avg10=99.00 avg60=0.00 avg300=0.00 total=1\n";
    assert_eq!(parse_some_avg10(d), Some(100));
}

#[test]
fn handles_a_saturated_value() {
    assert_eq!(
        parse_some_avg10(b"some avg10=100.00 avg60=0.00 avg300=0.00 total=1\n"),
        Some(10000)
    );
}

#[test]
fn returns_none_on_malformed_input() {
    assert!(parse_some_avg10(b"").is_none());
    assert!(parse_some_avg10(b"full avg10=1.00\n").is_none());
    assert!(parse_some_avg10(b"some avg60=1.00\n").is_none());
}

#[test]
fn a_bad_avg10_value_is_final() {
    assert!(parse_some_avg10(b"some avg10=x\nsome avg10=1.00\n").is_none());
    assert_eq!(parse_some_avg10(b"some avg60=1.00\nsome x avg10=2.50\n"), Some(250));
}

#[test]
fn psi_reads_every_third_refresh_and_keeps_failed_reads() {
    let mut p = Psi::new();
    assert!(p.tick());
    p.record(Some(CPU), None, Some(b"some avg10=5.00\n"));
    assert_eq!(p.cpu_centi, Some(0));
    assert_eq!(p.mem_centi, None);
    assert_eq!(p.io_centi, Some(500));
    assert!(!p.tick());
    assert!(!p.tick());
    assert!(p.tick());
    p.record(None, None, None);
    assert_eq!(p.io_centi, Some(500));
}
