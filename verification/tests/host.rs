use ci_runner::host::{c_text, parse_dt_model, parse_pretty_name, parse_uptime, Host, Uptime};

#[test]
fn parse_pretty_name_strips_surrounding_quotes() {
    let d = b"NAME=\"Ubuntu\"\nPRETTY_NAME=\"Ubuntu 24.04.4 LTS\"\nID=ubuntu\n";
    assert_eq!(parse_pretty_name(d).unwrap(), "Ubuntu 24.04.4 LTS");
}

#[test]
fn parse_pretty_name_handles_unquoted_values() {
    assert_eq!(
        parse_pretty_name(b"PRETTY_NAME=Alpine\n").unwrap(),
        "Alpine"
    );
}

#[test]
fn parse_pretty_name_returns_none_when_absent() {
    assert!(parse_pretty_name(b"NAME=\"Ubuntu\"\n").is_none());
    assert!(parse_pretty_name(b"").is_none());
}

#[test]
fn parse_dt_model_trims_at_the_nul_not_a_newline() {
    let raw = b"Raspberry Pi 4 Model B Rev 1.4\0";
    assert_eq!(parse_dt_model(raw), "Raspberry Pi 4 Model B Rev 1.4");
}

#[test]
fn parse_dt_model_tolerates_a_missing_terminator() {
    assert_eq!(parse_dt_model(b"Some Board"), "Some Board");
    assert_eq!(parse_dt_model(b""), "");
}

#[test]
fn parse_uptime_takes_the_whole_seconds_of_the_first_field() {
    assert_eq!(parse_uptime(b"4681.79 18583.09\n"), Some(4681));
    assert_eq!(parse_uptime(b"12 34\n"), Some(12));
    assert!(parse_uptime(b"").is_none());
}

#[test]
fn parse_pretty_name_trims_whitespace_then_quotes_and_rejects_bad_utf8() {
    assert_eq!(parse_pretty_name(b"PRETTY_NAME= \"\"Debian\"\" \n").unwrap(), "Debian");
    assert!(parse_pretty_name(b"PRETTY_NAME=\xff\n").is_none());
    assert_eq!(parse_pretty_name(b"X=1\nPRETTY_NAME=\xc2\xa0Arch\xc2\xa0\n").unwrap(), "Arch");
}

#[test]
fn parse_dt_model_replaces_invalid_bytes_and_trims() {
    assert_eq!(parse_dt_model(b"  Board\xff  \nsecond"), "Board\u{fffd}");
}

#[test]
fn c_text_stops_at_the_nul() {
    assert_eq!(c_text(b"host\0\0\0"), "host");
    assert_eq!(c_text(b"full"), "full");
}

#[test]
fn uptime_keeps_its_value_when_a_read_fails() {
    let mut u = Uptime::new();
    u.tick(Some(b"99.5 1\n"));
    assert_eq!(u.secs, Some(99));
    u.tick(None);
    assert_eq!(u.secs, Some(99));
    u.tick(Some(b"."));
    assert_eq!(u.secs, None);
}

#[test]
fn host_from_readings_takes_each_field_from_its_source() {
    let h = Host::from_readings(
        Some((&b"pi\0\0\0"[..], &b"6.1.0-rpi7\0"[..], &b"aarch64\0\0"[..])),
        Some(&b"other\n"[..]),
        Some(&b"NAME=x\nPRETTY_NAME=\"Debian GNU/Linux 12 (bookworm)\"\n"[..]),
        Some(&b"Raspberry Pi 4 Model B Rev 1.4\0"[..]),
        4,
        Some(&b"600000\n"[..]),
        Some(&b"1800000\n"[..]),
    );
    assert_eq!(h.nodename, "pi");
    assert_eq!(h.kernel, "6.1.0-rpi7");
    assert_eq!(h.arch, "aarch64");
    assert_eq!(h.os, "Debian GNU/Linux 12 (bookworm)");
    assert_eq!(h.model, "Raspberry Pi 4 Model B Rev 1.4");
    assert_eq!(h.cores, 4);
    assert_eq!(h.mhz_min, Some(600));
    assert_eq!(h.mhz_max, Some(1800));
}

#[test]
fn host_from_readings_falls_back_when_reads_fail() {
    let h = Host::from_readings(None, Some(&b"box\n"[..]), None, None, -1, None, Some(&b"x"[..]));
    assert_eq!(h.nodename, "box");
    assert_eq!(h.kernel, "");
    assert_eq!(h.arch, "");
    assert_eq!(h.os, "unknown");
    assert_eq!(h.model, "");
    assert_eq!(h.cores, 1);
    assert_eq!(h.mhz_min, None);
    assert_eq!(h.mhz_max, None);
    let h = Host::from_readings(None, None, Some(&b"NAME=x\n"[..]), None, 0, None, None);
    assert_eq!(h.nodename, "unknown");
    assert_eq!(h.os, "unknown");
    assert_eq!(h.cores, 1);
}
