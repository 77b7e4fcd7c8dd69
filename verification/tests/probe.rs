use ci_runner::fmt::centi;
use ci_runner::probe::{fields, line_text, lines, parse_centi, parse_i64, parse_u64, position};

#[test]
fn parse_u64_stops_at_first_non_digit() {
    assert_eq!(parse_u64(b"1700000"), Some(1_700_000));
    assert_eq!(parse_u64(b"3874892 kB"), Some(3_874_892));
    assert_eq!(parse_u64(b"48686\n"), Some(48686));
    assert_eq!(parse_u64(b""), None);
    assert_eq!(parse_u64(b"kB"), None);
}

#[test]
fn parse_u64_rejects_overflow_instead_of_wrapping() {
    assert_eq!(parse_u64(b"18446744073709551615"), Some(u64::MAX));
    assert_eq!(parse_u64(b"99999999999999999999999"), None);
}

#[test]
fn parse_i64_handles_the_negative_speed_sentinel() {
    assert_eq!(parse_i64(b"-1\n"), Some(-1));
    assert_eq!(parse_i64(b"100\n"), Some(100));
}

#[test]
fn fields_collapses_runs_of_whitespace() {
    let got: Vec<&[u8]> = fields(b"cpu  4372 0 5070");
    assert_eq!(got, vec![&b"cpu"[..], b"4372", b"0", b"5070"]);
}

#[test]
fn lines_splits_on_newline() {
    let got: Vec<&[u8]> = lines(b"a\nb\n");
    assert_eq!(got, vec![&b"a"[..], b"b", b""]);
}

#[test]
fn parse_u64_overflow_at_the_boundary() {
    assert_eq!(parse_u64(b"18446744073709551616"), None);
    assert_eq!(parse_u64(b"0018446744073709551615x"), Some(u64::MAX));
}

#[test]
fn parse_u64_ignores_what_follows_a_non_digit() {
    assert_eq!(parse_u64(b"12a99"), parse_u64(b"12a"));
    assert_eq!(parse_u64(b"12a99"), Some(12));
}

#[test]
fn parse_i64_reads_large_and_signed_values() {
    assert_eq!(parse_i64(b"-9223372036854775807"), Some(-9223372036854775807));
    assert_eq!(parse_i64(b"9223372036854775807"), Some(i64::MAX));
    assert_eq!(parse_i64(b"-"), None);
    assert_eq!(parse_i64(b"x1"), None);
}

#[test]
fn fields_of_blank_text_are_empty() {
    let got: Vec<&[u8]> = fields(b" \t\r\n ");
    assert!(got.is_empty());
    let got: Vec<&[u8]> = fields(b"\x0ba\x0cb");
    assert_eq!(got, vec![&b"\x0ba"[..], b"b"]);
}

#[test]
fn lines_of_empty_input_is_one_empty_line() {
    let got: Vec<&[u8]> = lines(b"");
    assert_eq!(got, vec![&b""[..]]);
}

#[test]
fn lines_rejoin_to_the_input() {
    let data: &[u8] = b"x\n\nyz\nw";
    let joined = lines(data).join(&b'\n');
    assert_eq!(joined, data.to_vec());
}

#[test]
fn parse_centi_reads_two_decimals() {
    assert_eq!(parse_centi(b"0.08"), Some(8));
    assert_eq!(parse_centi(b"12.34"), Some(1234));
    assert_eq!(parse_centi(b"1.5"), None);
    assert_eq!(parse_centi(b"15"), None);
    assert_eq!(parse_centi(b".25"), None);
    assert_eq!(parse_centi(b"184467440737095516.16"), None);
}

#[test]
fn position_finds_the_first_occurrence() {
    assert_eq!(position(b"a:b:c", b':'), Some(1));
    assert_eq!(position(b"abc", b':'), None);
}

#[test]
fn line_text_stops_at_nul_or_newline() {
    assert_eq!(line_text(b"up\n"), "up");
    assert_eq!(line_text(b"fan\0junk"), "fan");
    assert_eq!(line_text(b"a\xffb"), "a\u{fffd}b");
}

#[test]
fn parse_centi_reads_back_what_centi_writes() {
    for v in [0u64, 8, 10, 99, 100, 1234, 987654321, u64::MAX - 1, u64::MAX] {
        let text = centi(v);
        assert_eq!(parse_centi(text.as_bytes()), Some(v));
    }
}
