//! CPU time from `/proc/stat`, load from `/proc/loadavg`, and the per-tick
//! utilisation state.
use vstd::prelude::*;
use crate::fmt::{dec, digit_char, pct, spec_centi, spec_pct};
use crate::probe::{
    decimal, fields, find, is_ascii_ws, is_digit, is_sep, lemma_fields_after_space,
    lemma_fields_after_word, lemma_first_piece, lemma_parse_digits, lemma_find_some, lemma_pieces_len, lines, parse_centi, parse_u64, position,
    has_prefix, spec_fields, spec_lines, spec_parse_centi, spec_parse_u64, starts_with, views,
};

verus! {

/// Aggregate jiffies: all eight non-guest columns, and idle plus iowait.
#[derive(Clone, Copy, PartialEq, Eq, Debug, Structural)]
pub struct CpuTimes {
    pub total: u64,
    pub idle: u64,
}

/// Load averages in hundredths, and the runnable and total task counts.
#[derive(Clone, Copy, PartialEq, Eq, Debug, Structural)]
pub struct Load {
    pub one: u64,
    pub five: u64,
    pub fifteen: u64,
    pub runnable: u64,
    pub threads: u64,
}

/// A sum clamped to `u64::MAX`.
pub open spec fn sat_add(a: u64, b: u64) -> u64 {
    if a + b > u64::MAX {
        u64::MAX
    } else {
        (a + b) as u64
    }
}

/// A difference clamped at 0.
pub open spec fn sat_sub(a: u64, b: u64) -> u64 {
    if a >= b {
        (a - b) as u64
    } else {
        0
    }
}

/// The bytes `cpu`.
pub open spec fn cpu_label() -> Seq<u8> {
    seq![99u8, 112u8, 117u8]
}

/// Sums of the given columns: all of them, and the fourth and fifth (idle
/// and iowait); `None` when one of them is not a number.
pub open spec fn stat_sums(fs: Seq<Seq<u8>>) -> Option<(u64, u64)>
    decreases fs.len(),
{
    if fs.len() == 0 {
        Some((0u64, 0u64))
    } else {
        match stat_sums(fs.drop_last()) {
            None => None,
            Some((t, i)) => match spec_parse_u64(fs.last()) {
                None => None,
                Some(v) => Some(
                    (
                        sat_add(t, v),
                        if fs.len() == 4 || fs.len() == 5 {
                            sat_add(i, v)
                        } else {
                            i
                        },
                    ),
                ),
            },
        }
    }
}

/// The up to eight columns after the label of a `cpu` line.
pub open spec fn stat_columns(l: Seq<u8>) -> Seq<Seq<u8>> {
    let fs = spec_fields(l);
    if fs.len() <= 1 {
        Seq::empty()
    } else {
        fs.subrange(
            1,
            if fs.len() < 9 {
                fs.len() as int
            } else {
                9
            },
        )
    }
}

/// The times of the aggregate `cpu ` line; `None` when a column is not a
/// number or the total is 0.
pub open spec fn stat_of_line(l: Seq<u8>) -> Option<CpuTimes> {
    match stat_sums(stat_columns(l)) {
        None => None,
        Some((t, i)) => if t == 0 {
            None
        } else {
            Some(CpuTimes { total: t, idle: i })
        },
    }
}

/// Scans the leading `cpu` lines for the aggregate one (`cpu` then a space);
/// the first line that does not start with `cpu` ends the search.
pub open spec fn stat_from(ls: Seq<Seq<u8>>) -> Option<CpuTimes>
    decreases ls.len(),
{
    if ls.len() == 0 {
        None
    } else if !starts_with(ls[0], cpu_label()) {
        None
    } else if ls[0].len() < 4 || ls[0][3] != 32 {
        stat_from(ls.skip(1))
    } else {
        stat_of_line(ls[0])
    }
}

pub open spec fn spec_parse_stat(data: Seq<u8>) -> Option<CpuTimes> {
    stat_from(spec_lines(data))
}

proof fn lemma_idle_within_total(fs: Seq<Seq<u8>>)
    ensures
        stat_sums(fs) matches Some((t, i)) ==> i <= t,
    decreases fs.len(),
{
    if fs.len() > 0 {
        lemma_idle_within_total(fs.drop_last());
    }
}

/// Whatever follows the aggregate `cpu ` line (per-core lines, `intr` and the
/// rest) never changes what `parse_stat` reads: the result is that of the line
/// alone, and its idle time never exceeds its total.
pub proof fn law_stat_ignores_later_lines(l: Seq<u8>, rest: Seq<u8>)
    requires
        forall|m: int| 0 <= m < l.len() ==> #[trigger] l[m] != 10,
        starts_with(l, cpu_label()),
        l.len() >= 4,
        l[3] == 32,
    ensures
        spec_parse_stat(l + seq![10u8] + rest) == stat_of_line(l),
        spec_parse_stat(l) == stat_of_line(l),
        stat_of_line(l) matches Some(c) ==> c.idle <= c.total,
{
    let s = l + seq![10u8] + rest;
    let n = l.len() as int;
    assert forall|m: int| 0 <= m < n implies !is_sep(#[trigger] s[m], false) by {
        assert(s[m] == l[m]);
    }
    assert(s[n] == 10);
    lemma_first_piece(s, false, n);
    assert(s.take(n) =~= l);
    assert forall|m: int| 0 <= m < n implies !is_sep(#[trigger] l[m], false) by {}
    lemma_first_piece(l, false, n);
    assert(l.take(n) =~= l);
    lemma_idle_within_total(stat_columns(l));
}

/// The bytes of an ASCII text.
pub open spec fn ascii_bytes(cs: Seq<char>) -> Seq<u8> {
    cs.map_values(|c: char| c as u8)
}

proof fn lemma_digit_byte(d: nat)
    requires
        d < 10,
    ensures
        digit_char(d) as u8 == (d + 48) as u8,
        is_digit((d + 48) as u8),
{
}

proof fn lemma_dec_bytes(n: nat)
    ensures
        ascii_bytes(dec(n)).len() > 0,
        forall|k: int| 0 <= k < ascii_bytes(dec(n)).len() ==> is_digit(#[trigger] ascii_bytes(dec(n))[k]),
        decimal(ascii_bytes(dec(n))) == n,
    decreases n,
{
    let b = ascii_bytes(dec(n));
    lemma_digit_byte(n % 10);
    if n >= 10 {
        lemma_dec_bytes(n / 10);
        let p = ascii_bytes(dec(n / 10));
        assert(b =~= p.push((n % 10 + 48) as u8));
        assert(b.drop_last() =~= p);
        assert(decimal(b) == decimal(p) * 10 + n % 10);
    } else {
        assert(b =~= seq![(n + 48) as u8]);
        assert(b.drop_last() =~= Seq::<u8>::empty());
        assert(decimal(Seq::<u8>::empty()) == 0);
        assert(decimal(b) == n);
    }
}

proof fn lemma_centi_shape(v: u64)
    ensures
        ascii_bytes(spec_centi(v)) == ascii_bytes(dec(v as nat / 100)) + seq![
            46u8,
            ((v as nat % 100) / 10 + 48) as u8,
            (v as nat % 10 + 48) as u8,
        ],
        ascii_bytes(spec_centi(v)).len() > 0,
        forall|m: int|
            0 <= m < ascii_bytes(spec_centi(v)).len() ==> !is_ascii_ws(
                #[trigger] ascii_bytes(spec_centi(v))[m],
            ),
{
    let w = ascii_bytes(dec(v as nat / 100));
    let f = ascii_bytes(spec_centi(v));
    lemma_dec_bytes(v as nat / 100);
    lemma_digit_byte((v as nat % 100) / 10);
    lemma_digit_byte(v as nat % 10);
    assert(f =~= w + seq![46u8, ((v as nat % 100) / 10 + 48) as u8, (v as nat % 10 + 48) as u8]);
    assert forall|m: int| 0 <= m < f.len() implies !is_ascii_ws(#[trigger] f[m]) by {
        if m < w.len() {
            assert(f[m] == w[m]);
            assert(is_digit(w[m]));
        }
    }
}

/// The hundredths parser reads back what the two-decimal formatter wrote:
/// `parse_centi` of the text of `centi(v)` is `v`, for every `v`.
#[verifier::spinoff_prover]
#[verifier::rlimit(40)]
pub proof fn law_centi_round_trip(v: u64)
    ensures
        spec_parse_centi(ascii_bytes(spec_centi(v))) == Some(v),
{
    let whole = v as nat / 100;
    let d1 = (v as nat % 100) / 10;
    let d2 = v as nat % 10;
    let w = ascii_bytes(dec(whole));
    let f = ascii_bytes(spec_centi(v));
    lemma_dec_bytes(whole);
    lemma_digit_byte(d1);
    lemma_digit_byte(d2);
    lemma_centi_shape(v);
    let n = w.len() as int;
    assert(f[n] == 46);
    lemma_find_some(f, 46);
    match find(f, 46) {
        Some(k) => {
            if (k as int) < n {
                assert(f[k as int] == w[k as int]);
                assert(is_digit(w[k as int]));
            }
        },
        None => {},
    }
    assert(find(f, 46) == Some(n as nat));
    assert(f.take(n) =~= w);
    lemma_parse_digits(w);
    let c = f.subrange(n + 1, n + 3);
    assert(c =~= seq![(d1 + 48) as u8, (d2 + 48) as u8]);
    assert(c.drop_last() =~= seq![(d1 + 48) as u8]);
    assert(c.drop_last().drop_last() =~= Seq::<u8>::empty());
    assert(decimal(Seq::<u8>::empty()) == 0);
    assert(decimal(c.drop_last()) == d1);
    assert(decimal(c) == d1 * 10 + d2);
    assert forall|k: int| 0 <= k < c.len() implies is_digit(#[trigger] c[k]) by {}
    lemma_parse_digits(c);
}

/// The task counts of `/proc/loadavg` as the kernel writes them: `runnable/threads`.
pub open spec fn tasks_bytes(runnable: u64, threads: u64) -> Seq<u8> {
    ascii_bytes(dec(runnable as nat)) + seq![47u8] + ascii_bytes(dec(threads as nat))
}

/// The first line of `/proc/loadavg` up to the task counts, as the kernel
/// writes it: three averages with two decimals (as `centi` writes them), then
/// `runnable/threads`, separated by spaces.
pub open spec fn loadavg_text(one: u64, five: u64, fifteen: u64, runnable: u64, threads: u64) -> Seq<
    u8,
> {
    ascii_bytes(spec_centi(one)) + seq![32u8] + ascii_bytes(spec_centi(five)) + seq![32u8]
        + ascii_bytes(spec_centi(fifteen)) + seq![32u8] + tasks_bytes(runnable, threads)
}

proof fn lemma_tasks_word(r: u64, t: u64)
    ensures
        tasks_bytes(r, t).len() > 0,
        forall|m: int| 0 <= m < tasks_bytes(r, t).len() ==> !is_ascii_ws(#[trigger] tasks_bytes(r, t)[m]),
        find(tasks_bytes(r, t), 47) == Some(ascii_bytes(dec(r as nat)).len()),
        spec_parse_u64(tasks_bytes(r, t).take(ascii_bytes(dec(r as nat)).len() as int)) == Some(r),
        spec_parse_u64(tasks_bytes(r, t).skip(ascii_bytes(dec(r as nat)).len() + 1 as int)) == Some(t),
{
    let rb = ascii_bytes(dec(r as nat));
    let tb = ascii_bytes(dec(t as nat));
    let d = tasks_bytes(r, t);
    lemma_dec_bytes(r as nat);
    lemma_dec_bytes(t as nat);
    let n = rb.len() as int;
    assert forall|m: int| 0 <= m < d.len() implies !is_ascii_ws(#[trigger] d[m]) by {
        if m < n {
            assert(d[m] == rb[m]);
            assert(is_digit(rb[m]));
        } else if m > n {
            assert(d[m] == tb[m - n - 1]);
            assert(is_digit(tb[m - n - 1]));
        }
    }
    assert(d[n] == 47);
    lemma_find_some(d, 47);
    match find(d, 47) {
        Some(k) => {
            if (k as int) < n {
                assert(d[k as int] == rb[k as int]);
                assert(is_digit(rb[k as int]));
            }
        },
        None => {},
    }
    assert(d.take(n) =~= rb);
    assert(d.skip(n + 1) =~= tb);
    lemma_parse_digits(rb);
    lemma_parse_digits(tb);
}

/// A plain word: not empty, without ASCII whitespace.
pub open spec fn is_word(w: Seq<u8>) -> bool {
    w.len() > 0 && forall|m: int| 0 <= m < w.len() ==> !is_ascii_ws(#[trigger] w[m])
}

proof fn lemma_first_line(p: Seq<u8>, rest: Seq<u8>) -> (r2: Seq<u8>)
    requires
        forall|m: int| 0 <= m < p.len() ==> #[trigger] p[m] != 10,
        rest.len() == 0 || is_ascii_ws(rest[0]),
    ensures
        spec_lines(p + rest)[0] == p + r2,
        r2.len() == 0 || is_ascii_ws(r2[0]),
{
    let data = p + rest;
    lemma_find_some(rest, 10);
    let m: int = match find(rest, 10) {
        Some(k) => k as int,
        None => rest.len() as int,
    };
    let r2 = rest.take(m);
    let n = p.len() + m;
    assert forall|i: int| 0 <= i < n implies !is_sep(#[trigger] data[i], false) by {
        if i < p.len() {
            assert(data[i] == p[i]);
        } else {
            assert(data[i] == rest[i - p.len()]);
        }
    }
    if n < data.len() {
        assert(data[n] == rest[m]);
    }
    lemma_first_piece(data, false, n);
    assert(data.take(n) =~= p + r2);
    if m > 0 {
        assert(r2[0] == rest[0]);
    }
    r2
}

proof fn lemma_four_fields(a: Seq<u8>, b: Seq<u8>, c: Seq<u8>, d: Seq<u8>, r2: Seq<u8>)
    requires
        is_word(a),
        is_word(b),
        is_word(c),
        is_word(d),
        r2.len() == 0 || is_ascii_ws(r2[0]),
    ensures
        spec_fields(a + seq![32u8] + b + seq![32u8] + c + seq![32u8] + d + r2) == seq![a, b, c, d]
            + spec_fields(r2),
{
    let sp = seq![32u8];
    let y3 = d + r2;
    let y2 = c + (sp + y3);
    let y1 = b + (sp + y2);
    assert(a + sp + b + sp + c + sp + d + r2 =~= a + (sp + y1));
    lemma_fields_after_word(d, r2);
    lemma_fields_after_space(y3);
    lemma_fields_after_word(c, sp + y3);
    lemma_fields_after_space(y2);
    lemma_fields_after_word(b, sp + y2);
    lemma_fields_after_space(y1);
    lemma_fields_after_word(a, sp + y1);
    assert(seq![a] + (seq![b] + (seq![c] + (seq![d] + spec_fields(r2)))) =~= seq![a, b, c, d]
        + spec_fields(r2));
}

/// `parse_loadavg` reads back the five numbers of a file that starts with
/// them written the way the kernel writes them, the averages as `centi`
/// writes them, whatever follows after a whitespace byte (or nothing).
pub proof fn law_loadavg_round_trip(
    one: u64,
    five: u64,
    fifteen: u64,
    runnable: u64,
    threads: u64,
    rest: Seq<u8>,
)
    requires
        rest.len() == 0 || is_ascii_ws(rest[0]),
    ensures
        spec_parse_loadavg(loadavg_text(one, five, fifteen, runnable, threads) + rest) == Some(
            Load { one, five, fifteen, runnable, threads },
        ),
{
    let a = ascii_bytes(spec_centi(one));
    let b = ascii_bytes(spec_centi(five));
    let c = ascii_bytes(spec_centi(fifteen));
    let d = tasks_bytes(runnable, threads);
    let p = loadavg_text(one, five, fifteen, runnable, threads);
    lemma_centi_shape(one);
    lemma_centi_shape(five);
    lemma_centi_shape(fifteen);
    lemma_tasks_word(runnable, threads);
    assert forall|m: int| 0 <= m < p.len() implies #[trigger] p[m] != 10 by {
        lemma_spaces_only(a, b, c, d, m);
    }
    let r2 = lemma_first_line(p, rest);
    lemma_four_fields(a, b, c, d, r2);
    law_centi_round_trip(one);
    law_centi_round_trip(five);
    law_centi_round_trip(fifteen);
}

proof fn lemma_spaces_only(a: Seq<u8>, b: Seq<u8>, c: Seq<u8>, d: Seq<u8>, m: int)
    requires
        is_word(a),
        is_word(b),
        is_word(c),
        is_word(d),
        0 <= m < (a + seq![32u8] + b + seq![32u8] + c + seq![32u8] + d).len(),
    ensures
        !is_ascii_ws((a + seq![32u8] + b + seq![32u8] + c + seq![32u8] + d)[m])
            || (a + seq![32u8] + b + seq![32u8] + c + seq![32u8] + d)[m] == 32,
{
    let t = a + seq![32u8] + b + seq![32u8] + c + seq![32u8] + d;
    let i1 = a.len() as int;
    let i2 = i1 + 1 + b.len();
    let i3 = i2 + 1 + c.len();
    if m < i1 {
        assert(t[m] == a[m]);
    } else if m == i1 {
        assert(t[m] == 32);
    } else if m < i2 {
        assert(t[m] == b[m - i1 - 1]);
    } else if m == i2 {
        assert(t[m] == 32);
    } else if m < i3 {
        assert(t[m] == c[m - i2 - 1]);
    } else if m == i3 {
        assert(t[m] == 32);
    } else {
        assert(t[m] == d[m - i3 - 1]);
    }
}

/// The per-core lines among the leading `cpu` lines (`cpu` then a digit),
/// each read as its times; the first line that does not start with `cpu`
/// ends the list.
pub open spec fn cores_from(ls: Seq<Seq<u8>>) -> Seq<Option<CpuTimes>>
    decreases ls.len(),
{
    if ls.len() == 0 || !starts_with(ls[0], cpu_label()) {
        Seq::empty()
    } else if ls[0].len() > 3 && is_digit(ls[0][3]) {
        seq![stat_of_line(ls[0])] + cores_from(ls.skip(1))
    } else {
        cores_from(ls.skip(1))
    }
}

pub open spec fn spec_parse_cores(data: Seq<u8>) -> Seq<Option<CpuTimes>> {
    cores_from(spec_lines(data))
}

/// Utilisation of each core between two samples, by position: none where a
/// sample of that core is missing or no time elapsed.
pub open spec fn core_busy(prev: Seq<Option<CpuTimes>>, cur: Seq<Option<CpuTimes>>) -> Seq<
    Option<u16>,
> {
    Seq::new(
        cur.len(),
        |i: int|
            if i < prev.len() {
                match (prev[i], cur[i]) {
                    (Some(p), Some(c)) => spec_busy(p, c),
                    _ => None,
                }
            } else {
                None
            },
    )
}

/// Busy share between two samples: none when no time elapsed.
pub open spec fn spec_busy(prev: CpuTimes, cur: CpuTimes) -> Option<u16> {
    let dt = sat_sub(cur.total, prev.total);
    if dt == 0 {
        None
    } else {
        let di = sat_sub(cur.idle, prev.idle);
        Some(spec_pct(sat_sub(dt, di), dt))
    }
}

/// The first line of `/proc/loadavg`: three averages, then `runnable/threads`.
pub open spec fn spec_parse_loadavg(data: Seq<u8>) -> Option<Load> {
    let fs = spec_fields(spec_lines(data)[0]);
    if fs.len() < 4 {
        None
    } else {
        match (spec_parse_centi(fs[0]), spec_parse_centi(fs[1]), spec_parse_centi(fs[2])) {
            (Some(one), Some(five), Some(fifteen)) => match find(fs[3], 47) {
                None => None,
                Some(slash) => match (
                    spec_parse_u64(fs[3].take(slash as int)),
                    spec_parse_u64(fs[3].skip(slash + 1 as int)),
                ) {
                    (Some(runnable), Some(threads)) => Some(
                        Load { one, five, fifteen, runnable, threads },
                    ),
                    _ => None,
                },
            },
            _ => None,
        }
    }
}

fn columns_of<'a>(l: &'a [u8]) -> (r: Vec<&'a [u8]>)
    ensures
        views(r@) == stat_columns(l@),
{
    let fs = fields(l);
    let mut out: Vec<&[u8]> = Vec::new();
    if fs.len() <= 1 {
        assert(views(out@) =~= stat_columns(l@));
        return out;
    }
    let end: usize = if fs.len() < 9 {
        fs.len()
    } else {
        9
    };
    let mut j: usize = 1;
    while j < end
        invariant
            1 <= j <= end,
            end <= fs.len(),
            views(fs@) == spec_fields(l@),
            end == (if spec_fields(l@).len() < 9 {
                spec_fields(l@).len() as int
            } else {
                9
            }),
            views(out@) == spec_fields(l@).subrange(1, j as int),
        decreases end - j,
    {
        let ghost before = out@;
        assert(views(fs@)[j as int] == fs@[j as int]@);
        out.push(fs[j]);
        assert(views(out@) =~= views(before).push(fs@[j as int]@));
        j = j + 1;
        assert(views(out@) =~= spec_fields(l@).subrange(1, j as int));
    }
    out
}

fn line_times(l: &[u8]) -> (r: Option<CpuTimes>)
    ensures
        r == stat_of_line(l@),
{
    let cols = columns_of(l);
    let mut total: u64 = 0;
    let mut idle: u64 = 0;
    let mut j: usize = 0;
    assert(views(cols@).take(0) =~= Seq::<Seq<u8>>::empty());
    while j < cols.len()
        invariant
            j <= cols.len(),
            views(cols@) == stat_columns(l@),
            stat_sums(views(cols@).take(j as int)) == Some((total, idle)),
        decreases cols.len() - j,
    {
        let ghost cs = views(cols@);
        assert(cs.take(j + 1).drop_last() =~= cs.take(j as int));
        let v = match parse_u64(cols[j]) {
            Some(v) => v,
            None => {
                proof {
                    lemma_sums_none(cs, j as int + 1);
                    assert(cs.take(cs.len() as int) =~= cs);
                }
                return None;
            },
        };
        total = total.saturating_add(v);
        if j == 3 || j == 4 {
            idle = idle.saturating_add(v);
        }
        j = j + 1;
    }
    assert(views(cols@).take(cols.len() as int) =~= views(cols@));
    if total == 0 {
        None
    } else {
        Some(CpuTimes { total, idle })
    }
}

proof fn lemma_sums_none(cs: Seq<Seq<u8>>, k: int)
    requires
        0 <= k <= cs.len(),
        stat_sums(cs.take(k)) is None,
    ensures
        stat_sums(cs.take(cs.len() as int)) is None,
    decreases cs.len() - k,
{
    if k < cs.len() {
        assert(cs.take(k + 1).drop_last() =~= cs.take(k));
        lemma_sums_none(cs, k + 1);
    }
}

/// The aggregate CPU times from `/proc/stat`: the `cpu ` line, which is not a
/// per-core `cpuN` line, summing its eight non-guest columns, with idle and
/// iowait as idle. `None` when no such line leads the file, a column is not a
/// number, or the total is 0.
pub fn parse_stat(data: &[u8]) -> (r: Option<CpuTimes>)
    ensures
        r == spec_parse_stat(data@),
{
    let ls = lines(data);
    let label: [u8; 3] = [99u8, 112u8, 117u8];
    let mut k: usize = 0;
    assert(views(ls@).skip(0) =~= views(ls@));
    while k < ls.len()
        invariant
            k <= ls.len(),
            views(ls@) == spec_lines(data@),
            stat_from(views(ls@).skip(k as int)) == spec_parse_stat(data@),
            label@ == cpu_label(),
        decreases ls.len() - k,
    {
        let line = ls[k];
        let ghost rest = views(ls@).skip(k as int);
        assert(rest[0] == line@);
        assert(rest.skip(1) =~= views(ls@).skip(k + 1));
        if !has_prefix(line, vstd::array::array_as_slice(&label)) {
            return None;
        }
        if line.len() < 4 || line[3] != 32 {
            k = k + 1;
            continue;
        }
        return line_times(line);
    }
    None
}

/// Share of busy time between two samples, from the deltas of total and
/// idle time; `None` when no time elapsed. Counters that went backwards
/// count as zero deltas.
pub fn busy_percent(prev: CpuTimes, cur: CpuTimes) -> (r: Option<u16>)
    ensures
        r == spec_busy(prev, cur),
{
    let dt = cur.total.saturating_sub(prev.total);
    if dt == 0 {
        return None;
    }
    let di = cur.idle.saturating_sub(prev.idle);
    let busy = dt.saturating_sub(di);
    Some(pct(busy, dt))
}

/// Load averages (in hundredths) and task counts from `/proc/loadavg`,
/// without floating point.
pub fn parse_loadavg(data: &[u8]) -> (r: Option<Load>)
    ensures
        r == spec_parse_loadavg(data@),
{
    let ls = lines(data);
    proof {
        lemma_pieces_len(data@, false);
    }
    let fs = fields(ls[0]);
    if fs.len() < 4 {
        return None;
    }
    let one = match parse_centi(fs[0]) {
        Some(v) => v,
        None => return None,
    };
    let five = match parse_centi(fs[1]) {
        Some(v) => v,
        None => return None,
    };
    let fifteen = match parse_centi(fs[2]) {
        Some(v) => v,
        None => return None,
    };
    let procs = fs[3];
    let slash = match position(procs, 47) {
        Some(s) => s,
        None => return None,
    };
    proof {
        lemma_find_some(procs@, 47);
    }
    assert(slash < procs.len());
    let head = &procs[0..slash];
    let tail = &procs[slash + 1..procs.len()];
    assert(head@ =~= procs@.take(slash as int));
    assert(tail@ =~= procs@.skip(slash + 1));
    let runnable = match parse_u64(head) {
        Some(v) => v,
        None => return None,
    };
    let threads = match parse_u64(tail) {
        Some(v) => v,
        None => return None,
    };
    Some(Load { one, five, fifteen, runnable, threads })
}

/// Utilisation, load and clock state, updated once per refresh.
pub struct CpuSource {
    /// The previous aggregate sample, which the next one is measured against.
    pub prev: Option<CpuTimes>,
    pub percent: Option<u16>,
    pub load_avg: Option<Load>,
    pub mhz: Option<u64>,
    /// The previous sample of each core.
    pub prev_cores: Vec<Option<CpuTimes>>,
    /// Utilisation of each core, in file order.
    pub core_percents: Vec<Option<u16>>,
}

impl CpuSource {
    /// No sample yet.
    pub fn new() -> (r: CpuSource)
        ensures
            r.prev is None,
            r.percent is None,
            r.load_avg is None,
            r.mhz is None,
            r.prev_cores@.len() == 0,
            r.core_percents@.len() == 0,
    {
        CpuSource {
            prev: None,
            percent: None,
            load_avg: None,
            mhz: None,
            prev_cores: Vec::new(),
            core_percents: Vec::new(),
        }
    }

    /// One refresh. Each argument is the content just read from `/proc/stat`,
    /// `/proc/loadavg` and the current-frequency file, or `None` where the
    /// read failed, which leaves that part of the state as it was. The
    /// utilisation is measured against the previous parsed sample, that of
    /// each core against the same core's previous sample; the clock file
    /// holds kHz, the state holds MHz.
    pub fn tick(&mut self, stat: Option<&[u8]>, load: Option<&[u8]>, freq: Option<&[u8]>)
        ensures
            match stat {
                Some(d) => match spec_parse_stat(d@) {
                    Some(cur) => {
                        &&& final(self).prev == Some(cur)
                        &&& final(self).percent == match old(self).prev {
                            Some(p) => spec_busy(p, cur),
                            None => None,
                        }
                    },
                    None => final(self).prev == old(self).prev && final(self).percent == old(self).percent,
                },
                None => final(self).prev == old(self).prev && final(self).percent == old(self).percent,
            },
            match stat {
                Some(d) => {
                    &&& final(self).prev_cores@ == spec_parse_cores(d@)
                    &&& final(self).core_percents@ == core_busy(
                        old(self).prev_cores@,
                        spec_parse_cores(d@),
                    )
                },
                None => final(self).prev_cores == old(self).prev_cores
                    && final(self).core_percents == old(self).core_percents,
            },
            final(self).load_avg == match load {
                Some(d) => spec_parse_loadavg(d@),
                None => old(self).load_avg,
            },
            final(self).mhz == match freq {
                Some(d) => match spec_parse_u64(d@) {
                    Some(khz) => Some((khz / 1000) as u64),
                    None => None,
                },
                None => old(self).mhz,
            },
    {
        if let Some(d) = stat {
            if let Some(cur) = parse_stat(d) {
                self.percent = match self.prev {
                    Some(p) => busy_percent(p, cur),
                    None => None,
                };
                self.prev = Some(cur);
            }
            let cores = parse_cores(d);
            self.core_percents = cores_busy(&self.prev_cores, &cores);
            self.prev_cores = cores;
        }
        if let Some(d) = load {
            self.load_avg = parse_loadavg(d);
        }
        if let Some(d) = freq {
            self.mhz = match parse_u64(d) {
                Some(khz) => Some(khz / 1000),
                None => None,
            };
        }
    }
}

/// The times of each per-core line (`cpuN`) of `/proc/stat`, in file
/// order: `None` for a line whose columns are not numbers or sum to 0.
pub fn parse_cores(data: &[u8]) -> (r: Vec<Option<CpuTimes>>)
    ensures
        r@ == spec_parse_cores(data@),
{
    let ls = lines(data);
    let label: [u8; 3] = [99u8, 112u8, 117u8];
    let mut out: Vec<Option<CpuTimes>> = Vec::new();
    let mut k: usize = 0;
    assert(views(ls@).skip(0) =~= views(ls@));
    while k < ls.len()
        invariant
            k <= ls.len(),
            views(ls@) == spec_lines(data@),
            out@ + cores_from(views(ls@).skip(k as int)) == spec_parse_cores(data@),
            label@ == cpu_label(),
        decreases ls.len() - k,
    {
        let line = ls[k];
        let ghost rest = views(ls@).skip(k as int);
        assert(rest[0] == line@);
        assert(rest.skip(1) =~= views(ls@).skip(k + 1));
        if !has_prefix(line, vstd::array::array_as_slice(&label)) {
            assert(out@ + Seq::<Option<CpuTimes>>::empty() =~= out@);
            return out;
        }
        if line.len() > 3 && line[3] >= 48 && line[3] <= 57 {
            let ghost before = out@;
            let t = line_times(line);
            out.push(t);
            assert(before + (seq![t] + cores_from(rest.skip(1))) =~= out@ + cores_from(rest.skip(1)));
        }
        k = k + 1;
    }
    assert(views(ls@).skip(ls.len() as int) =~= Seq::<Seq<u8>>::empty());
    assert(out@ + Seq::<Option<CpuTimes>>::empty() =~= out@);
    out
}

fn cores_busy(prev: &Vec<Option<CpuTimes>>, cur: &Vec<Option<CpuTimes>>) -> (r: Vec<Option<u16>>)
    ensures
        r@ == core_busy(prev@, cur@),
{
    let mut out: Vec<Option<u16>> = Vec::new();
    let mut i: usize = 0;
    while i < cur.len()
        invariant
            i <= cur.len(),
            out@ == core_busy(prev@, cur@).take(i as int),
        decreases cur.len() - i,
    {
        let b = if i < prev.len() {
            match (prev[i], cur[i]) {
                (Some(p), Some(c)) => busy_percent(p, c),
                _ => None,
            }
        } else {
            None
        };
        out.push(b);
        i = i + 1;
        assert(out@ =~= core_busy(prev@, cur@).take(i as int));
    }
    assert(core_busy(prev@, cur@).take(cur.len() as int) =~= core_busy(prev@, cur@));
    out
}

/// Utilisation is a percentage, and it is missing exactly when no time
/// elapsed between the samples.
pub proof fn law_busy_bounded(prev: CpuTimes, cur: CpuTimes)
    ensures
        spec_busy(prev, cur) is None <==> cur.total <= prev.total,
        spec_busy(prev, cur) matches Some(p) ==> p <= 100,
{
    if cur.total > prev.total {
        crate::fmt::law_pct_bounded(
            sat_sub(sat_sub(cur.total, prev.total), sat_sub(cur.idle, prev.idle)),
            sat_sub(cur.total, prev.total),
        );
    }
}

/// Utilisation is the busy share of the elapsed time: with `dt` jiffies
/// elapsed and `di` of them idle (no more than elapsed), it is
/// `(dt - di) * 100 / dt` rounded down (where that product fits a `u64`),
/// never more than 100.
pub proof fn law_busy_is_share(prev: CpuTimes, cur: CpuTimes)
    requires
        cur.total > prev.total,
        cur.idle >= prev.idle,
        cur.idle - prev.idle <= cur.total - prev.total,
        (cur.total - prev.total - (cur.idle - prev.idle)) * 100 <= u64::MAX,
    ensures
        ({
            let dt = cur.total - prev.total;
            let di = cur.idle - prev.idle;
            &&& spec_busy(prev, cur) == Some((((dt - di) * 100) / dt) as u16)
            &&& ((dt - di) * 100) / dt <= 100
        }),
{
    let dt = cur.total - prev.total;
    let di = cur.idle - prev.idle;
    assert(((dt - di) * 100) / dt <= 100) by (nonlinear_arith)
        requires
            dt > 0,
            0 <= di <= dt,
    {
        assert((dt - di) * 100 <= dt * 100);
        vstd::arithmetic::div_mod::lemma_div_is_ordered((dt - di) * 100, dt * 100, dt);
        vstd::arithmetic::div_mod::lemma_div_multiples_vanish(100, dt);
    }
}

/// Utilisation depends only on the proportion of idle time: two pairs of
/// samples whose elapsed and idle deltas are the same multiple `k` of each
/// other give the same utilisation.
pub proof fn law_busy_scale_free(p1: CpuTimes, c1: CpuTimes, p2: CpuTimes, c2: CpuTimes, k: nat)
    requires
        c1.total > p1.total,
        c1.idle >= p1.idle,
        c1.idle - p1.idle <= c1.total - p1.total,
        k > 0,
        c2.total >= p2.total,
        c2.idle >= p2.idle,
        c2.total - p2.total == k * (c1.total - p1.total),
        c2.idle - p2.idle == k * (c1.idle - p1.idle),
        (c2.total - p2.total - (c2.idle - p2.idle)) * 100 <= u64::MAX,
    ensures
        spec_busy(p1, c1) == spec_busy(p2, c2),
{
    let dt = c1.total - p1.total;
    let di = c1.idle - p1.idle;
    assert(k * dt >= dt) by (nonlinear_arith)
        requires
            k > 0,
            dt > 0,
    ;
    assert((k * dt - k * di) * 100 == k * ((dt - di) * 100)) by (nonlinear_arith);
    assert((dt - di) * 100 <= (k * dt - k * di) * 100) by (nonlinear_arith)
        requires
            k > 0,
            di <= dt,
    ;
    assert(k * di <= k * dt) by (nonlinear_arith)
        requires
            di <= dt,
    ;
    law_busy_is_share(p1, c1);
    law_busy_is_share(p2, c2);
    vstd::arithmetic::div_mod::lemma_div_multiples_vanish_quotient(k as int, (dt - di) * 100, dt as int);
}

} // verus!
