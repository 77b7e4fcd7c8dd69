//! The text the dashboard shows, independent of how it is drawn.
use vstd::prelude::*;
use crate::cpu::{sat_sub, Load};
use crate::fmt::{
    bytes, centi, dec, hms, milli, pct, push_decimal, rate, spec_bytes, spec_centi, spec_hms,
    spec_milli, spec_pct,
};
use crate::mem::{spec_disk_percent, Disk, MemInfo};
use crate::therm::{spec_fan_label, spec_percent_of_range, Fan, Therm};
use crate::text::{push_char, str_eq};

verus! {

/// `n` spaces.
pub open spec fn spaces(n: nat) -> Seq<char> {
    Seq::new(n, |i: int| ' ')
}

/// `s` padded with spaces on the right to `width` characters (`{:<width}`).
pub open spec fn padded_right(s: Seq<char>, width: nat) -> Seq<char> {
    if s.len() < width {
        s + spaces((width - s.len()) as nat)
    } else {
        s
    }
}

/// `s` padded with spaces on the left to `width` characters (`{:>width}`).
pub open spec fn padded_left(s: Seq<char>, width: nat) -> Seq<char> {
    if s.len() < width {
        spaces((width - s.len()) as nat) + s
    } else {
        s
    }
}

/// The characters `--`, shown for a missing value.
pub open spec fn dashes() -> Seq<char> {
    seq!['-', '-']
}

fn push_str(s: &mut String, t: &str)
    ensures
        final(s)@ == old(s)@ + t@,
{
    s.append(t);
}

fn push_spaces(s: &mut String, n: usize)
    ensures
        final(s)@ == old(s)@ + spaces(n as nat),
{
    let mut i: usize = 0;
    let ghost start = s@;
    while i < n
        invariant
            i <= n,
            s@ == start + spaces(i as nat),
        decreases n - i,
    {
        push_char(s, ' ');
        i = i + 1;
        assert(s@ =~= start + spaces(i as nat));
    }
}

/// `s` padded with spaces on the right to `width` characters.
pub fn pad_right(s: &str, width: usize) -> (r: String)
    ensures
        r@ == padded_right(s@, width as nat),
{
    let n = s.unicode_len();
    let mut r = s.to_owned();
    if n < width {
        push_spaces(&mut r, width - n);
    }
    r
}

/// `s` padded with spaces on the left to `width` characters.
pub fn pad_left(s: &str, width: usize) -> (r: String)
    ensures
        r@ == padded_left(s@, width as nat),
{
    let n = s.unicode_len();
    let mut r = String::new();
    if n < width {
        push_spaces(&mut r, width - n);
    }
    push_str(&mut r, s);
    r
}

/// A byte count, or `--` when it is unknown.
pub fn bytes_or_dash(v: Option<u64>) -> (r: String)
    ensures
        r@ == match v {
            Some(n) => spec_bytes(n),
            None => dashes(),
        },
{
    match v {
        Some(n) => bytes(n),
        None => {
            let mut s = String::new();
            push_char(&mut s, '-');
            push_char(&mut s, '-');
            s
        },
    }
}

/// A byte rate, or `--` when it is unknown.
pub fn rate_or_dash(v: Option<u64>) -> (r: String)
    ensures
        r@ == match v {
            Some(n) => spec_bytes(n) + seq!['/', 's'],
            None => dashes(),
        },
{
    match v {
        Some(n) => rate(n),
        None => bytes_or_dash(None),
    }
}

/// The CPU line of the capacity box: `4 x 600-1800 MHz`, or `4 cores`
/// without the frequency limits.
pub fn freq_text(cores: usize, mhz_min: Option<u64>, mhz_max: Option<u64>) -> (r: String)
    ensures
        r@ == match (mhz_min, mhz_max) {
            (Some(a), Some(b)) => dec(cores as nat) + seq![' ', 'x', ' '] + dec(a as nat) + seq!['-']
                + dec(b as nat) + seq![' ', 'M', 'H', 'z'],
            _ => dec(cores as nat) + seq![' ', 'c', 'o', 'r', 'e', 's'],
        },
{
    let mut s = String::new();
    push_decimal(&mut s, cores as u64);
    match (mhz_min, mhz_max) {
        (Some(a), Some(b)) => {
            push_char(&mut s, ' ');
            push_char(&mut s, 'x');
            push_char(&mut s, ' ');
            push_decimal(&mut s, a);
            push_char(&mut s, '-');
            push_decimal(&mut s, b);
            push_char(&mut s, ' ');
            push_char(&mut s, 'M');
            push_char(&mut s, 'H');
            push_char(&mut s, 'z');
        },
        _ => {
            push_char(&mut s, ' ');
            push_char(&mut s, 'c');
            push_char(&mut s, 'o');
            push_char(&mut s, 'r');
            push_char(&mut s, 'e');
            push_char(&mut s, 's');
        },
    }
    s
}

/// The tasks line: `3 runnable / 233`, or `--`.
pub fn tasks_text(load: Option<Load>) -> (r: String)
    ensures
        r@ == match load {
            Some(l) => dec(l.runnable as nat) + " runnable / "@ + dec(l.threads as nat),
            None => dashes(),
        },
{
    match load {
        Some(l) => {
            let mut s = String::new();
            push_decimal(&mut s, l.runnable);
            push_str(&mut s, " runnable / ");
            push_decimal(&mut s, l.threads);
            s
        },
        None => bytes_or_dash(None),
    }
}

/// The uptime line: `2h 25m`, or `--`.
pub fn uptime_text(secs: Option<u64>) -> (r: String)
    ensures
        r@ == match secs {
            Some(t) => spec_hms(t),
            None => dashes(),
        },
{
    match secs {
        Some(t) => hms(t),
        None => bytes_or_dash(None),
    }
}

/// The load averages after the CPU meter: `load 0.49 0.31 0.28`, or nothing.
pub open spec fn spec_load_text(load: Option<Load>) -> Seq<char> {
    match load {
        Some(l) => "load "@ + spec_centi(l.one) + seq![' '] + spec_centi(l.five) + seq![' ']
            + spec_centi(l.fifteen),
        None => Seq::<char>::empty(),
    }
}

/// The load averages after the CPU meter: `load 0.49 0.31 0.28`, or nothing.
pub fn load_text(load: Option<Load>) -> (r: String)
    ensures
        r@ == spec_load_text(load),
{
    let mut s = String::new();
    if let Some(l) = load {
        push_str(&mut s, "load ");
        let a = centi(l.one);
        push_str(&mut s, a.as_str());
        push_char(&mut s, ' ');
        let b = centi(l.five);
        push_str(&mut s, b.as_str());
        push_char(&mut s, ' ');
        let c = centi(l.fifteen);
        push_str(&mut s, c.as_str());
    }
    s
}

/// The clock before the load: `1800 MHz` and two spaces, or nothing.
pub open spec fn spec_mhz_text(mhz: Option<u64>) -> Seq<char> {
    match mhz {
        Some(m) => dec(m as nat) + seq![' ', 'M', 'H', 'z', ' ', ' '],
        None => Seq::<char>::empty(),
    }
}

/// The clock before the load: `1800 MHz` and two spaces, or nothing.
pub fn mhz_text(mhz: Option<u64>) -> (r: String)
    ensures
        r@ == spec_mhz_text(mhz),
{
    let mut s = String::new();
    if let Some(m) = mhz {
        push_decimal(&mut s, m);
        push_char(&mut s, ' ');
        push_char(&mut s, 'M');
        push_char(&mut s, 'H');
        push_char(&mut s, 'z');
        push_char(&mut s, ' ');
        push_char(&mut s, ' ');
    }
    s
}

/// The temperature after its meter, with the fan's state:
/// `53.1 C  fan OFF`, or `sensor unavailable`.
pub open spec fn spec_temp_text(milli_c: Option<i64>, fan_on: Option<bool>) -> Seq<char> {
    match milli_c {
        Some(t) => spec_milli(t) + seq![' ', 'C', ' ', ' '] + spec_fan_label(fan_on),
        None => "sensor unavailable"@,
    }
}

/// The temperature after its meter, with the fan's state:
/// `53.1 C  fan OFF`, or `sensor unavailable`.
pub fn temp_text(milli_c: Option<i64>, fan: &Fan) -> (r: String)
    ensures
        r@ == spec_temp_text(milli_c, fan.on),
{
    match milli_c {
        Some(t) => {
            let mut s = milli(t);
            push_char(&mut s, ' ');
            push_char(&mut s, 'C');
            push_char(&mut s, ' ');
            push_char(&mut s, ' ');
            push_str(&mut s, fan.label());
            s
        },
        None => String::from_str("sensor unavailable"),
    }
}

/// Memory in use over total, then the cache: `525.0 MiB / 3.6 GiB  cache 3.0 GiB`.
pub open spec fn spec_ram_text(m: MemInfo) -> Seq<char> {
    spec_bytes(sat_sub(m.total, m.available)) + " / "@ + spec_bytes(m.total) + "  cache "@
        + spec_bytes(m.buffcache)
}

/// Memory in use over total, then the cache: `525.0 MiB / 3.6 GiB  cache 3.0 GiB`.
pub fn ram_text(m: MemInfo) -> (r: String)
    ensures
        r@ == spec_ram_text(m),
{
    let mut s = bytes(m.used());
    push_str(&mut s, " / ");
    let t = bytes(m.total);
    push_str(&mut s, t.as_str());
    push_str(&mut s, "  cache ");
    let c = bytes(m.buffcache);
    push_str(&mut s, c.as_str());
    s
}

/// Swap in use over total: `512.0 KiB / 7.9 GiB`.
pub open spec fn spec_swap_text(m: MemInfo) -> Seq<char> {
    spec_bytes(sat_sub(m.swap_total, m.swap_free)) + " / "@ + spec_bytes(m.swap_total)
}

/// Swap in use over total: `512.0 KiB / 7.9 GiB`.
pub fn swap_text(m: MemInfo) -> (r: String)
    ensures
        r@ == spec_swap_text(m),
{
    let mut s = bytes(m.swap_used());
    push_str(&mut s, " / ");
    let t = bytes(m.swap_total);
    push_str(&mut s, t.as_str());
    s
}

/// The swap meter's level; none without swap.
pub open spec fn spec_swap_percent(m: MemInfo) -> Option<u16> {
    if m.swap_total > 0 {
        Some(spec_pct(sat_sub(m.swap_total, m.swap_free), m.swap_total))
    } else {
        None
    }
}

/// The swap meter's level; none without swap.
pub fn swap_percent(m: MemInfo) -> (r: Option<u16>)
    ensures
        r == spec_swap_percent(m),
{
    if m.swap_total > 0 {
        Some(pct(m.swap_used(), m.swap_total))
    } else {
        None
    }
}

/// Filesystem use over size, then free space: `20.4 GiB / 57.9 GiB  free 35.0 GiB`.
pub open spec fn spec_disk_text(d: Disk) -> Seq<char> {
    spec_bytes(d.used) + " / "@ + spec_bytes(d.total) + "  free "@ + spec_bytes(d.avail)
}

/// Filesystem use over size, then free space: `20.4 GiB / 57.9 GiB  free 35.0 GiB`.
pub fn disk_text(d: Disk) -> (r: String)
    ensures
        r@ == spec_disk_text(d),
{
    let mut s = bytes(d.used);
    push_str(&mut s, " / ");
    let t = bytes(d.total);
    push_str(&mut s, t.as_str());
    push_str(&mut s, "  free ");
    let a = bytes(d.avail);
    push_str(&mut s, a.as_str());
    s
}

/// Whether an interface's operational state is `up`, which the dashboard
/// shows in green.
pub fn link_is_up(state: &str) -> (r: bool)
    ensures
        r == (state@ == "up"@),
{
    str_eq(state, "up")
}

/// Link speed: `100 Mb`, or `--`.
pub fn link_text(speed: Option<u64>) -> (r: String)
    ensures
        r@ == match speed {
            Some(v) => dec(v as nat) + seq![' ', 'M', 'b'],
            None => dashes(),
        },
{
    match speed {
        Some(v) => {
            let mut s = String::new();
            push_decimal(&mut s, v);
            push_char(&mut s, ' ');
            push_char(&mut s, 'M');
            push_char(&mut s, 'b');
            s
        },
        None => bytes_or_dash(None),
    }
}

/// A meter's figure: the percentage right-aligned in three columns, a
/// percent sign and two spaces (` 42%  `).
pub fn percent_text(p: u16) -> (r: String)
    ensures
        r@ == padded_left(dec(p as nat), 3) + seq!['%', ' ', ' '],
{
    let mut d = String::new();
    push_decimal(&mut d, p as u64);
    let mut s = pad_left(d.as_str(), 3);
    push_char(&mut s, '%');
    push_char(&mut s, ' ');
    push_char(&mut s, ' ');
    s
}

/// One meter of the dashboard: its label, its level (none draws an empty bar
/// and `--`), and the text after it.
pub struct MeterRow {
    pub label: String,
    pub percent: Option<u16>,
    pub right: String,
}

/// How many CPU rows the meters start with: one per core when they fit and
/// a core was read, else one aggregate row.
pub open spec fn cpu_rows(cores: nat, per_core: bool) -> nat {
    if per_core && cores > 0 {
        cores
    } else {
        1
    }
}

/// The row of core `i`: `cpu_i`, its level, no text after it.
pub open spec fn is_core_row(row: MeterRow, i: nat, level: Option<u16>) -> bool {
    &&& row.label@ == "cpu_"@ + dec(i)
    &&& row.percent == level
    &&& row.right@ == Seq::<char>::empty()
}

fn core_rows(cores: &Vec<Option<u16>>) -> (r: Vec<MeterRow>)
    ensures
        r.len() == cores.len(),
        forall|i: int| 0 <= i < cores.len() ==> is_core_row(#[trigger] r[i], i as nat, cores[i]),
{
    let mut rows: Vec<MeterRow> = Vec::new();
    let mut i: usize = 0;
    while i < cores.len()
        invariant
            i <= cores.len(),
            rows.len() == i,
            forall|k: int| 0 <= k < i ==> is_core_row(#[trigger] rows[k], k as nat, cores[k]),
        decreases cores.len() - i,
    {
        let mut label = String::from_str("cpu_");
        proof {
            reveal_strlit("cpu_");
        }
        push_decimal(&mut label, i as u64);
        rows.push(MeterRow { label, percent: cores[i], right: String::new() });
        i = i + 1;
    }
    rows
}

/// The meters, top to bottom: the CPU rows (one per core when `per_core`
/// and a core was read, labelled `cpu_0`, `cpu_1`, ..., else one `cpu` row
/// with the clock and load after it), then the temperature with the fan's
/// state (a level between `COLD` and `HOT` only with a reading), memory and
/// swap, and the root filesystem; memory, swap and filesystem read
/// `unavailable` without their values.
pub fn meter_rows(
    cpu_percent: Option<u16>,
    mhz: Option<u64>,
    load: Option<Load>,
    cores: &Vec<Option<u16>>,
    per_core: bool,
    therm: &Therm,
    fan: &Fan,
    mem: Option<MemInfo>,
    disk: Option<Disk>,
) -> (r: Vec<MeterRow>)
    ensures
        r.len() == cpu_rows(cores.len() as nat, per_core) + 4,
        per_core && cores.len() > 0 ==> forall|i: int|
            0 <= i < cores.len() ==> is_core_row(#[trigger] r[i], i as nat, cores[i]),
        !(per_core && cores.len() > 0) ==> {
            &&& r[0].label@ == "cpu"@
            &&& r[0].percent == cpu_percent
            &&& r[0].right@ == spec_mhz_text(mhz) + spec_load_text(load)
        },
        ({
            let n = cpu_rows(cores.len() as nat, per_core) as int;
            &&& r[n].label@ == "temp"@
            &&& r[n].percent == (match therm.milli_c {
                Some(_) => Some(spec_percent_of_range(therm.milli_c)),
                None => None,
            })
            &&& r[n].right@ == spec_temp_text(therm.milli_c, fan.on)
            &&& r[n + 1].label@ == "ram"@
            &&& r[n + 1].percent == (match mem {
                Some(m) => Some(spec_pct(sat_sub(m.total, m.available), m.total)),
                None => None,
            })
            &&& r[n + 1].right@ == (match mem {
                Some(m) => spec_ram_text(m),
                None => "unavailable"@,
            })
            &&& r[n + 2].label@ == "swap"@
            &&& r[n + 2].percent == (match mem {
                Some(m) => spec_swap_percent(m),
                None => None,
            })
            &&& r[n + 2].right@ == (match mem {
                Some(m) => spec_swap_text(m),
                None => "unavailable"@,
            })
            &&& r[n + 3].label@ == "disk"@
            &&& r[n + 3].percent == (match disk {
                Some(d) => Some(spec_disk_percent(d)),
                None => None,
            })
            &&& r[n + 3].right@ == (match disk {
                Some(d) => spec_disk_text(d),
                None => "unavailable"@,
            })
        }),
{
    let temp_pct = match therm.milli_c {
        Some(_) => Some(therm.percent_of_range()),
        None => None,
    };
    let (ram_pct, ram_right, swap_pct, swap_right) = match mem {
        Some(m) => (Some(pct(m.used(), m.total)), ram_text(m), swap_percent(m), swap_text(m)),
        None => (None, String::from_str("unavailable"), None, String::from_str("unavailable")),
    };
    let (disk_pct, disk_right) = match disk {
        Some(d) => (Some(d.percent()), disk_text(d)),
        None => (None, String::from_str("unavailable")),
    };
    let mut rows: Vec<MeterRow> = if per_core && cores.len() > 0 {
        core_rows(cores)
    } else {
        let mut cpu_right = mhz_text(mhz);
        let l = load_text(load);
        push_str(&mut cpu_right, l.as_str());
        let mut one: Vec<MeterRow> = Vec::new();
        one.push(MeterRow { label: String::from_str("cpu"), percent: cpu_percent, right: cpu_right });
        one
    };
    let ghost first = rows@;
    let n = rows.len();
    assert(n == cpu_rows(cores.len() as nat, per_core));
    rows.push(MeterRow { label: String::from_str("temp"), percent: temp_pct, right: temp_text(therm.milli_c, fan) });
    rows.push(MeterRow { label: String::from_str("ram"), percent: ram_pct, right: ram_right });
    rows.push(MeterRow { label: String::from_str("swap"), percent: swap_pct, right: swap_right });
    rows.push(MeterRow { label: String::from_str("disk"), percent: disk_pct, right: disk_right });
    assert forall|i: int| 0 <= i < n implies rows@[i] == first[i] by {}
    rows
}

/// The filesystem text shows the used space first, then ` / `, the size,
/// `  free ` and the available space last: whatever the values, the used
/// and available amounts are never shown in each other's place.
pub proof fn law_disk_text_fields(d: Disk)
    ensures
        ({
            let t = spec_disk_text(d);
            let u = spec_bytes(d.used);
            let o = spec_bytes(d.total);
            let a = spec_bytes(d.avail);
            let (n, q, k, l) = (u.len() as int, o.len() as int, a.len() as int, t.len() as int);
            &&& l == n + 3 + q + 7 + k
            &&& t.take(n) == u
            &&& t.subrange(n, n + 3) == " / "@
            &&& t.subrange(n + 3, n + 3 + q) == o
            &&& t.subrange(l - k - 7, l - k) == "  free "@
            &&& t.skip(l - k) == a
        }),
{
    reveal_strlit(" / ");
    reveal_strlit("  free ");
    let t = spec_disk_text(d);
    let u = spec_bytes(d.used);
    let o = spec_bytes(d.total);
    let a = spec_bytes(d.avail);
    let (n, q, k, l) = (u.len() as int, o.len() as int, a.len() as int, t.len() as int);
    assert(t.take(n) =~= u);
    assert(t.subrange(n, n + 3) =~= " / "@);
    assert(t.subrange(n + 3, n + 3 + q) =~= o);
    assert(t.subrange(l - k - 7, l - k) =~= "  free "@);
    assert(t.skip(l - k) =~= a);
}

/// The memory text shows the memory in use (total less available) first,
/// then ` / ` and the total, then `  cache ` and the cache last.
pub proof fn law_ram_text_fields(m: MemInfo)
    ensures
        ({
            let t = spec_ram_text(m);
            let u = spec_bytes(sat_sub(m.total, m.available));
            let o = spec_bytes(m.total);
            let c = spec_bytes(m.buffcache);
            let (n, q, k, l) = (u.len() as int, o.len() as int, c.len() as int, t.len() as int);
            &&& l == n + 3 + q + 8 + k
            &&& t.take(n) == u
            &&& t.subrange(n, n + 3) == " / "@
            &&& t.subrange(n + 3, n + 3 + q) == o
            &&& t.subrange(l - k - 8, l - k) == "  cache "@
            &&& t.skip(l - k) == c
        }),
{
    reveal_strlit(" / ");
    reveal_strlit("  cache ");
    let t = spec_ram_text(m);
    let u = spec_bytes(sat_sub(m.total, m.available));
    let o = spec_bytes(m.total);
    let c = spec_bytes(m.buffcache);
    let (n, q, k, l) = (u.len() as int, o.len() as int, c.len() as int, t.len() as int);
    assert(t.take(n) =~= u);
    assert(t.subrange(n, n + 3) =~= " / "@);
    assert(t.subrange(n + 3, n + 3 + q) =~= o);
    assert(t.subrange(l - k - 8, l - k) =~= "  cache "@);
    assert(t.skip(l - k) =~= c);
}

/// The swap text shows the swap in use (total less free) first, then ` / `
/// and the total last.
pub proof fn law_swap_text_fields(m: MemInfo)
    ensures
        ({
            let t = spec_swap_text(m);
            let u = spec_bytes(sat_sub(m.swap_total, m.swap_free));
            let o = spec_bytes(m.swap_total);
            let (n, q, l) = (u.len() as int, o.len() as int, t.len() as int);
            &&& l == n + 3 + q
            &&& t.take(n) == u
            &&& t.subrange(n, n + 3) == " / "@
            &&& t.skip(n + 3) == o
        }),
{
    reveal_strlit(" / ");
    let t = spec_swap_text(m);
    let u = spec_bytes(sat_sub(m.swap_total, m.swap_free));
    let o = spec_bytes(m.swap_total);
    let n = u.len() as int;
    assert(t.take(n) =~= u);
    assert(t.subrange(n, n + 3) =~= " / "@);
    assert(t.skip(n + 3) =~= o);
}

} // verus!
