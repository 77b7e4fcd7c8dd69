//! Identity of the machine: OS name, board model, uptime.
use vstd::prelude::*;
use vstd::utf8::*;
use crate::probe::{
    fields, find, first_break, has_prefix, lemma_find_some, lemma_pieces_len, line_end, line_text,
    lines, parse_u64, position, spec_fields, spec_lines, spec_parse_u64, starts_with, views,
};
use crate::text::{lossy_utf8, trim, trim_by, trimmed, utf8, utf8_lossy};

verus! {

/// What the header shows of the machine.
pub struct Host {
    pub nodename: String,
    pub os: String,
    pub kernel: String,
    pub arch: String,
    pub model: String,
    pub cores: usize,
    pub mhz_min: Option<u64>,
    pub mhz_max: Option<u64>,
}

/// The bytes `PRETTY_NAME=`.
pub open spec fn label_pretty() -> Seq<u8> {
    seq![80u8, 82u8, 69u8, 84u8, 84u8, 89u8, 95u8, 78u8, 65u8, 77u8, 69u8, 61u8]
}

/// The value of the first `PRETTY_NAME=` line, trimmed and unquoted; `None`
/// without one or when it is not UTF-8.
pub open spec fn pretty_from(ls: Seq<Seq<u8>>) -> Option<Seq<char>>
    decreases ls.len(),
{
    if ls.len() == 0 {
        None
    } else if starts_with(ls[0], label_pretty()) {
        let rest = ls[0].skip(12);
        if !valid_utf8(rest) {
            None
        } else {
            Some(trimmed(trimmed(decode_utf8(rest), None), Some('"')))
        }
    } else {
        pretty_from(ls.skip(1))
    }
}

/// The operating system's display name from `/etc/os-release`, with
/// surrounding whitespace and quotes removed.
pub fn parse_pretty_name(data: &[u8]) -> (r: Option<String>)
    ensures
        match r {
            Some(s) => pretty_from(spec_lines(data@)) == Some(s@),
            None => pretty_from(spec_lines(data@)) is None,
        },
{
    let label: [u8; 12] = [80u8, 82u8, 69u8, 84u8, 84u8, 89u8, 95u8, 78u8, 65u8, 77u8, 69u8, 61u8];
    assert(label@ =~= label_pretty());
    let ls = lines(data);
    let mut k: usize = 0;
    assert(views(ls@).skip(0) =~= views(ls@));
    while k < ls.len()
        invariant
            k <= ls.len(),
            label@ == label_pretty(),
            views(ls@) == spec_lines(data@),
            pretty_from(views(ls@).skip(k as int)) == pretty_from(spec_lines(data@)),
        decreases ls.len() - k,
    {
        let ghost rest = views(ls@).skip(k as int);
        assert(rest[0] == ls@[k as int]@);
        assert(rest.skip(1) =~= views(ls@).skip(k + 1));
        let line = ls[k];
        if has_prefix(line, vstd::array::array_as_slice(&label)) {
            let v = &line[12..line.len()];
            assert(v@ =~= line@.skip(12));
            let s = match utf8(v) {
                Some(s) => s,
                None => return None,
            };
            let t = trim_by(trim(s), Some('"'));
            return Some(t.to_owned());
        }
        k = k + 1;
    }
    None
}

/// The board model from the device tree: the text before the terminating
/// NUL (or a line feed), invalid UTF-8 replaced, whitespace trimmed.
pub fn parse_dt_model(raw: &[u8]) -> (r: String)
    ensures
        r@ == trimmed(lossy_utf8(raw@.take(first_break(raw@) as int)), None),
        valid_utf8(raw@.take(first_break(raw@) as int)) ==> r@ == trimmed(
            decode_utf8(raw@.take(first_break(raw@) as int)),
            None,
        ),
{
    let end = line_end(raw);
    let head = &raw[0..end];
    assert(head@ =~= raw@.take(end as int));
    let s = utf8_lossy(head);
    trim(s.as_str()).to_owned()
}

/// Whole seconds since boot: the integer part of the first field of
/// `/proc/uptime`.
pub open spec fn spec_parse_uptime(data: Seq<u8>) -> Option<u64> {
    let fs = spec_fields(spec_lines(data)[0]);
    if fs.len() == 0 {
        None
    } else {
        let first = fs[0];
        let dot = match find(first, 46) {
            Some(d) => d as int,
            None => first.len() as int,
        };
        spec_parse_u64(first.take(dot))
    }
}

/// Whole seconds of uptime, without floating point.
pub fn parse_uptime(data: &[u8]) -> (r: Option<u64>)
    ensures
        r == spec_parse_uptime(data@),
{
    let ls = lines(data);
    proof {
        lemma_pieces_len(data@, false);
    }
    let fs = fields(ls[0]);
    if fs.len() == 0 {
        return None;
    }
    let first = fs[0];
    let dot = match position(first, 46) {
        Some(d) => d,
        None => first.len(),
    };
    proof {
        lemma_find_some(first@, 46);
    }
    let head = &first[0..dot];
    assert(head@ =~= first@.take(dot as int));
    parse_u64(head)
}

/// Index of the first NUL in `s`, or its length.
pub open spec fn first_nul(s: Seq<u8>) -> nat {
    match find(s, 0) {
        Some(k) => k,
        None => s.len(),
    }
}

/// A fixed-size C string field (such as a `utsname` member) as text: the
/// bytes before the first NUL, invalid UTF-8 replaced.
pub fn c_text(bytes: &[u8]) -> (r: String)
    ensures
        r@ == lossy_utf8(bytes@.take(first_nul(bytes@) as int)),
        valid_utf8(bytes@.take(first_nul(bytes@) as int)) ==> r@ == decode_utf8(
            bytes@.take(first_nul(bytes@) as int),
        ),
{
    let end = match position(bytes, 0) {
        Some(e) => e,
        None => bytes.len(),
    };
    proof {
        lemma_find_some(bytes@, 0);
    }
    let head = &bytes[0..end];
    assert(head@ =~= bytes@.take(end as int));
    utf8_lossy(head)
}

/// A C string field as text: the bytes before the first NUL, decoded with
/// invalid UTF-8 replaced.
pub open spec fn c_str(bytes: Seq<u8>) -> Seq<char> {
    lossy_utf8(bytes.take(first_nul(bytes) as int))
}

/// Where `bytes` are valid UTF-8, `text` is their plain decoding.
pub open spec fn decodes_to(bytes: Seq<u8>, text: Seq<char>) -> bool {
    valid_utf8(bytes) ==> text == decode_utf8(bytes)
}

/// The number in a cpufreq file, in kHz, as MHz.
pub open spec fn mhz_of(data: Option<&[u8]>) -> Option<u64> {
    match data {
        Some(d) => match spec_parse_u64(d@) {
            Some(k) => Some((k / 1000) as u64),
            None => None,
        },
        None => None,
    }
}

fn mhz_from(data: Option<&[u8]>) -> (r: Option<u64>)
    ensures
        r == mhz_of(data),
{
    match data {
        Some(d) => match parse_u64(d) {
            Some(k) => Some(k / 1000),
            None => None,
        },
        None => None,
    }
}

impl Host {
    /// The machine's identity from what was read at start: the `uname`
    /// fields node name, release and machine (`None` when `uname` failed),
    /// `/proc/sys/kernel/hostname` for the node name when `uname` failed,
    /// `/etc/os-release`, `/proc/device-tree/model`, the count of online CPUs
    /// from `sysconf`, and the cpufreq limits in kHz (each `None` when it
    /// could not be read). What is missing shows as `unknown` (node name, OS),
    /// empty (release, machine, model), or one core.
    pub fn from_readings(
        uts: Option<(&[u8], &[u8], &[u8])>,
        hostname: Option<&[u8]>,
        os_release: Option<&[u8]>,
        dt_model: Option<&[u8]>,
        online_cpus: i64,
        khz_min: Option<&[u8]>,
        khz_max: Option<&[u8]>,
    ) -> (r: Host)
        ensures
            r.nodename@ == match uts {
                Some((n, _, _)) => c_str(n@),
                None => match hostname {
                    Some(h) => lossy_utf8(h@.take(first_break(h@) as int)),
                    None => "unknown"@,
                },
            },
            r.kernel@ == match uts {
                Some((_, k, _)) => c_str(k@),
                None => Seq::<char>::empty(),
            },
            r.arch@ == match uts {
                Some((_, _, m)) => c_str(m@),
                None => Seq::<char>::empty(),
            },
            r.os@ == match os_release {
                Some(d) => match pretty_from(spec_lines(d@)) {
                    Some(s) => s,
                    None => "unknown"@,
                },
                None => "unknown"@,
            },
            r.model@ == match dt_model {
                Some(d) => trimmed(lossy_utf8(d@.take(first_break(d@) as int)), None),
                None => Seq::<char>::empty(),
            },
            r.cores == (if online_cpus > 0 {
                online_cpus as usize
            } else {
                1
            }),
            r.mhz_min == mhz_of(khz_min),
            r.mhz_max == mhz_of(khz_max),
            match uts {
                Some((n, k, m)) => {
                    &&& decodes_to(n@.take(first_nul(n@) as int), r.nodename@)
                    &&& decodes_to(k@.take(first_nul(k@) as int), r.kernel@)
                    &&& decodes_to(m@.take(first_nul(m@) as int), r.arch@)
                },
                None => hostname matches Some(h) ==> decodes_to(
                    h@.take(first_break(h@) as int),
                    r.nodename@,
                ),
            },
            dt_model matches Some(d) ==> (valid_utf8(d@.take(first_break(d@) as int))
                ==> r.model@ == trimmed(decode_utf8(d@.take(first_break(d@) as int)), None)),
    {
        proof {
            reveal_strlit("unknown");
        }
        let (nodename, kernel, arch) = match uts {
            Some((n, k, m)) => (c_text(n), c_text(k), c_text(m)),
            None => {
                let n = match hostname {
                    Some(h) => line_text(h),
                    None => "unknown".to_owned(),
                };
                (n, String::new(), String::new())
            },
        };
        let os = match os_release {
            Some(d) => match parse_pretty_name(d) {
                Some(s) => s,
                None => "unknown".to_owned(),
            },
            None => "unknown".to_owned(),
        };
        let model = match dt_model {
            Some(d) => parse_dt_model(d),
            None => String::new(),
        };
        let cores: usize = if online_cpus > 0 {
            online_cpus as usize
        } else {
            1
        };
        Host {
            nodename,
            os,
            kernel,
            arch,
            model,
            cores,
            mhz_min: mhz_from(khz_min),
            mhz_max: mhz_from(khz_max),
        }
    }
}

/// Seconds since boot, refreshed once per tick.
pub struct Uptime {
    pub secs: Option<u64>,
}

impl Uptime {
    pub fn new() -> (r: Uptime)
        ensures
            r.secs is None,
    {
        Uptime { secs: None }
    }

    /// One refresh with the content just read from `/proc/uptime`; a failed
    /// read (`None`) keeps the last value.
    pub fn tick(&mut self, data: Option<&[u8]>)
        ensures
            final(self).secs == match data {
                Some(d) => spec_parse_uptime(d@),
                None => old(self).secs,
            },
    {
        if let Some(d) = data {
            self.secs = parse_uptime(d);
        }
    }
}

} // verus!
