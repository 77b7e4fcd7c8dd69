//! Interface counters from `/proc/net/dev` and per-interface rates.
use vstd::prelude::*;
use crate::cadence::{cadence_next, law_run_due_every};
use vstd::utf8::*;
use crate::fmt::{mul_sat, sat_mul};
use crate::probe::{
    fields, find, lemma_find_some, lines, parse_i64, parse_u64, position, spec_fields,
    spec_lines, spec_parse_i64, spec_parse_u64, views, negation_overflows,
};
use crate::text::{str_eq, str_starts_with, trim, trimmed, utf8};

verus! {

/// Byte, error and drop counters of one interface.
#[derive(Clone, Copy, PartialEq, Eq, Debug, Structural)]
pub struct Counters {
    pub rx: u64,
    pub tx: u64,
    /// Receive and transmit errors together.
    pub errs: u64,
    /// Receive and transmit drops together.
    pub drops: u64,
}

impl Default for Counters {
    fn default() -> (r: Counters)
        ensures
            r == (Counters { rx: 0, tx: 0, errs: 0, drops: 0 }),
    {
        Counters { rx: 0, tx: 0, errs: 0, drops: 0 }
    }
}

/// The lines after the two header lines.
pub open spec fn after_header(ls: Seq<Seq<u8>>) -> Seq<Seq<u8>> {
    if ls.len() <= 2 {
        Seq::empty()
    } else {
        ls.skip(2)
    }
}

/// The twelve leading counters after the colon all parse.
pub open spec fn dev_values_ok(fs: Seq<Seq<u8>>) -> bool {
    fs.len() >= 12 && forall|k: int| 0 <= k < 12 ==> (#[trigger] spec_parse_u64(fs[k])) is Some
}

/// Counter `k` of a matched line.
pub open spec fn dev_value(fs: Seq<Seq<u8>>, k: int) -> u64 {
    spec_parse_u64(fs[k]).unwrap()
}

/// What the scan of `/proc/net/dev` finds for interface `want`: `None` when a
/// line lacks a colon, when a name is not UTF-8 before the match, when no line
/// names the interface, or when its counters do not parse; otherwise the
/// fields after the colon of the matching line.
pub open spec fn net_dev_scan(ls: Seq<Seq<u8>>, want: Seq<char>) -> Option<Seq<Seq<u8>>>
    decreases ls.len(),
{
    if ls.len() == 0 {
        None
    } else {
        let l = ls[0];
        match find(l, 58) {
            None => None,
            Some(c) => {
                let nb = l.take(c as int);
                if !valid_utf8(nb) {
                    None
                } else if trimmed(decode_utf8(nb), None) != want {
                    net_dev_scan(ls.skip(1), want)
                } else {
                    let fs = spec_fields(l.skip(c + 1 as int));
                    if dev_values_ok(fs) {
                        Some(fs)
                    } else {
                        None
                    }
                }
            },
        }
    }
}

/// The error and drop sums of the matched line fit in a `u64`.
pub open spec fn spec_net_dev_fits(data: Seq<u8>, want: Seq<char>) -> bool {
    match net_dev_scan(after_header(spec_lines(data)), want) {
        None => true,
        Some(fs) => dev_value(fs, 2) + dev_value(fs, 10) <= u64::MAX && dev_value(fs, 3) + dev_value(
            fs,
            11,
        ) <= u64::MAX,
    }
}

pub open spec fn spec_parse_net_dev(data: Seq<u8>, want: Seq<char>) -> Option<Counters> {
    match net_dev_scan(after_header(spec_lines(data)), want) {
        None => None,
        Some(fs) => Some(
            Counters {
                rx: dev_value(fs, 0),
                tx: dev_value(fs, 8),
                errs: (dev_value(fs, 2) + dev_value(fs, 10)) as u64,
                drops: (dev_value(fs, 3) + dev_value(fs, 11)) as u64,
            },
        ),
    }
}

fn dev_values(fs: &Vec<&[u8]>) -> (r: Option<Vec<u64>>)
    ensures
        match r {
            Some(v) => dev_values_ok(views(fs@)) && v@.len() == 12 && forall|k: int|
                0 <= k < 12 ==> #[trigger] v@[k] == dev_value(views(fs@), k),
            None => !dev_values_ok(views(fs@)),
        },
{
    if fs.len() < 12 {
        return None;
    }
    let mut vals: Vec<u64> = Vec::new();
    let mut j: usize = 0;
    while j < 12
        invariant
            j <= 12,
            fs.len() >= 12,
            vals@.len() == j,
            forall|m: int| 0 <= m < j ==> spec_parse_u64(#[trigger] views(fs@)[m]) == Some(vals@[m]),
        decreases 12 - j,
    {
        assert(views(fs@)[j as int] == fs@[j as int]@);
        match parse_u64(fs[j]) {
            Some(v) => vals.push(v),
            None => {
                assert(!dev_values_ok(views(fs@)));
                return None;
            },
        }
        j = j + 1;
    }
    assert(dev_values_ok(views(fs@)));
    Some(vals)
}

/// The counters of the line for `want`, as the scan finds them.
fn dev_scan(data: &[u8], want: &str) -> (r: Option<Vec<u64>>)
    ensures
        match r {
            Some(v) => net_dev_scan(after_header(spec_lines(data@)), want@) matches Some(fs) && v@.len()
                == 12 && forall|k: int| 0 <= k < 12 ==> #[trigger] v@[k] == dev_value(fs, k),
            None => net_dev_scan(after_header(spec_lines(data@)), want@) is None,
        },
{
    let ls = lines(data);
    let ghost all = after_header(views(ls@));
    let mut k: usize = 2;
    if ls.len() <= 2 {
        return None;
    }
    assert(views(ls@).skip(2) =~= all);
    while k < ls.len()
        invariant
            2 <= k <= ls.len(),
            views(ls@) == spec_lines(data@),
            all == after_header(spec_lines(data@)),
            net_dev_scan(views(ls@).skip(k as int), want@) == net_dev_scan(all, want@),
        decreases ls.len() - k,
    {
        let ghost rest = views(ls@).skip(k as int);
        let line = ls[k];
        assert(rest[0] == line@);
        assert(rest.skip(1) =~= views(ls@).skip(k + 1));
        let colon = match position(line, 58) {
            Some(c) => c,
            None => return None,
        };
        proof {
            lemma_find_some(line@, 58);
        }
        assert(colon < line.len());
        let nb = &line[0..colon];
        assert(nb@ =~= line@.take(colon as int));
        let name = match utf8(nb) {
            Some(n) => trim(n),
            None => return None,
        };
        if !str_eq(name, want) {
            k = k + 1;
            continue;
        }
        let rest_bytes = &line[colon + 1..line.len()];
        assert(rest_bytes@ =~= line@.skip(colon + 1 as int));
        let fs = fields(rest_bytes);
        return dev_values(&fs);
    }
    assert(views(ls@).skip(ls.len() as int) =~= Seq::<Seq<u8>>::empty());
    None
}

/// The error and drop sums of `want`'s line fit in a `u64`, which
/// `parse_net_dev` needs.
pub fn net_dev_fits(data: &[u8], want: &str) -> (r: bool)
    ensures
        r == spec_net_dev_fits(data@, want@),
{
    match dev_scan(data, want) {
        None => true,
        Some(v) => v[2].checked_add(v[10]).is_some() && v[3].checked_add(v[11]).is_some(),
    }
}

/// Counters of interface `want` from `/proc/net/dev`: bytes received (first
/// column) and sent (ninth), errors and drops of both directions summed.
/// The two header lines are skipped; the name may abut its colon.
pub fn parse_net_dev(data: &[u8], want: &str) -> (r: Option<Counters>)
    requires
        spec_net_dev_fits(data@, want@),
    ensures
        r == spec_parse_net_dev(data@, want@),
{
    match dev_scan(data, want) {
        None => None,
        Some(v) => Some(
            Counters { rx: v[0], tx: v[8], errs: v[2] + v[10], drops: v[3] + v[11] },
        ),
    }
}

/// Loopback, docker, veth and bridge interfaces, which the dashboard skips.
pub open spec fn spec_is_virtual(name: Seq<char>) -> bool {
    name == "lo"@ || name.take(6) == "docker"@ && name.len() >= 6 || name.take(4) == "veth"@
        && name.len() >= 4 || name.take(3) == "br-"@ && name.len() >= 3 || name.take(5)
        == "virbr"@ && name.len() >= 5
}

/// Loopback, docker, veth, bridge (`br-`) and libvirt (`virbr`) interfaces.
pub fn is_virtual(name: &str) -> (r: bool)
    ensures
        r == spec_is_virtual(name@),
{
    proof {
        reveal_strlit("lo");
        reveal_strlit("docker");
        reveal_strlit("veth");
        reveal_strlit("br-");
        reveal_strlit("virbr");
    }
    str_eq(name, "lo") || str_starts_with(name, "docker") || str_starts_with(name, "veth")
        || str_starts_with(name, "br-") || str_starts_with(name, "virbr")
}

/// The link speed in Mb/s from the interface's `speed` file; the kernel
/// writes -1 when the link is down, which gives `None`.
pub fn speed_from(raw: &[u8]) -> (r: Option<u64>)
    requires
        !negation_overflows(raw@),
    ensures
        r == match spec_parse_i64(raw@) {
            Some(v) => if v > 0 {
                Some(v as u64)
            } else {
                None
            },
            None => None,
        },
{
    match parse_i64(raw) {
        Some(v) => if v > 0 {
            Some(v as u64)
        } else {
            None
        },
        None => None,
    }
}

/// What one refresh does to an interface: see `Iface::update`.
pub open spec fn updated(a: Iface, b: Iface, data: Seq<u8>, dt_ms: u64) -> bool {
    &&& b.name == a.name
    &&& b.speed == a.speed
    &&& b.state == a.state
    &&& match spec_parse_net_dev(data, a.name@) {
                None => {
                    &&& !b.present
                    &&& b.rx_rate is None
                    &&& b.tx_rate is None
                    &&& b.prev is None
                    &&& b.errs == a.errs
                    &&& b.drops == a.drops
                },
                Some(cur) => {
                    &&& b.present
                    &&& b.errs == cur.errs
                    &&& b.drops == cur.drops
                    &&& b.prev == Some(cur)
                    &&& match a.prev {
                        None => b.rx_rate == a.rx_rate && b.tx_rate
                            == a.tx_rate,
                        Some(p) => if cur.rx < p.rx || cur.tx < p.tx || dt_ms == 0 {
                            b.rx_rate is None && b.tx_rate is None
                        } else {
                            b.rx_rate == Some(byte_rate((cur.rx - p.rx) as u64, dt_ms))
                                && b.tx_rate == Some(
                                byte_rate((cur.tx - p.tx) as u64, dt_ms),
                            )
                        },
                    }
                },
            }
}

/// One network interface and its rates between refreshes.
pub struct Iface {
    pub name: String,
    pub speed: Option<u64>,
    pub state: String,
    pub rx_rate: Option<u64>,
    pub tx_rate: Option<u64>,
    pub errs: u64,
    pub drops: u64,
    pub present: bool,
    /// The counters of the previous refresh.
    pub prev: Option<Counters>,
}

/// Bytes per second over `dt_ms` milliseconds for a byte delta, clamped.
pub open spec fn byte_rate(delta: u64, dt_ms: u64) -> u64 {
    (sat_mul(delta as nat, 1000) / (dt_ms as nat)) as u64
}

impl Iface {
    /// A present interface with no sample yet, with the link speed and
    /// operational state read for it.
    pub fn new(name: String, speed: Option<u64>, state: String) -> (r: Iface)
        ensures
            r.name == name,
            r.speed == speed,
            r.state == state,
            r.rx_rate is None,
            r.tx_rate is None,
            r.errs == 0,
            r.drops == 0,
            r.present,
            r.prev is None,
    {
        Iface {
            name,
            speed,
            state,
            rx_rate: None,
            tx_rate: None,
            errs: 0,
            drops: 0,
            present: true,
            prev: None,
        }
    }

    /// One refresh from `/proc/net/dev` content, `dt_ms` milliseconds after
    /// the last. An interface missing from the file is marked absent and
    /// loses its rates and previous sample. Otherwise errors and drops are
    /// taken over, and the rates come from the byte deltas: none on the first
    /// sample, cleared when a counter went backwards (a reset) or no time
    /// elapsed.
    pub fn update(&mut self, data: &[u8], dt_ms: u64)
        requires
            spec_net_dev_fits(data@, old(self).name@),
        ensures
            updated(*old(self), *final(self), data@, dt_ms),
    {
        let cur = match parse_net_dev(data, self.name.as_str()) {
            Some(c) => c,
            None => {
                self.present = false;
                self.rx_rate = None;
                self.tx_rate = None;
                self.prev = None;
                return;
            },
        };
        self.present = true;
        self.errs = cur.errs;
        self.drops = cur.drops;
        if let Some(prev) = self.prev {
            if cur.rx < prev.rx || cur.tx < prev.tx || dt_ms == 0 {
                self.rx_rate = None;
                self.tx_rate = None;
            } else {
                self.rx_rate = Some(mul_sat(cur.rx - prev.rx, 1000) / dt_ms);
                self.tx_rate = Some(mul_sat(cur.tx - prev.tx, 1000) / dt_ms);
            }
        }
        self.prev = Some(cur);
    }
}

/// An interface slot's counters can be parsed from `data` without overflow.
pub open spec fn slot_fits(slot: Option<Iface>, data: Seq<u8>) -> bool {
    match slot {
        Some(i) => spec_net_dev_fits(data, i.name@),
        None => true,
    }
}

/// An interface slot after a refresh: an empty slot stays empty, an
/// interface is updated.
pub open spec fn slot_updated(a: Option<Iface>, b: Option<Iface>, data: Seq<u8>, dt_ms: u64) -> bool {
    match (a, b) {
        (Some(x), Some(y)) => updated(x, y, data, dt_ms),
        (None, None) => true,
        _ => false,
    }
}

/// The wired and the wireless interface, refreshed together.
pub struct NetSource {
    pub eth: Option<Iface>,
    pub wlan: Option<Iface>,
    /// Refreshes left before link speed and state are read again.
    pub slow: u8,
}

/// Refreshes between two readings of link speed and state.
pub const LINK_EVERY: u8 = 5;

impl NetSource {
    /// The interfaces found at start; link details are due at the first refresh.
    pub fn new(eth: Option<Iface>, wlan: Option<Iface>) -> (r: NetSource)
        ensures
            r.eth == eth,
            r.wlan == wlan,
            r.slow == 0,
    {
        NetSource { eth, wlan, slow: 0 }
    }

    /// One refresh with the content just read from `/proc/net/dev` (`None`
    /// when the read failed, which changes nothing). Each present slot is
    /// updated; the answer tells whether link speed and state are due, every
    /// fifth successful refresh starting with the first, which the caller
    /// then reads into the slots.
    pub fn tick(&mut self, data: Option<&[u8]>, dt_ms: u64) -> (due: bool)
        requires
            data matches Some(d) ==> slot_fits(old(self).eth, d@) && slot_fits(old(self).wlan, d@),
        ensures
            old(self).slow <= LINK_EVERY ==> final(self).slow <= LINK_EVERY,
            match data {
                None => !due && final(self).eth == old(self).eth && final(self).wlan == old(self).wlan
                    && final(self).slow == old(self).slow,
                Some(d) => {
                    &&& due == (old(self).slow == 0)
                    &&& final(self).slow == (if due {
                        LINK_EVERY - 1
                    } else {
                        old(self).slow - 1
                    })
                    &&& slot_updated(old(self).eth, final(self).eth, d@, dt_ms)
                    &&& slot_updated(old(self).wlan, final(self).wlan, d@, dt_ms)
                },
            },
    {
        let d = match data {
            None => return false,
            Some(d) => d,
        };
        match &mut self.eth {
            Some(i) => i.update(d, dt_ms),
            None => {},
        }
        match &mut self.wlan {
            Some(i) => i.update(d, dt_ms),
            None => {},
        }
        let due = self.slow == 0;
        if due {
            self.slow = LINK_EVERY;
        }
        self.slow = self.slow - 1;
        due
    }
}

/// The order of `str`: by character, a proper prefix first (the same as
/// comparing the UTF-8 bytes).
pub open spec fn str_lt(a: Seq<char>, b: Seq<char>) -> bool
    decreases a.len(),
{
    if a.len() == 0 {
        b.len() > 0
    } else if b.len() == 0 {
        false
    } else if a[0] != b[0] {
        (a[0] as u32) < (b[0] as u32)
    } else {
        str_lt(a.skip(1), b.skip(1))
    }
}

proof fn lemma_str_lt_trans(a: Seq<char>, b: Seq<char>, c: Seq<char>)
    requires
        str_lt(a, b),
        str_lt(b, c),
    ensures
        str_lt(a, c),
    decreases a.len(),
{
    if a.len() > 0 && b.len() > 0 && c.len() > 0 && a[0] == b[0] && b[0] == c[0] {
        lemma_str_lt_trans(a.skip(1), b.skip(1), c.skip(1));
    }
}

proof fn lemma_str_lt_suffix(a: Seq<char>, b: Seq<char>, i: int)
    requires
        0 <= i <= a.len(),
        i <= b.len(),
        forall|k: int| 0 <= k < i ==> a[k] == b[k],
    ensures
        str_lt(a, b) == str_lt(a.skip(i), b.skip(i)),
    decreases i,
{
    if i > 0 {
        assert(a.skip(1).skip(i - 1) =~= a.skip(i));
        assert(b.skip(1).skip(i - 1) =~= b.skip(i));
        lemma_str_lt_suffix(a.skip(1), b.skip(1), i - 1);
    } else {
        assert(a.skip(0) =~= a);
        assert(b.skip(0) =~= b);
    }
}

/// `a` sorts before `b`.
pub fn str_less(a: &str, b: &str) -> (r: bool)
    ensures
        r == str_lt(a@, b@),
{
    let n = a.unicode_len();
    let m = b.unicode_len();
    let mut i: usize = 0;
    while i < n && i < m
        invariant
            n == a@.len(),
            m == b@.len(),
            i <= n,
            i <= m,
            forall|k: int| 0 <= k < i ==> a@[k] == b@[k],
        decreases n - i,
    {
        let x = a.get_char(i);
        let y = b.get_char(i);
        if x != y {
            proof {
                lemma_str_lt_suffix(a@, b@, i as int);
                assert(a@.skip(i as int)[0] == x);
                assert(b@.skip(i as int)[0] == y);
            }
            return (x as u32) < (y as u32);
        }
        i = i + 1;
    }
    proof {
        lemma_str_lt_suffix(a@, b@, i as int);
    }
    i == n && i < m
}

/// A candidate interface of the given kind: not virtual, and wireless or not.
pub open spec fn eligible(c: (String, bool), wireless: bool) -> bool {
    !spec_is_virtual(c.0@) && c.1 == wireless
}

/// `n` is the first in order among the eligible candidates, or there is none.
pub open spec fn least_choice(cands: Seq<(String, bool)>, wireless: bool, r: Option<String>) -> bool {
    match r {
        Some(n) => (exists|k: int| 0 <= k < cands.len() && eligible(cands[k], wireless) && cands[k].0@
            == n@) && forall|j: int|
            0 <= j < cands.len() && eligible(#[trigger] cands[j], wireless) ==> !str_lt(
                cands[j].0@,
                n@,
            ),
        None => forall|j: int| 0 <= j < cands.len() ==> !eligible(#[trigger] cands[j], wireless),
    }
}

fn least_of(cands: &Vec<(String, bool)>, wireless: bool) -> (r: Option<String>)
    ensures
        least_choice(cands@, wireless, r),
{
    let mut best: Option<String> = None;
    let mut k: usize = 0;
    while k < cands.len()
        invariant
            k <= cands.len(),
            least_choice(cands@.take(k as int), wireless, best),
        decreases cands.len() - k,
    {
        let ghost before = cands@.take(k as int);
        let ghost prev = best;
        assert(cands@.take(k + 1) =~= before.push(cands@[k as int]));
        let (name, w) = &cands[k];
        if *w == wireless && !is_virtual(name.as_str()) {
            let take = match &best {
                None => true,
                Some(b) => str_less(name.as_str(), b.as_str()),
            };
            if take {
                best = Some(name.clone());
                proof {
                    let now = cands@.take(k + 1);
                    assert(now[k as int] == cands@[k as int]);
                    assert forall|j: int|
                        0 <= j < now.len() && eligible(#[trigger] now[j], wireless) implies !str_lt(
                        now[j].0@,
                        name@,
                    ) by {
                        if j < k {
                            assert(now[j] == before[j]);
                            if str_lt(now[j].0@, name@) {
                                let b = prev.unwrap();
                                lemma_str_lt_trans(now[j].0@, name@, b@);
                            }
                        } else {
                            lemma_str_lt_irreflexive(name@);
                        }
                    }
                }
            } else {
                proof {
                    let now = cands@.take(k + 1);
                    let b = prev.unwrap();
                    let i = choose|i: int|
                        0 <= i < before.len() && eligible(before[i], wireless) && before[i].0@ == b@;
                    assert(now[i] == before[i]);
                    assert forall|j: int|
                        0 <= j < now.len() && eligible(#[trigger] now[j], wireless) implies !str_lt(
                        now[j].0@,
                        b@,
                    ) by {
                        if j < k {
                            assert(now[j] == before[j]);
                        }
                    }
                }
            }
        } else {
            proof {
                let now = cands@.take(k + 1);
                assert(!eligible(now[k as int], wireless));
                match prev {
                    Some(b) => {
                        let i = choose|i: int|
                            0 <= i < before.len() && eligible(before[i], wireless) && before[i].0@
                                == b@;
                        assert(now[i] == before[i]);
                        assert forall|j: int|
                            0 <= j < now.len() && eligible(#[trigger] now[j], wireless) implies !str_lt(
                            now[j].0@,
                            b@,
                        ) by {
                            if j < k {
                                assert(now[j] == before[j]);
                            }
                        }
                    },
                    None => {
                        assert forall|j: int| 0 <= j < now.len() implies !eligible(
                            #[trigger] now[j],
                            wireless,
                        ) by {
                            if j < k {
                                assert(now[j] == before[j]);
                            }
                        }
                    },
                }
            }
        }
        k = k + 1;
    }
    assert(cands@.take(cands.len() as int) =~= cands@);
    best
}

proof fn lemma_str_lt_irreflexive(a: Seq<char>)
    ensures
        !str_lt(a, a),
    decreases a.len(),
{
    if a.len() > 0 {
        lemma_str_lt_irreflexive(a.skip(1));
    }
}

/// The wired and the wireless interface to show, from the interface names
/// with whether each is wireless: of each kind, the first name in order
/// that is not virtual.
pub fn choose_interfaces(cands: &Vec<(String, bool)>) -> (r: (Option<String>, Option<String>))
    ensures
        least_choice(cands@, false, r.0),
        least_choice(cands@, true, r.1),
{
    (least_of(cands, false), least_of(cands, true))
}

/// A run of successful refreshes from a fresh `NetSource`, `states[i + 1]` being what `tick` leaves
/// of `states[i]` and `due[i]` its answer: link speed and state are due on successful refresh `i +
/// 1` exactly when `i` is a multiple of five.
pub proof fn law_links_every_fifth(states: Seq<NetSource>, due: Seq<bool>)
    requires
        states.len() == due.len() + 1,
        states[0].slow == 0,
        forall|i: int|
            #![trigger due[i]]
            0 <= i < due.len() ==> due[i] == (states[i].slow == 0) && states[i + 1].slow == (if due[i] {
                (LINK_EVERY - 1) as u8
            } else {
                (states[i].slow - 1) as u8
            }),
    ensures
        forall|i: int| 0 <= i < due.len() ==> (#[trigger] due[i] <==> i % 5 == 0),
{
    let cs = states.map_values(|j: NetSource| j.slow);
    assert(cs.len() == states.len());
    assert forall|j: int| 1 <= j < cs.len() implies #[trigger] cs[j] == cadence_next(cs[j - 1], (LINK_EVERY - 1) as u8) by {
        let i = j - 1;
        assert(0 <= i < due.len());
        assert(due[i] == (states[i].slow == 0));
        assert(cs[j] == states[j].slow);
        assert(cs[i] == states[i].slow);
    }
    law_run_due_every(cs, (LINK_EVERY - 1) as u8);
    assert forall|i: int| 0 <= i < due.len() implies (#[trigger] due[i] <==> i % 5 == 0) by {
        assert(cs[i] == states[i].slow);
    }
}

} // verus!
