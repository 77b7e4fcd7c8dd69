//! Memory from `/proc/meminfo`, the root filesystem's capacity, and disk
//! throughput from `/proc/diskstats`.
use vstd::prelude::*;
use crate::cadence::{cadence_next, law_run_due_every};
use vstd::utf8::*;
use vstd::string::StringSliceAdditionalSpecFns;
use crate::cpu::{sat_add, sat_sub};
use crate::fmt::{mul_sat, pct, sat_mul, spec_pct};
use crate::probe::{
    fields, lines, parse_u64, has_prefix, bytes_eq, spec_fields,
    spec_lines, spec_parse_u64, starts_with, views, is_digit,
};
use crate::text::utf8;

verus! {

/// Memory totals in bytes.
#[derive(Clone, Copy, PartialEq, Eq, Debug, Structural)]
pub struct MemInfo {
    pub total: u64,
    pub available: u64,
    /// Buffers, page cache and reclaimable slab together.
    pub buffcache: u64,
    pub swap_total: u64,
    pub swap_free: u64,
}

impl Default for MemInfo {
    fn default() -> (r: MemInfo)
        ensures
            r == (MemInfo { total: 0, available: 0, buffcache: 0, swap_total: 0, swap_free: 0 }),
    {
        MemInfo { total: 0, available: 0, buffcache: 0, swap_total: 0, swap_free: 0 }
    }
}

impl MemInfo {
    /// Memory in use the way procps counts it: total less available.
    pub fn used(&self) -> (r: u64)
        ensures
            r == sat_sub(self.total, self.available),
    {
        self.total.saturating_sub(self.available)
    }

    /// Swap in use: total less free.
    pub fn swap_used(&self) -> (r: u64)
        ensures
            r == sat_sub(self.swap_total, self.swap_free),
    {
        self.swap_total.saturating_sub(self.swap_free)
    }
}

/// The kB values met so far while reading `/proc/meminfo`, in bytes.
#[derive(Clone, Copy, PartialEq, Eq, Debug, Structural)]
pub struct MemFold {
    pub total: u64,
    pub available: u64,
    pub buffers: u64,
    pub cached: u64,
    pub reclaim: u64,
    pub swap_total: u64,
    pub swap_free: u64,
    pub seen_total: bool,
}

pub open spec fn label_mem_total() -> Seq<u8> {
    seq![77u8, 101u8, 109u8, 84u8, 111u8, 116u8, 97u8, 108u8, 58u8]
}

pub open spec fn label_mem_available() -> Seq<u8> {
    seq![77u8, 101u8, 109u8, 65u8, 118u8, 97u8, 105u8, 108u8, 97u8, 98u8, 108u8, 101u8, 58u8]
}

pub open spec fn label_buffers() -> Seq<u8> {
    seq![66u8, 117u8, 102u8, 102u8, 101u8, 114u8, 115u8, 58u8]
}

pub open spec fn label_cached() -> Seq<u8> {
    seq![67u8, 97u8, 99u8, 104u8, 101u8, 100u8, 58u8]
}

pub open spec fn label_reclaimable() -> Seq<u8> {
    seq![83u8, 82u8, 101u8, 99u8, 108u8, 97u8, 105u8, 109u8, 97u8, 98u8, 108u8, 101u8, 58u8]
}

pub open spec fn label_swap_total() -> Seq<u8> {
    seq![83u8, 119u8, 97u8, 112u8, 84u8, 111u8, 116u8, 97u8, 108u8, 58u8]
}

pub open spec fn label_swap_free() -> Seq<u8> {
    seq![83u8, 119u8, 97u8, 112u8, 70u8, 114u8, 101u8, 101u8, 58u8]
}

/// Index of the first ASCII digit in `s`.
pub open spec fn first_digit(s: Seq<u8>) -> Option<nat>
    decreases s.len(),
{
    if s.len() == 0 {
        None
    } else if is_digit(s[0]) {
        Some(0)
    } else {
        match first_digit(s.skip(1)) {
            Some(k) => Some(k + 1),
            None => None,
        }
    }
}

/// The number after `label` on a `/proc/meminfo` line, in kB, as bytes
/// (clamped to `u64::MAX`); `None` when the line has another label or no number.
pub open spec fn spec_kb_value(line: Seq<u8>, label: Seq<u8>) -> Option<u64> {
    if !starts_with(line, label) {
        None
    } else {
        let rest = line.skip(label.len() as int);
        match first_digit(rest) {
            None => None,
            Some(k) => match spec_parse_u64(rest.skip(k as int)) {
                None => None,
                Some(v) => Some(sat_mul(v as nat, 1024) as u64),
            },
        }
    }
}

/// One line of `/proc/meminfo` read into the running values: the first label
/// that matches wins, later lines overwrite earlier ones.
pub open spec fn mem_step(a: MemFold, l: Seq<u8>) -> MemFold {
    match spec_kb_value(l, label_mem_total()) {
        Some(v) => MemFold { total: v, seen_total: true, ..a },
        None => match spec_kb_value(l, label_mem_available()) {
            Some(v) => MemFold { available: v, ..a },
            None => match spec_kb_value(l, label_buffers()) {
                Some(v) => MemFold { buffers: v, ..a },
                None => match spec_kb_value(l, label_cached()) {
                    Some(v) => MemFold { cached: v, ..a },
                    None => match spec_kb_value(l, label_reclaimable()) {
                        Some(v) => MemFold { reclaim: v, ..a },
                        None => match spec_kb_value(l, label_swap_total()) {
                            Some(v) => MemFold { swap_total: v, ..a },
                            None => match spec_kb_value(l, label_swap_free()) {
                                Some(v) => MemFold { swap_free: v, ..a },
                                None => a,
                            },
                        },
                    },
                },
            },
        },
    }
}

pub open spec fn mem_start() -> MemFold {
    MemFold {
        total: 0,
        available: 0,
        buffers: 0,
        cached: 0,
        reclaim: 0,
        swap_total: 0,
        swap_free: 0,
        seen_total: false,
    }
}

/// The values read from the lines, first to last.
pub open spec fn mem_fold(ls: Seq<Seq<u8>>) -> MemFold
    decreases ls.len(),
{
    if ls.len() == 0 {
        mem_start()
    } else {
        mem_step(mem_fold(ls.drop_last()), ls.last())
    }
}

/// Where `data` has a `MemTotal:` line, its buffers, cache and reclaimable
/// slab add up without overflow; without one nothing is added.
pub open spec fn spec_buffcache_fits(data: Seq<u8>) -> bool {
    let a = mem_fold(spec_lines(data));
    !a.seen_total || a.buffers + a.cached + a.reclaim <= u64::MAX
}

pub open spec fn spec_parse_meminfo(data: Seq<u8>) -> Option<MemInfo> {
    let a = mem_fold(spec_lines(data));
    if !a.seen_total {
        None
    } else {
        Some(
            MemInfo {
                total: a.total,
                available: a.available,
                buffcache: (a.buffers + a.cached + a.reclaim) as u64,
                swap_total: a.swap_total,
                swap_free: a.swap_free,
            },
        )
    }
}

proof fn lemma_first_digit(s: Seq<u8>)
    ensures
        match first_digit(s) {
            Some(k) => k < s.len() && is_digit(s[k as int]) && forall|m: int|
                0 <= m < k ==> !is_digit(#[trigger] s[m]),
            None => forall|m: int| 0 <= m < s.len() ==> !is_digit(#[trigger] s[m]),
        },
    decreases s.len(),
{
    if s.len() > 0 {
        let t = s.skip(1);
        lemma_first_digit(t);
        if !is_digit(s[0]) {
            match first_digit(t) {
                Some(k) => {
                    assert forall|m: int| 0 <= m < k + 1 implies !is_digit(#[trigger] s[m]) by {
                        if m > 0 {
                            assert(s[m] == t[m - 1]);
                        }
                    }
                },
                None => {
                    assert forall|m: int| 0 <= m < s.len() implies !is_digit(#[trigger] s[m]) by {
                        if m > 0 {
                            assert(s[m] == t[m - 1]);
                        }
                    }
                },
            }
        }
    }
}

proof fn lemma_first_digit_at(s: Seq<u8>, i: int)
    requires
        0 <= i <= s.len(),
        forall|m: int| 0 <= m < i ==> !is_digit(#[trigger] s[m]),
        i == s.len() || is_digit(s[i]),
    ensures
        first_digit(s) == (if i == s.len() {
            None
        } else {
            Some(i as nat)
        }),
    decreases i,
{
    lemma_first_digit(s);
    match first_digit(s) {
        Some(k) => {
            if (k as int) < i {
                assert(!is_digit(s[k as int]));
            }
            if (k as int) > i && i < s.len() {
                assert(!is_digit(s[i]));
            }
        },
        None => {
            if i < s.len() {
                assert(!is_digit(s[i]));
            }
        },
    }
}

/// The number after `label` on a meminfo line, converted from kB to bytes.
pub fn kb_value(line: &[u8], label: &[u8]) -> (r: Option<u64>)
    ensures
        r == spec_kb_value(line@, label@),
{
    if !has_prefix(line, label) {
        return None;
    }
    let rest = &line[label.len()..line.len()];
    assert(rest@ =~= line@.skip(label@.len() as int));
    let mut i: usize = 0;
    while i < rest.len() && !(rest[i] >= 48 && rest[i] <= 57)
        invariant
            i <= rest.len(),
            forall|m: int| 0 <= m < i ==> !is_digit(#[trigger] rest@[m]),
        decreases rest.len() - i,
    {
        i = i + 1;
    }
    proof {
        lemma_first_digit_at(rest@, i as int);
    }
    if i == rest.len() {
        return None;
    }
    let tail = &rest[i..rest.len()];
    assert(tail@ =~= rest@.skip(i as int));
    match parse_u64(tail) {
        Some(kb) => Some(mul_sat(kb, 1024)),
        None => None,
    }
}

fn mem_line(a: MemFold, line: &[u8]) -> (r: MemFold)
    ensures
        r == mem_step(a, line@),
{
    let l0: [u8; 9] = [77u8, 101u8, 109u8, 84u8, 111u8, 116u8, 97u8, 108u8, 58u8];
    let l1: [u8; 13] = [77u8, 101u8, 109u8, 65u8, 118u8, 97u8, 105u8, 108u8, 97u8, 98u8, 108u8, 101u8, 58u8];
    let l2: [u8; 8] = [66u8, 117u8, 102u8, 102u8, 101u8, 114u8, 115u8, 58u8];
    let l3: [u8; 7] = [67u8, 97u8, 99u8, 104u8, 101u8, 100u8, 58u8];
    let l4: [u8; 13] = [83u8, 82u8, 101u8, 99u8, 108u8, 97u8, 105u8, 109u8, 97u8, 98u8, 108u8, 101u8, 58u8];
    let l5: [u8; 10] = [83u8, 119u8, 97u8, 112u8, 84u8, 111u8, 116u8, 97u8, 108u8, 58u8];
    let l6: [u8; 9] = [83u8, 119u8, 97u8, 112u8, 70u8, 114u8, 101u8, 101u8, 58u8];
    assert(l0@ =~= label_mem_total());
    assert(l1@ =~= label_mem_available());
    assert(l2@ =~= label_buffers());
    assert(l3@ =~= label_cached());
    assert(l4@ =~= label_reclaimable());
    assert(l5@ =~= label_swap_total());
    assert(l6@ =~= label_swap_free());
    let mut m = a;
    if let Some(v) = kb_value(line, vstd::array::array_as_slice(&l0)) {
        m.total = v;
        m.seen_total = true;
    } else if let Some(v) = kb_value(line, vstd::array::array_as_slice(&l1)) {
        m.available = v;
    } else if let Some(v) = kb_value(line, vstd::array::array_as_slice(&l2)) {
        m.buffers = v;
    } else if let Some(v) = kb_value(line, vstd::array::array_as_slice(&l3)) {
        m.cached = v;
    } else if let Some(v) = kb_value(line, vstd::array::array_as_slice(&l4)) {
        m.reclaim = v;
    } else if let Some(v) = kb_value(line, vstd::array::array_as_slice(&l5)) {
        m.swap_total = v;
    } else if let Some(v) = kb_value(line, vstd::array::array_as_slice(&l6)) {
        m.swap_free = v;
    }
    m
}

fn mem_values(data: &[u8]) -> (r: MemFold)
    ensures
        r == mem_fold(spec_lines(data@)),
{
    let ls = lines(data);
    let mut a = MemFold {
        total: 0,
        available: 0,
        buffers: 0,
        cached: 0,
        reclaim: 0,
        swap_total: 0,
        swap_free: 0,
        seen_total: false,
    };
    let mut k: usize = 0;
    assert(views(ls@).take(0) =~= Seq::<Seq<u8>>::empty());
    while k < ls.len()
        invariant
            k <= ls.len(),
            views(ls@) == spec_lines(data@),
            a == mem_fold(views(ls@).take(k as int)),
        decreases ls.len() - k,
    {
        assert(views(ls@).take(k + 1).drop_last() =~= views(ls@).take(k as int));
        a = mem_line(a, ls[k]);
        k = k + 1;
    }
    assert(views(ls@).take(ls.len() as int) =~= views(ls@));
    a
}

/// False only where `data` has a `MemTotal:` line and its buffers, cache and
/// reclaimable slab overflow a `u64` when added, which `parse_meminfo` needs.
pub fn buffcache_fits(data: &[u8]) -> (r: bool)
    ensures
        r == spec_buffcache_fits(data@),
{
    let a = mem_values(data);
    if !a.seen_total {
        return true;
    }
    match a.buffers.checked_add(a.cached) {
        Some(s) => s.checked_add(a.reclaim).is_some(),
        None => false,
    }
}

/// Memory totals from `/proc/meminfo`, converted to bytes; `None` without a
/// `MemTotal:` line. Lines are matched by their exact label, so `SwapCached:`
/// does not count as `Cached:`.
pub fn parse_meminfo(data: &[u8]) -> (r: Option<MemInfo>)
    requires
        spec_buffcache_fits(data@),
    ensures
        r == spec_parse_meminfo(data@),
{
    let a = mem_values(data);
    if !a.seen_total {
        return None;
    }
    Some(
        MemInfo {
            total: a.total,
            available: a.available,
            buffcache: a.buffers + a.cached + a.reclaim,
            swap_total: a.swap_total,
            swap_free: a.swap_free,
        },
    )
}

proof fn lemma_seen_total(ls: Seq<Seq<u8>>)
    ensures
        mem_fold(ls).seen_total <==> exists|k: int|
            0 <= k < ls.len() && (#[trigger] spec_kb_value(ls[k], label_mem_total())) is Some,
    decreases ls.len(),
{
    if ls.len() > 0 {
        let d = ls.drop_last();
        lemma_seen_total(d);
        if mem_fold(d).seen_total {
            let k = choose|k: int|
                0 <= k < d.len() && (#[trigger] spec_kb_value(d[k], label_mem_total())) is Some;
            assert(d[k] == ls[k]);
        }
        if exists|k: int|
            0 <= k < ls.len() && (#[trigger] spec_kb_value(ls[k], label_mem_total())) is Some {
            let k = choose|k: int|
                0 <= k < ls.len() && (#[trigger] spec_kb_value(ls[k], label_mem_total())) is Some;
            if k < d.len() {
                assert(d[k] == ls[k]);
            } else {
                assert(ls[k] == ls.last());
            }
        }
    }
}

/// `parse_meminfo` gives `None` exactly when no line of `data` is a
/// `MemTotal:` line with a number that fits.
pub proof fn law_meminfo_needs_total(data: Seq<u8>)
    ensures
        spec_parse_meminfo(data) is None <==> !exists|k: int|
            0 <= k < spec_lines(data).len() && (#[trigger] spec_kb_value(
                spec_lines(data)[k],
                label_mem_total(),
            )) is Some,
{
    lemma_seen_total(spec_lines(data));
}

/// The labels of the meminfo lines read, in the order they are tried.
pub open spec fn mem_label(i: int) -> Seq<u8> {
    if i == 0 {
        label_mem_total()
    } else if i == 1 {
        label_mem_available()
    } else if i == 2 {
        label_buffers()
    } else if i == 3 {
        label_cached()
    } else if i == 4 {
        label_reclaimable()
    } else if i == 5 {
        label_swap_total()
    } else {
        label_swap_free()
    }
}

/// The value read for label `i`.
pub open spec fn mem_field(a: MemFold, i: int) -> u64 {
    if i == 0 {
        a.total
    } else if i == 1 {
        a.available
    } else if i == 2 {
        a.buffers
    } else if i == 3 {
        a.cached
    } else if i == 4 {
        a.reclaim
    } else if i == 5 {
        a.swap_total
    } else {
        a.swap_free
    }
}

/// The value of the last line of `ls` that is a `label` line with a number,
/// in bytes; 0 when there is none.
pub open spec fn last_value(ls: Seq<Seq<u8>>, label: Seq<u8>) -> u64
    decreases ls.len(),
{
    if ls.len() == 0 {
        0
    } else {
        match spec_kb_value(ls.last(), label) {
            Some(v) => v,
            None => last_value(ls.drop_last(), label),
        }
    }
}

proof fn lemma_label_bytes(l: Seq<u8>, i: int)
    requires
        0 <= i < 7,
        starts_with(l, mem_label(i)),
    ensures
        l[0] == mem_label(i)[0],
        l[1] == mem_label(i)[1],
        l[3] == mem_label(i)[3],
        l[4] == mem_label(i)[4],
{
    let n = mem_label(i).len() as int;
    assert(n >= 7);
    assert(l.take(n)[0] == l[0]);
    assert(l.take(n)[1] == l[1]);
    assert(l.take(n)[3] == l[3]);
    assert(l.take(n)[4] == l[4]);
}

/// No line starts with two of the labels.
proof fn lemma_labels_exclusive(l: Seq<u8>, i: int, j: int)
    requires
        0 <= i < 7,
        0 <= j < 7,
        starts_with(l, mem_label(i)),
        starts_with(l, mem_label(j)),
    ensures
        i == j,
{
    lemma_label_bytes(l, i);
    lemma_label_bytes(l, j);
}

proof fn lemma_step_field(a: MemFold, l: Seq<u8>, i: int)
    requires
        0 <= i < 7,
    ensures
        mem_field(mem_step(a, l), i) == match spec_kb_value(l, mem_label(i)) {
            Some(v) => v,
            None => mem_field(a, i),
        },
{
    if spec_kb_value(l, mem_label(i)) is Some {
        assert forall|j: int| 0 <= j < 7 && j != i implies spec_kb_value(l, #[trigger] mem_label(j))
            is None by {
            if spec_kb_value(l, mem_label(j)) is Some {
                lemma_labels_exclusive(l, i, j);
            }
        }
        assert(spec_kb_value(l, mem_label(0)) is None || i == 0);
        assert(spec_kb_value(l, mem_label(1)) is None || i == 1);
        assert(spec_kb_value(l, mem_label(2)) is None || i == 2);
        assert(spec_kb_value(l, mem_label(3)) is None || i == 3);
        assert(spec_kb_value(l, mem_label(4)) is None || i == 4);
        assert(spec_kb_value(l, mem_label(5)) is None || i == 5);
    }
}

proof fn lemma_fold_field(ls: Seq<Seq<u8>>, i: int)
    requires
        0 <= i < 7,
    ensures
        mem_field(mem_fold(ls), i) == last_value(ls, mem_label(i)),
    decreases ls.len(),
{
    if ls.len() > 0 {
        lemma_fold_field(ls.drop_last(), i);
        lemma_step_field(mem_fold(ls.drop_last()), ls.last(), i);
    }
}

/// Each figure of `parse_meminfo` comes from the last line that carries its
/// label and a number (0 when no line does), whatever the other lines hold:
/// total from `MemTotal:`, available from `MemAvailable:`, the cache as the
/// sum of `Buffers:`, `Cached:` and `SReclaimable:`, and swap from
/// `SwapTotal:` and `SwapFree:`; there is a result exactly when a `MemTotal:`
/// line has a number.
pub proof fn law_meminfo_last_line_wins(data: Seq<u8>)
    requires
        ({
            let ls = spec_lines(data);
            last_value(ls, label_buffers()) + last_value(ls, label_cached()) + last_value(
                ls,
                label_reclaimable(),
            ) <= u64::MAX
        }),
    ensures
        ({
            let ls = spec_lines(data);
            spec_parse_meminfo(data) == if exists|k: int|
                0 <= k < ls.len() && (#[trigger] spec_kb_value(ls[k], label_mem_total())) is Some {
                Some(
                    MemInfo {
                        total: last_value(ls, label_mem_total()),
                        available: last_value(ls, label_mem_available()),
                        buffcache: (last_value(ls, label_buffers()) + last_value(ls, label_cached())
                            + last_value(ls, label_reclaimable())) as u64,
                        swap_total: last_value(ls, label_swap_total()),
                        swap_free: last_value(ls, label_swap_free()),
                    },
                )
            } else {
                None
            }
        }),
{
    let ls = spec_lines(data);
    law_meminfo_needs_total(data);
    lemma_fold_field(ls, 0);
    lemma_fold_field(ls, 1);
    lemma_fold_field(ls, 2);
    lemma_fold_field(ls, 3);
    lemma_fold_field(ls, 4);
    lemma_fold_field(ls, 5);
    lemma_fold_field(ls, 6);
}

/// Capacity of a filesystem in bytes.
#[derive(Clone, Copy, PartialEq, Eq, Debug, Structural)]
pub struct Disk {
    pub total: u64,
    pub used: u64,
    pub avail: u64,
}

impl Default for Disk {
    fn default() -> (r: Disk)
        ensures
            r == (Disk { total: 0, used: 0, avail: 0 }),
    {
        Disk { total: 0, used: 0, avail: 0 }
    }
}

/// `used` over `used + avail` in percent rounded up, as `df` shows it.
pub open spec fn spec_disk_percent(d: Disk) -> u16 {
    let denom = sat_add(d.used, d.avail);
    if denom == 0 {
        0
    } else {
        let n = sat_mul(d.used as nat, 100);
        let p = ((n + denom - 1) as nat) / (denom as nat);
        if p > 100 {
            100
        } else {
            p as u16
        }
    }
}

proof fn lemma_div_up(n: int, d: int)
    requires
        0 <= n,
        0 < d,
    ensures
        (n + d - 1) / d == n / d + (if n % d > 0 {
            1int
        } else {
            0int
        }),
        n % d > 0 ==> n / d < n,
{
    let q = n / d;
    let r = n % d;
    vstd::arithmetic::div_mod::lemma_fundamental_div_mod(n, d);
    vstd::arithmetic::div_mod::lemma_mod_pos_bound(n, d);
    vstd::arithmetic::div_mod::lemma_div_pos_is_pos(n, d);
    if r > 0 {
        assert(n + d - 1 == (q + 1) * d + (r - 1)) by (nonlinear_arith)
            requires
                n == d * q + r,
        ;
        vstd::arithmetic::div_mod::lemma_fundamental_div_mod_converse(n + d - 1, d, q + 1, r - 1);
        assert(q < n) by (nonlinear_arith)
            requires
                n == d * q + r,
                0 < r < d,
                q >= 0,
        ;
    } else {
        assert(n + d - 1 == q * d + (d - 1)) by (nonlinear_arith)
            requires
                n == d * q + r,
                r == 0,
        ;
        vstd::arithmetic::div_mod::lemma_fundamental_div_mod_converse(n + d - 1, d, q, d - 1);
    }
}

/// The quotient rounded up. The divisor must not be zero.
fn div_up(n: u64, d: u64) -> (r: u64)
    requires
        d != 0,
    ensures
        r == ((n + d - 1) as nat) / (d as nat),
{
    proof {
        lemma_div_up(n as int, d as int);
    }
    if n % d > 0 {
        n / d + 1
    } else {
        n / d
    }
}

impl Disk {
    /// Used share in percent, rounded up against used plus available (blocks
    /// reserved for root do not count); 0 for an empty filesystem.
    pub fn percent(&self) -> (r: u16)
        ensures
            r == spec_disk_percent(*self),
    {
        let denom = self.used.saturating_add(self.avail);
        if denom == 0 {
            return 0;
        }
        let p = div_up(mul_sat(self.used, 100), denom);
        if p > 100 {
            100
        } else {
            p as u16
        }
    }
}

/// The capacity that `statvfs` reports: blocks of the fragment size (the
/// block size where the fragment size is 0), totals clamped to `u64::MAX`.
pub fn disk_from_statvfs(frsize: u64, bsize: u64, blocks: u64, bfree: u64, bavail: u64) -> (r: Disk)
    ensures
        ({
            let f = if frsize > 0 {
                frsize
            } else {
                bsize
            };
            &&& r.total == sat_mul(blocks as nat, f as nat)
            &&& r.used == sat_mul(sat_sub(blocks, bfree) as nat, f as nat)
            &&& r.avail == sat_mul(bavail as nat, f as nat)
        }),
{
    let f = if frsize > 0 {
        frsize
    } else {
        bsize
    };
    Disk {
        total: mul_sat(blocks, f),
        used: mul_sat(blocks.saturating_sub(bfree), f),
        avail: mul_sat(bavail, f),
    }
}

/// An ASCII decimal digit character.
pub open spec fn is_digit_char(c: char) -> bool {
    '0' <= c <= '9'
}

/// Number of digit characters at the end of `s`.
pub open spec fn trailing_digits(s: Seq<char>) -> nat
    decreases s.len(),
{
    if s.len() > 0 && is_digit_char(s.last()) {
        1 + trailing_digits(s.drop_last())
    } else {
        0
    }
}

/// `s` holds a digit character.
pub open spec fn has_digit(s: Seq<char>) -> bool {
    exists|k: int| 0 <= k < s.len() && is_digit_char(#[trigger] s[k])
}

/// Where a device name ends once its partition suffix is cut: trailing
/// digits go, and so does a `p` before them when the rest holds a digit
/// (`mmcblk0p2`, `nvme0n1p2`).
pub open spec fn partition_end(s: Seq<char>) -> int {
    let e = s.len() - trailing_digits(s);
    if e > 0 && e < s.len() && s[e - 1] == 'p' && has_digit(s.take(e - 1)) {
        e - 1
    } else {
        e
    }
}

/// The whole-disk name of a partition; a name of digits alone stays as it is.
pub open spec fn spec_strip_partition(s: Seq<char>) -> Seq<char> {
    let e = partition_end(s);
    if e == 0 {
        s
    } else {
        s.take(e)
    }
}

proof fn lemma_trailing(s: Seq<char>, j: int)
    requires
        0 <= j <= s.len(),
        forall|k: int| s.len() - j <= k < s.len() ==> is_digit_char(#[trigger] s[k]),
        j == s.len() || !is_digit_char(s[s.len() - 1 - j]),
    ensures
        trailing_digits(s) == j,
    decreases j,
{
    if j > 0 {
        let t = s.drop_last();
        assert forall|k: int| t.len() - (j - 1) <= k < t.len() implies is_digit_char(
            #[trigger] t[k],
        ) by {
            assert(t[k] == s[k]);
        }
        if j - 1 < t.len() {
            assert(t[t.len() - 1 - (j - 1)] == s[s.len() - 1 - j]);
        }
        lemma_trailing(t, j - 1);
    }
}

fn is_digit_c(c: char) -> (r: bool)
    ensures
        r == is_digit_char(c),
{
    '0' <= c && c <= '9'
}

/// The whole-disk device of a partition name: `mmcblk0p2` is `mmcblk0`,
/// `nvme0n1p2` is `nvme0n1`, `sda1` is `sda`.
pub fn strip_partition(name: &str) -> (r: String)
    ensures
        r@ == spec_strip_partition(name@),
{
    let n = name.unicode_len();
    let mut end: usize = n;
    while end > 0 && is_digit_c(name.get_char(end - 1))
        invariant
            n == name@.len(),
            end <= n,
            forall|k: int| end <= k < n ==> is_digit_char(#[trigger] name@[k]),
        decreases end,
    {
        end = end - 1;
    }
    proof {
        lemma_trailing(name@, n - end);
    }
    if end > 0 && end < n && name.get_char(end - 1) == 'p' {
        let mut i: usize = 0;
        let mut found = false;
        while i < end - 1
            invariant
                n == name@.len(),
                0 < end <= n,
                i <= end - 1,
                found == exists|k: int| 0 <= k < i && is_digit_char(#[trigger] name@[k]),
            decreases end - 1 - i,
        {
            if is_digit_c(name.get_char(i)) {
                found = true;
            }
            i = i + 1;
        }
        proof {
            if found {
                let k = choose|k: int| 0 <= k < i && is_digit_char(#[trigger] name@[k]);
                assert(name@.take(end - 1)[k] == name@[k]);
            } else {
                assert forall|k: int| 0 <= k < (end - 1) implies !is_digit_char(
                    #[trigger] name@.take(end - 1)[k],
                ) by {
                    assert(name@.take(end - 1)[k] == name@[k]);
                }
            }
        }
        if found {
            end = end - 1;
        }
    }
    if end == 0 {
        name.to_owned()
    } else {
        let r = name.substring_char(0, end).to_owned();
        assert(r@ =~= name@.take(end as int));
        r
    }
}

proof fn lemma_trailing_bound(s: Seq<char>)
    ensures
        trailing_digits(s) <= s.len(),
    decreases s.len(),
{
    if s.len() > 0 && is_digit_char(s.last()) {
        lemma_trailing_bound(s.drop_last());
    }
}

/// Cutting the partition suffix keeps a non-empty prefix of the name: the
/// whole-disk name is where the partition name starts, and nothing is
/// invented.
pub proof fn law_strip_partition_prefix(s: Seq<char>)
    ensures
        spec_strip_partition(s).len() <= s.len(),
        spec_strip_partition(s) == s.take(spec_strip_partition(s).len() as int),
        s.len() > 0 ==> spec_strip_partition(s).len() > 0,
{
    lemma_trailing_bound(s);
    if partition_end(s) == 0 {
        assert(s.take(s.len() as int) =~= s);
    }
}

/// Sector counters of one block device.
#[derive(Clone, Copy, PartialEq, Eq, Debug, Structural)]
pub struct DiskCounters {
    pub read_sectors: u64,
    pub write_sectors: u64,
    pub io_ms: u64,
}

impl Default for DiskCounters {
    fn default() -> (r: DiskCounters)
        ensures
            r == (DiskCounters { read_sectors: 0, write_sectors: 0, io_ms: 0 }),
    {
        DiskCounters { read_sectors: 0, write_sectors: 0, io_ms: 0 }
    }
}

/// The ten counters after the device name all parse.
pub open spec fn counters_parse(fs: Seq<Seq<u8>>) -> bool {
    fs.len() >= 13 && forall|k: int| 3 <= k < 13 ==> (#[trigger] spec_parse_u64(fs[k])) is Some
}

/// Scans `/proc/diskstats` lines for the device `want`; a line with fewer
/// than three fields ends the scan with nothing.
pub open spec fn diskstats_from(ls: Seq<Seq<u8>>, want: Seq<u8>) -> Option<DiskCounters>
    decreases ls.len(),
{
    if ls.len() == 0 {
        None
    } else {
        let fs = spec_fields(ls[0]);
        if fs.len() < 3 {
            None
        } else if fs[2] != want {
            diskstats_from(ls.skip(1), want)
        } else if !counters_parse(fs) {
            None
        } else {
            Some(
                DiskCounters {
                    read_sectors: spec_parse_u64(fs[5]).unwrap(),
                    write_sectors: spec_parse_u64(fs[9]).unwrap(),
                    io_ms: spec_parse_u64(fs[12]).unwrap(),
                },
            )
        }
    }
}

pub open spec fn spec_parse_diskstats(data: Seq<u8>, want: Seq<u8>) -> Option<DiskCounters> {
    diskstats_from(spec_lines(data), want)
}

/// The counters of a diskstats line whose device matched, from its fields.
fn counters_of(fs: &Vec<&[u8]>) -> (r: Option<DiskCounters>)
    requires
        fs.len() >= 13,
    ensures
        r == (if counters_parse(views(fs@)) {
            Some(
                DiskCounters {
                    read_sectors: spec_parse_u64(views(fs@)[5]).unwrap(),
                    write_sectors: spec_parse_u64(views(fs@)[9]).unwrap(),
                    io_ms: spec_parse_u64(views(fs@)[12]).unwrap(),
                },
            )
        } else {
            None
        }),
{
    let mut vals: Vec<u64> = Vec::new();
    let mut j: usize = 3;
    while j < 13
        invariant
            3 <= j <= 13,
            fs.len() >= 13,
            vals@.len() == j - 3,
            forall|m: int| 3 <= m < j ==> spec_parse_u64(#[trigger] views(fs@)[m]) == Some(
                vals@[m - 3],
            ),
        decreases 13 - j,
    {
        assert(views(fs@)[j as int] == fs@[j as int]@);
        match parse_u64(fs[j]) {
            Some(v) => vals.push(v),
            None => {
                assert(!counters_parse(views(fs@)));
                return None;
            },
        }
        j = j + 1;
    }
    assert(counters_parse(views(fs@)));
    assert(spec_parse_u64(views(fs@)[5]) == Some(vals@[2]));
    assert(spec_parse_u64(views(fs@)[9]) == Some(vals@[6]));
    assert(spec_parse_u64(views(fs@)[12]) == Some(vals@[9]));
    Some(DiskCounters { read_sectors: vals[2], write_sectors: vals[6], io_ms: vals[9] })
}

/// Sectors read and written and milliseconds busy of the device named
/// exactly `want` (the whole disk, not one of its partitions).
pub fn parse_diskstats(data: &[u8], want: &str) -> (r: Option<DiskCounters>)
    ensures
        r == spec_parse_diskstats(data@, want.spec_bytes()),
{
    let w = want.as_bytes();
    let ls = lines(data);
    let mut k: usize = 0;
    assert(views(ls@).skip(0) =~= views(ls@));
    while k < ls.len()
        invariant
            k <= ls.len(),
            w@ == want.spec_bytes(),
            views(ls@) == spec_lines(data@),
            diskstats_from(views(ls@).skip(k as int), w@) == spec_parse_diskstats(data@, w@),
        decreases ls.len() - k,
    {
        let ghost rest = views(ls@).skip(k as int);
        assert(rest[0] == ls@[k as int]@);
        assert(rest.skip(1) =~= views(ls@).skip(k + 1));
        let fs = fields(ls[k]);
        if fs.len() < 3 {
            return None;
        }
        assert(views(fs@)[2] == fs@[2]@);
        if !bytes_eq(fs[2], w) {
            k = k + 1;
            continue;
        }
        if fs.len() < 13 {
            return None;
        }
        return counters_of(&fs);
    }
    None
}

/// Bytes per sector in `/proc/diskstats`.
pub const SECTOR: u64 = 512;

/// Throughput of the root disk between two refreshes.
pub struct DiskIo {
    /// The whole-disk device, when it could be found.
    pub name: Option<String>,
    pub prev: Option<DiskCounters>,
    pub read_bps: Option<u64>,
    pub write_bps: Option<u64>,
    pub util: Option<u16>,
}

/// Bytes per second over `dt_ms` milliseconds for a sector delta, clamped.
pub open spec fn sector_rate(delta: u64, dt_ms: u64) -> u64 {
    (sat_mul(sat_mul(delta as nat, 512), 1000) / (dt_ms as nat)) as u64
}

impl DiskIo {
    /// Throughput of `name`, with no sample yet.
    pub fn new(name: Option<String>) -> (r: DiskIo)
        ensures
            r.name == name,
            r.prev is None,
            r.read_bps is None,
            r.write_bps is None,
            r.util is None,
    {
        DiskIo { name, prev: None, read_bps: None, write_bps: None, util: None }
    }

    /// The device name, or `--` when there is none.
    pub fn device(&self) -> (r: &str)
        ensures
            match self.name {
                Some(n) => r@ == n@,
                None => r@ == "--"@,
            },
    {
        match &self.name {
            Some(n) => n.as_str(),
            None => "--",
        }
    }

    /// One refresh with the content just read from `/proc/diskstats` (`None`
    /// when the read failed) and the milliseconds since the last refresh.
    /// Nothing changes without a device, a read or a line for the device.
    /// Otherwise the rates come from the deltas against the previous sample;
    /// none when there was no previous sample; cleared when no time elapsed
    /// or a counter went backwards.
    pub fn tick(&mut self, data: Option<&[u8]>, dt_ms: u64)
        ensures
            final(self).name == old(self).name,
            ({
                let cur = match (old(self).name, data) {
                    (Some(n), Some(d)) => spec_parse_diskstats(d@, encode_utf8(n@)),
                    _ => None,
                };
                match cur {
                    None => final(self).prev == old(self).prev && final(self).read_bps == old(self).read_bps && final(self).write_bps == old(self).write_bps && final(self).util
                        == old(self).util,
                    Some(c) => final(self).prev == Some(c) && match old(self).prev {
                        None => final(self).read_bps == old(self).read_bps && final(self).write_bps
                            == old(self).write_bps && final(self).util == old(self).util,
                        Some(p) => if dt_ms == 0 || c.read_sectors < p.read_sectors
                            || c.write_sectors < p.write_sectors {
                            final(self).read_bps is None && final(self).write_bps is None && final(self).util is None
                        } else {
                            &&& final(self).read_bps == Some(
                                sector_rate((c.read_sectors - p.read_sectors) as u64, dt_ms),
                            )
                            &&& final(self).write_bps == Some(
                                sector_rate((c.write_sectors - p.write_sectors) as u64, dt_ms),
                            )
                            &&& final(self).util == Some(
                                spec_pct(sat_sub(c.io_ms, p.io_ms), dt_ms),
                            )
                        },
                    },
                }
            }),
    {
        let cur = match &self.name {
            None => return,
            Some(n) => match data {
                None => return,
                Some(d) => match parse_diskstats(d, n.as_str()) {
                    None => return,
                    Some(c) => c,
                },
            },
        };
        if let Some(p) = self.prev {
            if dt_ms == 0 || cur.read_sectors < p.read_sectors || cur.write_sectors
                < p.write_sectors {
                self.read_bps = None;
                self.write_bps = None;
                self.util = None;
            } else {
                let rd = mul_sat(cur.read_sectors - p.read_sectors, SECTOR);
                let wr = mul_sat(cur.write_sectors - p.write_sectors, SECTOR);
                self.read_bps = Some(mul_sat(rd, 1000) / dt_ms);
                self.write_bps = Some(mul_sat(wr, 1000) / dt_ms);
                let busy = cur.io_ms.saturating_sub(p.io_ms);
                self.util = Some(pct(busy, dt_ms));
            }
        }
        self.prev = Some(cur);
    }
}

/// The last path segment of `s`: what follows its last `/`.
pub open spec fn after_last_slash(s: Seq<char>) -> Seq<char>
    decreases s.len(),
{
    if s.len() == 0 {
        s
    } else if s.last() == '/' {
        Seq::empty()
    } else {
        after_last_slash(s.drop_last()).push(s.last())
    }
}

/// Scans `/proc/mounts` lines for the one mounted at `/`; a line with fewer
/// than two fields, or a device name that is not UTF-8, ends the scan with
/// nothing.
pub open spec fn root_device_from(ls: Seq<Seq<u8>>) -> Option<Seq<char>>
    decreases ls.len(),
{
    if ls.len() == 0 {
        None
    } else {
        let fs = spec_fields(ls[0]);
        if fs.len() < 2 {
            None
        } else if fs[1] != seq![47u8] {
            root_device_from(ls.skip(1))
        } else if !valid_utf8(fs[0]) {
            None
        } else {
            Some(spec_strip_partition(after_last_slash(decode_utf8(fs[0]))))
        }
    }
}

proof fn lemma_after_last_slash(s: Seq<char>, i: int)
    requires
        0 <= i <= s.len(),
        forall|k: int| i <= k < s.len() ==> #[trigger] s[k] != '/',
        i == 0 || s[i - 1] == '/',
    ensures
        after_last_slash(s) == s.subrange(i, s.len() as int),
    decreases s.len(),
{
    if s.len() > 0 {
        if i == s.len() {
            assert(s.subrange(i, s.len() as int) =~= Seq::<char>::empty());
        } else {
            lemma_after_last_slash(s.drop_last(), i);
            assert(s.subrange(i, s.len() as int) =~= s.drop_last().subrange(
                i,
                s.len() - 1,
            ).push(s.last()));
        }
    }
}

/// The whole-disk device mounted at `/`, from `/proc/mounts`: the last
/// segment of the device path with its partition suffix cut.
pub fn root_device(mounts: &[u8]) -> (r: Option<String>)
    ensures
        match r {
            Some(s) => root_device_from(spec_lines(mounts@)) == Some(s@),
            None => root_device_from(spec_lines(mounts@)) is None,
        },
{
    let ls = lines(mounts);
    let mut k: usize = 0;
    assert(views(ls@).skip(0) =~= views(ls@));
    while k < ls.len()
        invariant
            k <= ls.len(),
            views(ls@) == spec_lines(mounts@),
            root_device_from(views(ls@).skip(k as int)) == root_device_from(spec_lines(mounts@)),
        decreases ls.len() - k,
    {
        let ghost rest = views(ls@).skip(k as int);
        assert(rest[0] == ls@[k as int]@);
        assert(rest.skip(1) =~= views(ls@).skip(k + 1));
        let fs = fields(ls[k]);
        if fs.len() < 2 {
            return None;
        }
        assert(views(fs@)[1] == fs@[1]@);
        assert(views(fs@)[0] == fs@[0]@);
        let slash: [u8; 1] = [47u8];
        assert(slash@ =~= seq![47u8]);
        if !bytes_eq(fs[1], vstd::array::array_as_slice(&slash)) {
            k = k + 1;
            continue;
        }
        let dev = match utf8(fs[0]) {
            Some(d) => d,
            None => return None,
        };
        let n = dev.unicode_len();
        let mut i: usize = n;
        while i > 0 && dev.get_char(i - 1) != '/'
            invariant
                n == dev@.len(),
                i <= n,
                forall|m: int| i <= m < n ==> #[trigger] dev@[m] != '/',
            decreases i,
        {
            i = i - 1;
        }
        proof {
            lemma_after_last_slash(dev@, i as int);
        }
        let base = dev.substring_char(i, n);
        return Some(strip_partition(base));
    }
    None
}

/// Memory and root filesystem state, updated once per refresh.
pub struct MemSource {
    pub info: Option<MemInfo>,
    pub disk: Option<Disk>,
    /// Refreshes left before the filesystem is measured again.
    pub disk_countdown: u8,
}

/// Refreshes between two filesystem measurements.
pub const DISK_EVERY: u8 = 10;

impl MemSource {
    /// Nothing read yet; the filesystem is due at the first refresh.
    pub fn new() -> (r: MemSource)
        ensures
            r.info is None,
            r.disk is None,
            r.disk_countdown == 0,
    {
        MemSource { info: None, disk: None, disk_countdown: 0 }
    }

    /// One refresh with the content just read from `/proc/meminfo` (`None`
    /// when the read failed, which keeps the last value). Answers whether the
    /// filesystem is due for measuring, which it is every tenth refresh,
    /// starting with the first; the caller then stores the result in `disk`.
    pub fn tick(&mut self, meminfo: Option<&[u8]>) -> (due: bool)
        requires
            meminfo matches Some(d) ==> spec_buffcache_fits(d@),
        ensures
            final(self).info == match meminfo {
                Some(d) => spec_parse_meminfo(d@),
                None => old(self).info,
            },
            final(self).disk == old(self).disk,
            due == (old(self).disk_countdown == 0),
            final(self).disk_countdown == (if due {
                DISK_EVERY - 1
            } else {
                old(self).disk_countdown - 1
            }),
            old(self).disk_countdown <= DISK_EVERY ==> final(self).disk_countdown < DISK_EVERY,
    {
        if let Some(d) = meminfo {
            self.info = parse_meminfo(d);
        }
        let due = self.disk_countdown == 0;
        if due {
            self.disk_countdown = DISK_EVERY;
        }
        self.disk_countdown = self.disk_countdown - 1;
        due
    }
}

/// A run of refreshes from a fresh `MemSource`, `states[i + 1]` being what `tick` leaves of
/// `states[i]` and `due[i]` its answer: the filesystem is measured on refresh `i + 1` exactly when
/// `i` is a multiple of ten.
pub proof fn law_disk_every_tenth(states: Seq<MemSource>, due: Seq<bool>)
    requires
        states.len() == due.len() + 1,
        states[0].disk_countdown == 0,
        forall|i: int|
            #![trigger due[i]]
            0 <= i < due.len() ==> due[i] == (states[i].disk_countdown == 0) && states[i + 1].disk_countdown == (if due[i] {
                (DISK_EVERY - 1) as u8
            } else {
                (states[i].disk_countdown - 1) as u8
            }),
    ensures
        forall|i: int| 0 <= i < due.len() ==> (#[trigger] due[i] <==> i % 10 == 0),
{
    let cs = states.map_values(|j: MemSource| j.disk_countdown);
    assert(cs.len() == states.len());
    assert forall|j: int| 1 <= j < cs.len() implies #[trigger] cs[j] == cadence_next(cs[j - 1], (DISK_EVERY - 1) as u8) by {
        let i = j - 1;
        assert(0 <= i < due.len());
        assert(due[i] == (states[i].disk_countdown == 0));
        assert(cs[j] == states[j].disk_countdown);
        assert(cs[i] == states[i].disk_countdown);
    }
    law_run_due_every(cs, (DISK_EVERY - 1) as u8);
    assert forall|i: int| 0 <= i < due.len() implies (#[trigger] due[i] <==> i % 10 == 0) by {
        assert(cs[i] == states[i].disk_countdown);
    }
}

} // verus!
