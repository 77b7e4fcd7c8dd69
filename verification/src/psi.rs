//! Pressure stall information from `/proc/pressure/{cpu,memory,io}`.
use vstd::prelude::*;
use crate::cadence::{cadence_next, law_run_due_every};
use crate::probe::{
    fields, has_prefix, lines, parse_centi, spec_fields, spec_lines, spec_parse_centi,
    starts_with, views,
};

verus! {

/// The bytes `some`.
pub open spec fn label_some() -> Seq<u8> {
    seq![115u8, 111u8, 109u8, 101u8]
}

/// The bytes `avg10=`.
pub open spec fn label_avg10() -> Seq<u8> {
    seq![97u8, 118u8, 103u8, 49u8, 48u8, 61u8]
}

/// The first `avg10=` field among `fs`, read as hundredths: `None` when there
/// is no such field, `Some` of the parse otherwise.
pub open spec fn avg10_in(fs: Seq<Seq<u8>>) -> Option<Option<u64>>
    decreases fs.len(),
{
    if fs.len() == 0 {
        None
    } else if starts_with(fs[0], label_avg10()) {
        Some(spec_parse_centi(fs[0].skip(6)))
    } else {
        avg10_in(fs.skip(1))
    }
}

/// The fields of a line after its first one.
pub open spec fn after_first(fs: Seq<Seq<u8>>) -> Seq<Seq<u8>> {
    if fs.len() == 0 {
        fs
    } else {
        fs.skip(1)
    }
}

/// The 10-second average of the first `some` line that has one.
pub open spec fn avg10_from(ls: Seq<Seq<u8>>) -> Option<u64>
    decreases ls.len(),
{
    if ls.len() == 0 {
        None
    } else if !starts_with(ls[0], label_some()) {
        avg10_from(ls.skip(1))
    } else {
        match avg10_in(after_first(spec_fields(ls[0]))) {
            Some(r) => r,
            None => avg10_from(ls.skip(1)),
        }
    }
}

pub open spec fn spec_parse_some_avg10(data: Seq<u8>) -> Option<u64> {
    avg10_from(spec_lines(data))
}

fn avg10_field(fs: &Vec<&[u8]>) -> (r: Option<Option<u64>>)
    ensures
        r == avg10_in(after_first(views(fs@))),
{
    let label: [u8; 6] = [97u8, 118u8, 103u8, 49u8, 48u8, 61u8];
    assert(label@ =~= label_avg10());
    if fs.len() == 0 {
        return None;
    }
    let mut k: usize = 1;
    assert(views(fs@).skip(1) =~= after_first(views(fs@)));
    while k < fs.len()
        invariant
            1 <= k <= fs.len(),
            label@ == label_avg10(),
            avg10_in(views(fs@).skip(k as int)) == avg10_in(after_first(views(fs@))),
        decreases fs.len() - k,
    {
        let ghost rest = views(fs@).skip(k as int);
        assert(rest[0] == fs@[k as int]@);
        assert(rest.skip(1) =~= views(fs@).skip(k + 1));
        let f = fs[k];
        if has_prefix(f, vstd::array::array_as_slice(&label)) {
            let v = &f[6..f.len()];
            assert(v@ =~= f@.skip(6));
            return Some(parse_centi(v));
        }
        k = k + 1;
    }
    None
}

/// The 10-second `some` average, in hundredths of a percent, from a
/// pressure file; the `full` line is ignored.
pub fn parse_some_avg10(data: &[u8]) -> (r: Option<u64>)
    ensures
        r == spec_parse_some_avg10(data@),
{
    let label: [u8; 4] = [115u8, 111u8, 109u8, 101u8];
    assert(label@ =~= label_some());
    let ls = lines(data);
    let mut k: usize = 0;
    assert(views(ls@).skip(0) =~= views(ls@));
    while k < ls.len()
        invariant
            k <= ls.len(),
            label@ == label_some(),
            views(ls@) == spec_lines(data@),
            avg10_from(views(ls@).skip(k as int)) == spec_parse_some_avg10(data@),
        decreases ls.len() - k,
    {
        let ghost rest = views(ls@).skip(k as int);
        assert(rest[0] == ls@[k as int]@);
        assert(rest.skip(1) =~= views(ls@).skip(k + 1));
        let line = ls[k];
        if has_prefix(line, vstd::array::array_as_slice(&label)) {
            let fs = fields(line);
            if let Some(r) = avg10_field(&fs) {
                return r;
            }
        }
        k = k + 1;
    }
    None
}

/// Refreshes between two readings of the pressure files, plus one.
pub const PSI_EVERY: u8 = 2;

/// The three pressure averages, read every third refresh.
pub struct Psi {
    pub cpu_centi: Option<u64>,
    pub mem_centi: Option<u64>,
    pub io_centi: Option<u64>,
    /// Refreshes left before the next reading.
    pub countdown: u8,
}

impl Default for Psi {
    fn default() -> (r: Psi)
        ensures
            r.cpu_centi is None,
            r.mem_centi is None,
            r.io_centi is None,
            r.countdown == 0,
    {
        Psi::new()
    }
}

impl Psi {
    /// Nothing read yet; the first refresh reads.
    pub fn new() -> (r: Psi)
        ensures
            r.cpu_centi is None,
            r.mem_centi is None,
            r.io_centi is None,
            r.countdown == 0,
    {
        Psi { cpu_centi: None, mem_centi: None, io_centi: None, countdown: 0 }
    }

    /// One refresh: answers whether the files are due now, and when they are
    /// starts the wait for the next reading.
    pub fn tick(&mut self) -> (due: bool)
        ensures
            due == (old(self).countdown == 0),
            final(self).countdown == cadence_next(old(self).countdown, PSI_EVERY),
            final(self).cpu_centi == old(self).cpu_centi,
            final(self).mem_centi == old(self).mem_centi,
            final(self).io_centi == old(self).io_centi,
    {
        if self.countdown > 0 {
            self.countdown = self.countdown - 1;
            return false;
        }
        self.countdown = PSI_EVERY;
        true
    }

    /// Stores the averages of the files just read; a file whose read failed
    /// (`None`) keeps its last value.
    pub fn record(&mut self, cpu: Option<&[u8]>, mem: Option<&[u8]>, io: Option<&[u8]>)
        ensures
            final(self).countdown == old(self).countdown,
            final(self).cpu_centi == match cpu {
                Some(d) => spec_parse_some_avg10(d@),
                None => old(self).cpu_centi,
            },
            final(self).mem_centi == match mem {
                Some(d) => spec_parse_some_avg10(d@),
                None => old(self).mem_centi,
            },
            final(self).io_centi == match io {
                Some(d) => spec_parse_some_avg10(d@),
                None => old(self).io_centi,
            },
    {
        if let Some(d) = cpu {
            self.cpu_centi = parse_some_avg10(d);
        }
        if let Some(d) = mem {
            self.mem_centi = parse_some_avg10(d);
        }
        if let Some(d) = io {
            self.io_centi = parse_some_avg10(d);
        }
    }
}

/// A run of refreshes from a fresh `Psi`, `states[i + 1]` being what `tick` leaves of `states[i]`
/// and `due[i]` its answer: the files are read on refresh `i + 1` exactly when `i` is a multiple of
/// three.
pub proof fn law_psi_every_third(states: Seq<Psi>, due: Seq<bool>)
    requires
        states.len() == due.len() + 1,
        states[0].countdown == 0,
        forall|i: int|
            #![trigger due[i]]
            0 <= i < due.len() ==> due[i] == (states[i].countdown == 0)
                && states[i + 1].countdown == cadence_next(states[i].countdown, PSI_EVERY),
    ensures
        forall|i: int| 0 <= i < due.len() ==> (#[trigger] due[i] <==> i % 3 == 0),
{
    let cs = states.map_values(|j: Psi| j.countdown);
    assert(cs.len() == states.len());
    assert forall|j: int| 1 <= j < cs.len() implies #[trigger] cs[j] == cadence_next(cs[j - 1], PSI_EVERY) by {
        let i = j - 1;
        assert(0 <= i < due.len());
        assert(due[i] == (states[i].countdown == 0));
        assert(cs[j] == states[j].countdown);
        assert(cs[i] == states[i].countdown);
    }
    law_run_due_every(cs, PSI_EVERY);
    assert forall|i: int| 0 <= i < due.len() implies (#[trigger] due[i] <==> i % 3 == 0) by {
        assert(cs[i] == states[i].countdown);
    }
}

} // verus!
