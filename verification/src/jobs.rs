//! State of the GitHub Actions runner: whether its listener runs and how many
//! job workers it has.
use vstd::prelude::*;
use crate::cadence::{cadence_next, law_run_due_every};
use vstd::string::StringSliceAdditionalSpecFns;
use vstd::utf8::*;
use crate::probe::{
    bytes_eq, first_break, has_prefix, line_end, lines, parse_u64, spec_lines, spec_parse_u64,
    starts_with, views,
};
use crate::text::{str_eq, trim, trimmed, utf8};

verus! {

/// Process name of a runner job worker.
pub const WORKER: &'static str = "Runner.Worker";

/// Process name of the runner's listener.
pub const LISTENER: &'static str = "Runner.Listener";

/// The process name in a `/proc/<pid>/comm` file is exactly `want`: the text
/// before the first NUL or line feed.
pub open spec fn spec_comm_is(data: Seq<u8>, want: Seq<u8>) -> bool {
    data.take(first_break(data) as int) == want
}

/// Whether a `comm` file names exactly the process `want`; a trailing line
/// feed is ignored, a longer or truncated name does not match.
pub fn comm_is(data: &[u8], want: &str) -> (r: bool)
    ensures
        r == spec_comm_is(data@, want.spec_bytes()),
{
    let end = line_end(data);
    let head = &data[0..end];
    assert(head@ =~= data@.take(end as int));
    bytes_eq(head, want.as_bytes())
}

/// The bytes `0::`.
pub open spec fn label_unified() -> Seq<u8> {
    seq![48u8, 58u8, 58u8]
}

/// The `cgroup.procs` path of the unified-hierarchy line of `/proc/<pid>/cgroup`;
/// none for the root group, an empty path, or a path that is not UTF-8.
pub open spec fn cgroup_from(ls: Seq<Seq<u8>>) -> Option<Seq<char>>
    decreases ls.len(),
{
    if ls.len() == 0 {
        None
    } else if starts_with(ls[0], label_unified()) {
        let rest = ls[0].skip(3);
        if !valid_utf8(rest) {
            None
        } else {
            let t = trimmed(decode_utf8(rest), None);
            if t.len() == 0 || t == "/"@ {
                None
            } else {
                Some("/sys/fs/cgroup"@ + t + "/cgroup.procs"@)
            }
        }
    } else {
        cgroup_from(ls.skip(1))
    }
}

/// The path of the file that lists the processes of the runner's cgroup,
/// from the process's `/proc/<pid>/cgroup`.
pub fn parse_cgroup_path(data: &[u8]) -> (r: Option<String>)
    ensures
        match r {
            Some(s) => cgroup_from(spec_lines(data@)) == Some(s@),
            None => cgroup_from(spec_lines(data@)) is None,
        },
{
    let label: [u8; 3] = [48u8, 58u8, 58u8];
    assert(label@ =~= label_unified());
    let ls = lines(data);
    let mut k: usize = 0;
    assert(views(ls@).skip(0) =~= views(ls@));
    while k < ls.len()
        invariant
            k <= ls.len(),
            label@ == label_unified(),
            views(ls@) == spec_lines(data@),
            cgroup_from(views(ls@).skip(k as int)) == cgroup_from(spec_lines(data@)),
        decreases ls.len() - k,
    {
        let ghost rest = views(ls@).skip(k as int);
        assert(rest[0] == ls@[k as int]@);
        assert(rest.skip(1) =~= views(ls@).skip(k + 1));
        let line = ls[k];
        if has_prefix(line, vstd::array::array_as_slice(&label)) {
            let v = &line[3..line.len()];
            assert(v@ =~= line@.skip(3));
            let s = match utf8(v) {
                Some(s) => trim(s),
                None => return None,
            };
            proof {
                reveal_strlit("/");
            }
            if s.unicode_len() == 0 || str_eq(s, "/") {
                return None;
            }
            let mut p = String::from_str("/sys/fs/cgroup");
            p.append(s);
            p.append("/cgroup.procs");
            return Some(p);
        }
        k = k + 1;
    }
    None
}

/// Jobs and listener among processes given as pid and `comm` content,
/// in order: the number of workers, and the last listener's pid.
pub open spec fn spec_tally(es: Seq<(u64, Vec<u8>)>) -> (nat, Option<u64>)
    decreases es.len(),
{
    if es.len() == 0 {
        (0, None)
    } else {
        let (w, l) = spec_tally(es.drop_last());
        let (pid, comm) = es.last();
        if spec_comm_is(comm@, WORKER.spec_bytes()) {
            (w + 1, l)
        } else if spec_comm_is(comm@, LISTENER.spec_bytes()) {
            (w, Some(pid))
        } else {
            (w, l)
        }
    }
}

/// Counts the job workers among processes given as pid and `comm` content,
/// and finds the listener (the last one, should there be several).
pub fn tally(entries: &Vec<(u64, Vec<u8>)>) -> (r: (u32, Option<u64>))
    requires
        entries.len() <= u32::MAX,
    ensures
        r.0 as nat == spec_tally(entries@).0,
        r.1 == spec_tally(entries@).1,
{
    let mut workers: u32 = 0;
    let mut listener: Option<u64> = None;
    let mut k: usize = 0;
    assert(entries@.take(0) =~= Seq::<(u64, Vec<u8>)>::empty());
    while k < entries.len()
        invariant
            k <= entries.len(),
            entries.len() <= u32::MAX,
            workers as nat == spec_tally(entries@.take(k as int)).0,
            workers <= k,
            listener == spec_tally(entries@.take(k as int)).1,
        decreases entries.len() - k,
    {
        assert(entries@.take(k + 1).drop_last() =~= entries@.take(k as int));
        let (pid, comm) = &entries[k];
        if comm_is(comm.as_slice(), WORKER) {
            workers = workers + 1;
        } else if comm_is(comm.as_slice(), LISTENER) {
            listener = Some(*pid);
        }
        k = k + 1;
    }
    assert(entries@.take(entries.len() as int) =~= entries@);
    (workers, listener)
}

/// The pids listed one per line in a `cgroup.procs` file, skipping lines
/// that do not start with a number.
pub open spec fn spec_pids(ls: Seq<Seq<u8>>) -> Seq<u64>
    decreases ls.len(),
{
    if ls.len() == 0 {
        Seq::empty()
    } else {
        match spec_parse_u64(ls.last()) {
            Some(p) => spec_pids(ls.drop_last()).push(p),
            None => spec_pids(ls.drop_last()),
        }
    }
}

/// The pids of a `cgroup.procs` file, in file order.
pub fn cgroup_pids(raw: &[u8]) -> (r: Vec<u64>)
    ensures
        r@ == spec_pids(spec_lines(raw@)),
{
    let ls = lines(raw);
    let mut out: Vec<u64> = Vec::new();
    let mut k: usize = 0;
    assert(views(ls@).take(0) =~= Seq::<Seq<u8>>::empty());
    while k < ls.len()
        invariant
            k <= ls.len(),
            views(ls@) == spec_lines(raw@),
            out@ == spec_pids(views(ls@).take(k as int)),
        decreases ls.len() - k,
    {
        assert(views(ls@).take(k + 1).drop_last() =~= views(ls@).take(k as int));
        assert(views(ls@).take(k + 1).last() == ls@[k as int]@);
        if let Some(p) = parse_u64(ls[k]) {
            out.push(p);
        }
        k = k + 1;
    }
    assert(views(ls@).take(ls.len() as int) =~= views(ls@));
    out
}

/// Refreshes between two counts, plus one.
pub const JOBS_EVERY: u8 = 2;

/// What the runner is doing, as the dashboard tracks it.
pub struct Jobs {
    /// The `cgroup.procs` file of the runner service, once found.
    pub cgroup: Option<String>,
    pub running: u32,
    pub listener: bool,
    /// Refreshes left before the next count.
    pub countdown: u8,
}

impl Default for Jobs {
    fn default() -> (r: Jobs)
        ensures
            r.cgroup is None,
            r.running == 0,
            !r.listener,
            r.countdown == 0,
    {
        Jobs::new()
    }
}

impl Jobs {
    /// Nothing known yet; the caller follows with a first `bootstrap`.
    pub fn new() -> (r: Jobs)
        ensures
            r.cgroup is None,
            r.running == 0,
            !r.listener,
            r.countdown == 0,
    {
        Jobs { cgroup: None, running: 0, listener: false, countdown: 0 }
    }

    /// Takes the result of a scan of all processes: the worker count, the
    /// listener's pid if one runs, and the runner's cgroup file as found from
    /// that pid (the caller keeps it only where it exists).
    pub fn bootstrap(&mut self, workers: u32, listener_pid: Option<u64>, cgroup: Option<String>)
        ensures
            final(self).running == workers,
            final(self).listener == listener_pid is Some,
            final(self).cgroup == cgroup,
            final(self).countdown == old(self).countdown,
    {
        self.running = workers;
        self.listener = listener_pid.is_some();
        self.cgroup = cgroup;
    }

    /// One refresh: answers whether a count is due now, every third refresh,
    /// starting with the first.
    pub fn tick(&mut self) -> (due: bool)
        ensures
            due == (old(self).countdown == 0),
            final(self).countdown == cadence_next(old(self).countdown, JOBS_EVERY),
            final(self).cgroup == old(self).cgroup,
            final(self).running == old(self).running,
            final(self).listener == old(self).listener,
    {
        if self.countdown > 0 {
            self.countdown = self.countdown - 1;
            return false;
        }
        self.countdown = JOBS_EVERY;
        true
    }

    /// Takes the count made through the cgroup file (`None` when there is no
    /// cgroup file or it could not be read): workers and whether the listener
    /// is among the processes. Answers whether a full process scan is needed
    /// instead, which it is unless the listener was seen.
    pub fn counted(&mut self, count: Option<(u32, bool)>) -> (rescan: bool)
        ensures
            rescan == !(count matches Some((_, true))),
            match count {
                Some((w, true)) => final(self).running == w && final(self).listener,
                _ => final(self).running == old(self).running && final(self).listener == old(self).listener,
            },
            final(self).cgroup == old(self).cgroup,
            final(self).countdown == old(self).countdown,
    {
        match count {
            Some((w, true)) => {
                self.running = w;
                self.listener = true;
                false
            },
            _ => true,
        }
    }

    /// `offline` without a listener, `busy` while jobs run, `listening` otherwise.
    pub fn state(&self) -> (r: &'static str)
        ensures
            r@ == (if !self.listener {
                "offline"@
            } else if self.running > 0 {
                "busy"@
            } else {
                "listening"@
            }),
    {
        if !self.listener {
            "offline"
        } else if self.running > 0 {
            "busy"
        } else {
            "listening"
        }
    }
}

/// A run of refreshes from a fresh `Jobs`, `states[i + 1]` being what `tick` leaves of `states[i]`
/// and `due[i]` its answer: the count is due on refresh `i + 1` exactly when `i` is a multiple of
/// three.
pub proof fn law_jobs_every_third(states: Seq<Jobs>, due: Seq<bool>)
    requires
        states.len() == due.len() + 1,
        states[0].countdown == 0,
        forall|i: int|
            #![trigger due[i]]
            0 <= i < due.len() ==> due[i] == (states[i].countdown == 0)
                && states[i + 1].countdown == cadence_next(states[i].countdown, JOBS_EVERY),
    ensures
        forall|i: int| 0 <= i < due.len() ==> (#[trigger] due[i] <==> i % 3 == 0),
{
    let cs = states.map_values(|j: Jobs| j.countdown);
    assert(cs.len() == states.len());
    assert forall|j: int| 1 <= j < cs.len() implies #[trigger] cs[j] == cadence_next(cs[j - 1], JOBS_EVERY) by {
        let i = j - 1;
        assert(0 <= i < due.len());
        assert(due[i] == (states[i].countdown == 0));
        assert(cs[j] == states[j].countdown);
        assert(cs[i] == states[i].countdown);
    }
    law_run_due_every(cs, JOBS_EVERY);
    assert forall|i: int| 0 <= i < due.len() implies (#[trigger] due[i] <==> i % 3 == 0) by {
        assert(cs[i] == states[i].countdown);
    }
}

} // verus!
