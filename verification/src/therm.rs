//! SoC temperature, smoothed over the last few readings, and the cooling fan.
use vstd::prelude::*;
use crate::fmt::{pct, spec_pct};
use crate::probe::{has_prefix, negation_overflows, parse_i64, spec_parse_i64, starts_with};

verus! {

/// The cooling fan: whether one was found, and whether it spins.
pub struct Fan {
    pub present: bool,
    pub on: Option<bool>,
}

impl Fan {
    /// A fan, found or not; its state is unknown until the first refresh.
    pub fn new(present: bool) -> (r: Fan)
        ensures
            r.present == present,
            r.on is None,
    {
        Fan { present, on: None }
    }

    /// One refresh with the content just read from the fan's state file
    /// (`None` when the read failed). A fan spins when its level is above 0.
    pub fn tick(&mut self, data: Option<&[u8]>)
        requires
            data matches Some(d) ==> !negation_overflows(d@),
        ensures
            final(self).present == old(self).present,
            final(self).on == (if old(self).present && data is Some {
                match spec_parse_i64(data.unwrap()@) {
                    Some(v) => Some(v > 0),
                    None => None,
                }
            } else {
                old(self).on
            }),
    {
        if !self.present {
            return;
        }
        if let Some(d) = data {
            self.on = match parse_i64(d) {
                Some(v) => Some(v > 0),
                None => None,
            };
        }
    }

    /// `fan ON`, `fan OFF`, or `fan --` when the state is unknown.
    pub fn label(&self) -> (r: &'static str)
        ensures
            r@ == spec_fan_label(self.on),
    {
        match self.on {
            Some(true) => "fan ON",
            Some(false) => "fan OFF",
            None => "fan --",
        }
    }
}

/// `fan ON`, `fan OFF`, or `fan --` when the state is unknown.
pub open spec fn spec_fan_label(on: Option<bool>) -> Seq<char> {
    match on {
        Some(true) => "fan ON"@,
        Some(false) => "fan OFF"@,
        None => "fan --"@,
    }
}

/// Readings averaged.
pub const WINDOW: usize = 4;

/// Millidegrees shown as an empty temperature bar.
pub const COLD: i64 = 30_000;

/// Millidegrees shown as a full bar, where the SoC starts to throttle.
pub const HOT: i64 = 85_000;

/// Sum of a list of readings.
pub open spec fn sum(s: Seq<i64>) -> int
    decreases s.len(),
{
    if s.len() == 0 {
        0
    } else {
        sum(s.drop_last()) + s.last()
    }
}

/// The last `WINDOW` readings of `s`, or all of them when there are fewer.
pub open spec fn keep_last(s: Seq<i64>) -> Seq<i64> {
    if s.len() > 4 {
        s.skip(s.len() - 4)
    } else {
        s
    }
}

/// Integer division rounding toward zero, as Rust's `/` on `i64` does.
pub open spec fn trunc_div(a: int, b: int) -> int {
    if a >= 0 {
        a / b
    } else {
        -((-a) / b)
    }
}

/// The mean of the readings, rounded toward zero.
pub open spec fn average(s: Seq<i64>) -> int {
    trunc_div(sum(s), s.len() as int)
}

/// Every running sum of `s`, in order, fits in an `i64`.
pub open spec fn prefix_sums_fit(s: Seq<i64>) -> bool {
    forall|k: int| 0 <= k <= s.len() ==> i64::MIN <= #[trigger] sum(s.take(k)) <= i64::MAX
}

/// The readings that one more reading `v` leaves in the window: the window
/// with `v` at the write position, up to the filled length.
pub open spec fn after_write(window: Seq<i64>, filled: nat, head: nat, v: i64) -> Seq<i64> {
    window.update(head as int, v).take(
        if filled < 4 {
            filled + 1 as int
        } else {
            4int
        },
    )
}

/// The temperature in millidegrees, averaged over the last `WINDOW`
/// readings to damp the sensor's quantisation.
pub struct Therm {
    /// A ring of the last readings.
    pub window: [i64; 4],
    /// How many slots hold readings.
    pub filled: usize,
    /// The slot the next reading goes to.
    pub head: usize,
    pub milli_c: Option<i64>,
}

impl Default for Therm {
    fn default() -> (r: Therm)
        ensures
            r.wf(),
            r.recent().len() == 0,
            r.milli_c is None,
    {
        Therm::new()
    }
}

impl Therm {
    /// The write position and the fill count lie within the window, so that
    /// a reading can be stored and the held ones summed.
    pub open spec fn in_bounds(&self) -> bool {
        &&& self.filled <= 4
        &&& self.head < 4
    }

    /// The ring is consistent: until it is full, readings fill it from the
    /// start and the write position follows them.
    pub open spec fn wf(&self) -> bool {
        &&& self.in_bounds()
        &&& self.filled < 4 ==> self.head == self.filled
    }

    /// The readings held, oldest first.
    pub open spec fn recent(&self) -> Seq<i64> {
        if self.filled < 4 {
            self.window@.take(self.filled as int)
        } else {
            self.window@.skip(self.head as int) + self.window@.take(self.head as int)
        }
    }

    /// The sums taken when reading `v` is added do not overflow.
    pub open spec fn accepts(&self, v: i64) -> bool {
        prefix_sums_fit(after_write(self.window@, self.filled as nat, self.head as nat, v))
    }

    /// No reading yet.
    pub fn new() -> (r: Therm)
        ensures
            r.wf(),
            r.recent().len() == 0,
            r.milli_c is None,
            r.window@ == seq![0i64, 0i64, 0i64, 0i64],
            r.filled == 0,
            r.head == 0,
    {
        let t = Therm { window: [0i64, 0i64, 0i64, 0i64], filled: 0, head: 0, milli_c: None };
        assert(t.recent() =~= Seq::<i64>::empty());
        assert(t.window@ =~= seq![0i64, 0i64, 0i64, 0i64]);
        t
    }

    /// Whether reading `v` can be added without overflowing the sum, which
    /// `tick` needs.
    pub fn accepts_reading(&self, v: i64) -> (r: bool)
        requires
            self.in_bounds(),
        ensures
            r == self.accepts(v),
    {
        let n: usize = if self.filled < 4 {
            self.filled + 1
        } else {
            4
        };
        let ghost ws = after_write(self.window@, self.filled as nat, self.head as nat, v);
        let mut total: i128 = 0;
        let mut i: usize = 0;
        let mut ok = true;
        assert(ws.take(0) =~= Seq::<i64>::empty());
        while i < n
            invariant
                n <= 4,
                ws.len() == n,
                self.head < 4,
                ws == after_write(self.window@, self.filled as nat, self.head as nat, v),
                i <= n,
                total == sum(ws.take(i as int)),
                -(i as int) * 0x8000_0000_0000_0000 <= total <= (i as int) * 0x8000_0000_0000_0000,
                ok == forall|k: int| 0 <= k <= i ==> i64::MIN <= #[trigger] sum(ws.take(k)) <= i64::MAX,
            decreases n - i,
        {
            assert(ws.take(i + 1).drop_last() =~= ws.take(i as int));
            let x: i64 = if i == self.head {
                v
            } else {
                self.window[i]
            };
            assert(x == ws[i as int]);
            total = total + x as i128;
            let ghost prev_ok = ok;
            let in_range = !(total < i64::MIN as i128 || total > i64::MAX as i128);
            ok = ok && in_range;
            i = i + 1;
            proof {
                if ok {
                    assert forall|k: int| 0 <= k <= i implies i64::MIN <= #[trigger] sum(
                        ws.take(k),
                    ) <= i64::MAX by {
                        if k < i {
                            assert(prev_ok);
                        }
                    }
                } else if !in_range {
                    assert(!(i64::MIN <= sum(ws.take(i as int)) <= i64::MAX));
                } else {
                    let k = choose|k: int|
                        0 <= k <= i - 1 && !(i64::MIN <= #[trigger] sum(ws.take(k)) <= i64::MAX);
                    assert(!(i64::MIN <= sum(ws.take(k)) <= i64::MAX));
                }
            }
        }
        assert(ws.take(n as int) =~= ws);
        ok
    }

    /// One refresh with the content just read from the sensor (`None` when
    /// the read failed). A reading that parses is stored at the write
    /// position, which moves on, and the temperature becomes the mean of the
    /// filled slots; in a consistent ring that is joining the window,
    /// evicting the oldest reading once the window is full, and taking the
    /// mean of the readings held.
    pub fn tick(&mut self, data: Option<&[u8]>)
        requires
            old(self).in_bounds(),
            data matches Some(d) ==> !negation_overflows(d@) && (spec_parse_i64(d@) matches Some(
                v,
            ) ==> old(self).accepts(v)),
        ensures
            final(self).in_bounds(),
            old(self).wf() ==> final(self).wf(),
            match data {
                Some(d) => match spec_parse_i64(d@) {
                    Some(v) => {
                        &&& final(self).window@ == old(self).window@.update(old(self).head as int, v)
                        &&& final(self).head == (old(self).head + 1) % 4
                        &&& final(self).filled == (if old(self).filled < 4 {
                            old(self).filled + 1
                        } else {
                            4
                        })
                        &&& final(self).milli_c == Some(
                            average(final(self).window@.take(final(self).filled as int)) as i64,
                        )
                        &&& old(self).wf() ==> final(self).recent() == keep_last(
                            old(self).recent().push(v),
                        )
                        &&& old(self).wf() ==> final(self).milli_c == Some(
                            average(final(self).recent()) as i64,
                        )
                    },
                    None => *final(self) == *old(self),
                },
                None => *final(self) == *old(self),
            },
    {
        let d = match data {
            None => return,
            Some(d) => d,
        };
        let v = match parse_i64(d) {
            None => return,
            Some(v) => v,
        };
        let ghost old_recent = self.recent();
        let ghost ws = after_write(self.window@, self.filled as nat, self.head as nat, v);
        let ghost w0 = self.window@;
        let ghost h0 = self.head as int;
        let ghost f0 = self.filled as int;
        self.window[self.head] = v;
        self.head = (self.head + 1) % 4;
        if self.filled < 4 {
            self.filled = self.filled + 1;
        }
        let ghost w1 = self.window@;
        assert(w1 =~= w0.update(h0, v));
        assert(ws =~= w1.take(self.filled as int));
        let mut total: i64 = 0;
        let mut i: usize = 0;
        assert(ws.take(0) =~= Seq::<i64>::empty());
        while i < self.filled
            invariant
                self.filled <= 4,
                self.window@ == w1,
                ws == w1.take(self.filled as int),
                prefix_sums_fit(ws),
                i <= self.filled,
                total == sum(ws.take(i as int)),
            decreases self.filled - i,
        {
            assert(ws.take(i + 1).drop_last() =~= ws.take(i as int));
            assert(i64::MIN <= sum(ws.take(i + 1)) <= i64::MAX);
            total = total + self.window[i];
            i = i + 1;
        }
        assert(ws.take(self.filled as int) =~= ws);
        proof {
            if f0 < 4 && h0 == f0 {
                assert(old_recent =~= w0.take(f0));
                if f0 + 1 < 4 {
                    assert(self.recent() =~= old_recent.push(v));
                } else {
                    assert(self.recent() =~= w1);
                    assert(w1 =~= old_recent.push(v));
                }
                assert(keep_last(old_recent.push(v)) =~= old_recent.push(v));
                assert(self.recent() =~= ws);
            } else if f0 >= 4 {
                let h1 = self.head as int;
                assert(keep_last(old_recent.push(v)) =~= w0.skip(h0 + 1) + w0.take(h0).push(v));
                assert(w1.take(h0 + 1) =~= w0.take(h0).push(v));
                assert(w1.skip(h0 + 1) =~= w0.skip(h0 + 1));
                if h0 + 1 < 4 {
                    assert(h1 == h0 + 1);
                    assert(self.recent() =~= w1.skip(h1) + w1.take(h1));
                } else {
                    assert(h1 == 0);
                    assert(self.recent() =~= w1);
                    assert(w0.skip(h0 + 1) =~= Seq::<i64>::empty());
                }
                assert(self.recent() =~= keep_last(old_recent.push(v)));
                lemma_sum_concat(w1.take(h1), w1.skip(h1));
                lemma_sum_concat(w1.skip(h1), w1.take(h1));
                assert(w1 =~= w1.take(h1) + w1.skip(h1));
                assert(ws =~= w1);
            }
        }
        let n = self.filled as i64;
        self.milli_c = Some(total / n);
    }

    /// Position of the temperature between `COLD` (0) and `HOT` (100) for the
    /// bar; 0 without a reading.
    pub fn percent_of_range(&self) -> (r: u16)
        ensures
            r == spec_percent_of_range(self.milli_c),
    {
        let t = match self.milli_c {
            None => return 0,
            Some(t) => t,
        };
        if t <= COLD {
            return 0;
        }
        pct((t - COLD) as u64, (HOT - COLD) as u64)
    }
}

/// Position of a temperature between `COLD` and `HOT`, in percent.
pub open spec fn spec_percent_of_range(milli_c: Option<i64>) -> u16 {
    match milli_c {
        None => 0,
        Some(t) => if t <= COLD {
            0
        } else {
            spec_pct((t - COLD) as u64, (HOT - COLD) as u64)
        },
    }
}

pub proof fn lemma_sum_concat(a: Seq<i64>, b: Seq<i64>)
    ensures
        sum(a + b) == sum(a) + sum(b),
    decreases b.len(),
{
    if b.len() == 0 {
        assert(a + b =~= a);
    } else {
        lemma_sum_concat(a, b.drop_last());
        assert((a + b).drop_last() =~= a + b.drop_last());
    }
}

/// The readings a window holds after being fed `samples`, first to last,
/// from empty.
pub open spec fn fed(samples: Seq<i64>) -> Seq<i64>
    decreases samples.len(),
{
    if samples.len() == 0 {
        Seq::empty()
    } else {
        keep_last(fed(samples.drop_last()).push(samples.last()))
    }
}

/// The window holds exactly the last `WINDOW` readings, or all readings
/// while there are fewer: each new reading evicts the oldest.
pub proof fn law_window_keeps_last_four(samples: Seq<i64>)
    ensures
        fed(samples) == keep_last(samples),
    decreases samples.len(),
{
    if samples.len() > 0 {
        let p = samples.drop_last();
        law_window_keeps_last_four(p);
        let x = samples.last();
        if p.len() >= 4 {
            assert(keep_last(keep_last(p).push(x)) =~= keep_last(samples));
        } else {
            assert(keep_last(p).push(x) =~= samples);
        }
    }
}

/// A tick continues the history: a window holding what `samples` left holds,
/// after reading `v`, what `samples` followed by `v` leaves. With
/// `law_window_keeps_last_four` and `Therm::tick`, the temperature after any
/// run of readings is the mean of the last four of them (of all of them
/// while there are fewer), rounded toward zero.
pub proof fn law_tick_extends_history(samples: Seq<i64>, v: i64)
    ensures
        keep_last(fed(samples).push(v)) == fed(samples.push(v)),
        fed(samples.push(v)) == keep_last(samples.push(v)),
{
    assert(samples.push(v).drop_last() =~= samples);
    law_window_keeps_last_four(samples.push(v));
}

proof fn lemma_run_recent(states: Seq<Therm>, vs: Seq<i64>, i: int)
    requires
        states.len() == vs.len() + 1,
        states[0].recent() == Seq::<i64>::empty(),
        forall|j: int|
            0 <= j < vs.len() ==> #[trigger] states[j + 1].recent() == keep_last(
                states[j].recent().push(vs[j]),
            ),
        0 <= i <= vs.len(),
    ensures
        states[i].recent() == fed(vs.take(i)),
    decreases i,
{
    if i == 0 {
        assert(vs.take(0) =~= Seq::<i64>::empty());
    } else {
        lemma_run_recent(states, vs, i - 1);
        assert(states[(i - 1) + 1].recent() == keep_last(states[i - 1].recent().push(vs[i - 1])));
        assert(vs.take(i).drop_last() =~= vs.take(i - 1));
        assert(vs.take(i).last() == vs[i - 1]);
    }
}

/// A run of readings from a fresh `Therm`: `states[i + 1]` is what `tick`
/// leaves of `states[i]` when reading `vs[i]` parses (the clauses of `tick`
/// for a consistent ring). After each reading the temperature is the mean,
/// rounded toward zero, of the last four readings so far (of all of them
/// while there are fewer).
pub proof fn law_temperature_is_recent_mean(states: Seq<Therm>, vs: Seq<i64>)
    requires
        states.len() == vs.len() + 1,
        states[0].recent() == Seq::<i64>::empty(),
        forall|j: int|
            0 <= j < vs.len() ==> #[trigger] states[j + 1].recent() == keep_last(
                states[j].recent().push(vs[j]),
            ) && states[j + 1].milli_c == Some(average(states[j + 1].recent()) as i64),
    ensures
        forall|i: int|
            1 <= i <= vs.len() ==> #[trigger] states[i].milli_c == Some(
                average(keep_last(vs.take(i))) as i64,
            ),
{
    assert forall|i: int| 1 <= i <= vs.len() implies #[trigger] states[i].milli_c == Some(
        average(keep_last(vs.take(i))) as i64,
    ) by {
        lemma_run_recent(states, vs, i);
        law_window_keeps_last_four(vs.take(i));
        assert(states[(i - 1) + 1].milli_c == Some(average(states[(i - 1) + 1].recent()) as i64));
    }
}

/// The temperature bar is empty at or below `COLD`, full at or above `HOT`,
/// and never beyond full.
pub proof fn law_range_percent(t: i64)
    ensures
        spec_percent_of_range(Some(t)) <= 100,
        t <= COLD ==> spec_percent_of_range(Some(t)) == 0,
        t >= HOT ==> spec_percent_of_range(Some(t)) == 100,
        spec_percent_of_range(None) == 0,
{
    if t > COLD {
        crate::fmt::law_pct_bounded((t - COLD) as u64, (HOT - COLD) as u64);
        if t >= HOT {
            let num = (t - COLD) as u64;
            assert(num * 100 >= 55000 * 100);
            assert((num as nat) * 100 / 55000 >= 100) by (nonlinear_arith)
                requires
                    num >= 55000,
            ;
        }
    }
}

/// The bytes `gpio_fan`.
pub open spec fn label_gpio_fan() -> Seq<u8> {
    seq![103u8, 112u8, 105u8, 111u8, 95u8, 102u8, 97u8, 110u8]
}

/// The bytes `pwm_fan`.
pub open spec fn label_pwm_fan() -> Seq<u8> {
    seq![112u8, 119u8, 109u8, 95u8, 102u8, 97u8, 110u8]
}

/// A hwmon device whose `name` file names a fan driver (`gpio_fan`, `pwm_fan`).
pub fn is_fan_driver(name: &[u8]) -> (r: bool)
    ensures
        r == (starts_with(name@, label_gpio_fan()) || starts_with(name@, label_pwm_fan())),
{
    let gpio: [u8; 8] = [103u8, 112u8, 105u8, 111u8, 95u8, 102u8, 97u8, 110u8];
    let pwm: [u8; 7] = [112u8, 119u8, 109u8, 95u8, 102u8, 97u8, 110u8];
    assert(gpio@ =~= label_gpio_fan());
    assert(pwm@ =~= label_pwm_fan());
    has_prefix(name, vstd::array::array_as_slice(&gpio)) || has_prefix(
        name,
        vstd::array::array_as_slice(&pwm),
    )
}

/// `s` holds `fan` somewhere.
pub open spec fn mentions_fan(s: Seq<char>) -> bool {
    exists|k: int| 0 <= k && k + 3 <= s.len() && #[trigger] s.subrange(k, k + 3) == seq!['f', 'a', 'n']
}

/// A thermal cooling device whose `type` names a fan.
pub fn is_fan_cooling(ty: &str) -> (r: bool)
    ensures
        r == mentions_fan(ty@),
{
    let n = ty.unicode_len();
    let mut k: usize = 0;
    while n >= 3 && k <= n - 3
        invariant
            n == ty@.len(),
            k <= n,
            forall|j: int| 0 <= j < k && j + 3 <= n ==> #[trigger] ty@.subrange(j, j + 3) != seq![
                'f',
                'a',
                'n',
            ],
        decreases n - k,
    {
        if ty.get_char(k) == 'f' && ty.get_char(k + 1) == 'a' && ty.get_char(k + 2) == 'n' {
            assert(ty@.subrange(k as int, k + 3) =~= seq!['f', 'a', 'n']);
            return true;
        }
        assert(ty@.subrange(k as int, k + 3)[0] == ty@[k as int]);
        assert(ty@.subrange(k as int, k + 3)[1] == ty@[k + 1]);
        assert(ty@.subrange(k as int, k + 3)[2] == ty@[k + 2]);
        k = k + 1;
    }
    false
}

} // verus!
