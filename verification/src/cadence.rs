//! Countdowns that make a reading due every few refreshes.
use vstd::prelude::*;

verus! {

/// The countdown after one refresh: a reading is due at 0 and the countdown
/// returns to `reset`; otherwise it goes down by one.
pub open spec fn cadence_next(c: u8, reset: u8) -> u8 {
    if c == 0 {
        reset
    } else {
        (c - 1) as u8
    }
}

/// The countdown after `k` refreshes that started from 0.
pub open spec fn cadence_after(k: nat, reset: u8) -> u8
    decreases k,
{
    if k == 0 {
        0
    } else {
        cadence_next(cadence_after((k - 1) as nat, reset), reset)
    }
}

proof fn lemma_mod_step(k: int, n: int)
    by (nonlinear_arith)
    requires
        k >= 1,
        n >= 1,
    ensures
        k % n == (if (k - 1) % n == n - 1 {
            0
        } else {
            (k - 1) % n + 1
        }),
{
}

/// A countdown that starts at 0 and returns to `reset` when a reading is due
/// stands at `reset + 1 - (k as int) % (reset + 1)` after `k` refreshes (0 when that
/// remainder is 0): the reading is due on refresh `k + 1` exactly when `k` is a
/// multiple of `reset + 1`.
pub proof fn law_due_every(k: nat, reset: u8)
    ensures
        cadence_after(k, reset) == (if (k as int) % (reset + 1) == 0 {
            0
        } else {
            reset + 1 - (k as int) % (reset + 1)
        }),
        (cadence_after(k, reset) == 0) <==> (k as int) % (reset + 1) == 0,
    decreases k,
{
    if k > 0 {
        law_due_every((k - 1) as nat, reset);
        lemma_mod_step(k as int, reset + 1);
    }
}

proof fn lemma_run_is_after(cs: Seq<u8>, reset: u8, i: int)
    requires
        0 <= i < cs.len(),
        cs[0] == 0,
        forall|j: int| 1 <= j < cs.len() ==> #[trigger] cs[j] == cadence_next(cs[j - 1], reset),
    ensures
        cs[i] == cadence_after(i as nat, reset),
    decreases i,
{
    if i > 0 {
        lemma_run_is_after(cs, reset, i - 1);
        assert(cs[i] == cadence_next(cs[i - 1], reset));
    }
}

/// A run of countdowns that starts at 0 and takes each next value by
/// `cadence_next` is 0, so that a reading is due, exactly at the positions
/// that are multiples of `reset + 1`.
pub proof fn law_run_due_every(cs: Seq<u8>, reset: u8)
    requires
        cs.len() > 0,
        cs[0] == 0,
        forall|j: int| 1 <= j < cs.len() ==> #[trigger] cs[j] == cadence_next(cs[j - 1], reset),
    ensures
        forall|i: int| 0 <= i < cs.len() ==> (#[trigger] cs[i] == 0 <==> i % (reset + 1) == 0),
{
    assert forall|i: int| 0 <= i < cs.len() implies (#[trigger] cs[i] == 0 <==> i % (reset + 1) == 0) by {
        lemma_run_is_after(cs, reset, i);
        law_due_every(i as nat, reset);
    }
}

} // verus!
