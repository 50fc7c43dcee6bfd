//! Cyclic time shifts of agent time series.
use vstd::prelude::*;
use vstd::arithmetic::div_mod::{lemma_add_mod_noop, lemma_small_mod};

verus! {

/// A shift in time by a (possibly negative) number of steps.
#[derive(Clone, Copy, Debug, PartialEq, Eq)]
pub struct TimeShift {
    /// Number of steps to shift.
    pub steps: i64,
}

/// Row that feeds row `i` of a length-`n` series shifted by `steps`:
/// `(i + steps) mod n`, taken in `0..n`.
pub open spec fn shift_source(steps: int, i: int, n: int) -> int {
    (i + steps) % n
}

impl TimeShift {
    pub fn new(steps: i64) -> (r: Self)
        ensures
            r.steps == steps,
    {
        TimeShift { steps }
    }

    /// The shift by the opposite number of steps.
    pub fn inverse(&self) -> (r: Self)
        requires
            self.steps != i64::MIN,
        ensures
            r.steps == -self.steps,
    {
        TimeShift { steps: -self.steps }
    }

    /// The shift by the sum of the two step counts.
    pub fn compose(&self, other: &Self) -> (r: Self)
        requires
            i64::MIN <= self.steps + other.steps <= i64::MAX,
        ensures
            r.steps == self.steps + other.steps,
    {
        TimeShift { steps: self.steps + other.steps }
    }

    /// The shift by zero steps.
    pub fn identity() -> (r: Self)
        ensures
            r.steps == 0,
    {
        TimeShift { steps: 0 }
    }

    /// The row of a length-`n` series that lands in row `i` when the series is
    /// shifted: `(i + steps) mod n`.
    pub fn source_index(&self, i: usize, n: usize) -> (r: usize)
        requires
            i < n,
        ensures
            r as int == shift_source(self.steps as int, i as int, n as int),
            r < n,
    {
        let t: i128 = i as i128 + self.steps as i128;
        let m: i128 = n as i128;
        match t.checked_rem_euclid(m) {
            Some(v) => v as usize,
            None => 0,
        }
    }
}

/// Law: shifting by zero steps leaves every row in place.
pub proof fn lemma_shift_identity(i: int, n: int)
    requires
        0 <= i < n,
    ensures
        shift_source(0, i, n) == i,
{
    lemma_small_mod(i as nat, n as nat);
}

/// Law: shifting by `a` and then by `b` reads the same rows as shifting by
/// `a + b` (the composed shift).
pub proof fn lemma_shift_compose(a: int, b: int, i: int, n: int)
    requires
        0 <= i < n,
    ensures
        shift_source(b, shift_source(a, i, n), n) == shift_source(a + b, i, n),
{
    lemma_add_mod_noop(i + a, b, n);
    vstd::arithmetic::div_mod::lemma_mod_twice(b, n);
    lemma_add_mod_noop((i + a) % n, b, n);
    vstd::arithmetic::div_mod::lemma_mod_twice(i + a, n);
    assert(i + a + b == i + (a + b));
}

/// Law: shifting by `a` and then by `-a` returns every row to its place.
pub proof fn lemma_shift_inverse(a: int, i: int, n: int)
    requires
        0 <= i < n,
    ensures
        shift_source(-a, shift_source(a, i, n), n) == i,
{
    lemma_shift_compose(a, -a, i, n);
    lemma_shift_identity(i, n);
}

} // verus!
