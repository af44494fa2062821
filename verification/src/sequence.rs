//! Sequence numbers and the inclusive `[min, max]` range of numbers a
//! partition buffer has observed.

use vstd::prelude::*;

verus! {

/// A write's position in the totally ordered stream of writes applied to one
/// partition. Assigned externally by the write pipeline.
#[derive(Clone, Copy, Debug, PartialEq, Eq, Hash, Structural)]
pub struct SequenceNumber(i64);

impl SequenceNumber {
    /// Wrap a raw sequence value.
    pub fn new(v: i64) -> (r: Self)
        ensures
            r@ == v,
    {
        SequenceNumber(v)
    }

    /// The raw sequence value.
    pub fn get(&self) -> (r: i64)
        ensures
            r == self@,
    {
        self.0
    }
}

impl View for SequenceNumber {
    type V = i64;

    closed spec fn view(&self) -> i64 {
        self.0
    }
}

/// The inclusive `[min, max]` range of sequence numbers observed by a buffer,
/// or empty if nothing has been observed yet.
///
/// `observe` only ever widens the range: `max` tracks the largest value seen
/// and never decreases.
#[derive(Clone, Copy, Debug)]
pub struct SequenceNumberRange {
    range: Option<(i64, i64)>,
}

/// The mathematical model of a [`SequenceNumberRange`]: `None` for the empty
/// range, otherwise the inclusive bounds.
pub struct RangeModel {
    /// Smallest observed value, if any.
    pub min: Option<int>,
    /// Largest observed value, if any.
    pub max: Option<int>,
}

/// The model a range takes after observing `n`: a fresh range holds `[n, n]`,
/// a populated one keeps its minimum and records `n` as the new maximum.
pub open spec fn observed(m: RangeModel, n: int) -> RangeModel {
    match m.max {
        None => RangeModel { min: Some(n), max: Some(n) },
        Some(_) => RangeModel { min: m.min, max: Some(n) },
    }
}

impl View for SequenceNumberRange {
    type V = RangeModel;

    closed spec fn view(&self) -> RangeModel {
        match self.range {
            None => RangeModel { min: None, max: None },
            Some((lo, hi)) => RangeModel { min: Some(lo as int), max: Some(hi as int) },
        }
    }
}

impl SequenceNumberRange {
    /// A range is well formed when both bounds are present or both absent,
    /// and the bounds are ordered.
    pub open spec fn wf(&self) -> bool {
        match self@.max {
            None => self@.min is None,
            Some(hi) => self@.min matches Some(lo) && lo <= hi,
        }
    }

    /// An empty range: no sequence number observed yet.
    pub fn new() -> (r: Self)
        ensures
            r.wf(),
            r@.min is None,
            r@.max is None,
    {
        SequenceNumberRange { range: None }
    }

    /// A range with the given inclusive bounds.
    pub fn with_bounds(lo: i64, hi: i64) -> (r: Self)
        requires
            lo <= hi,
        ensures
            r.wf(),
            r@.min == Some(lo as int),
            r@.max == Some(hi as int),
    {
        SequenceNumberRange { range: Some((lo, hi)) }
    }

    /// Record the observation of `n`.
    ///
    /// Callers must present non-decreasing sequence numbers; observing a value
    /// equal to the current maximum leaves the range unchanged.
    pub fn observe(&mut self, n: SequenceNumber)
        requires
            old(self).wf(),
            old(self)@.max matches Some(hi) ==> n@ >= hi,
        ensures
            final(self).wf(),
            final(self)@ == observed(old(self)@, n@ as int),
    {
        self.range = Some(match self.range {
            Some((lo, _)) => (lo, n.0),
            None => (n.0, n.0),
        });
    }

    /// The smallest observed sequence number, if any.
    pub fn inclusive_min(&self) -> (r: Option<SequenceNumber>)
        ensures
            match r {
                None => self@.min is None,
                Some(v) => self@.min == Some(v@ as int),
            },
    {
        match self.range {
            None => None,
            Some((lo, _)) => Some(SequenceNumber(lo)),
        }
    }

    /// The largest observed sequence number, if any.
    pub fn inclusive_max(&self) -> (r: Option<SequenceNumber>)
        ensures
            match r {
                None => self@.max is None,
                Some(v) => self@.max == Some(v@ as int),
            },
    {
        match self.range {
            None => None,
            Some((_, hi)) => Some(SequenceNumber(hi)),
        }
    }
}

impl Default for SequenceNumberRange {
    /// The default range is empty.
    fn default() -> (r: Self)
        ensures
            r.wf(),
            r@.min is None,
            r@.max is None,
    {
        SequenceNumberRange::new()
    }
}

/// The range reached from `m` after observing every value of `ns` in order.
pub open spec fn observed_all(m: RangeModel, ns: Seq<int>) -> RangeModel
    decreases ns.len(),
{
    if ns.len() == 0 {
        m
    } else {
        observed_all(observed(m, ns[0]), ns.drop_first())
    }
}

/// After any non-empty, non-decreasing trace of observations on a fresh
/// range, the maximum equals the last (largest) value of the trace and the
/// minimum equals the first: the range tracks the extremes of everything it
/// observed, and the maximum never decreases as the trace extends.
pub proof fn lemma_monotonic_sequence_trace(m: RangeModel, ns: Seq<int>)
    requires
        m.min is None,
        m.max is None,
        ns.len() > 0,
        forall|i: int, j: int| 0 <= i <= j < ns.len() ==> ns[i] <= ns[j],
    ensures
        observed_all(m, ns).max == Some(ns[ns.len() - 1]),
        observed_all(m, ns).min == Some(ns[0]),
    decreases ns.len(),
{
    let m1 = observed(m, ns[0]);
    assert(observed_all(m, ns) == observed_all(m1, ns.drop_first()));
    if ns.len() == 1 {
        assert(observed_all(m1, ns.drop_first()) == m1);
    } else {
        lemma_observed_all_populated(m1, ns.drop_first());
    }
}

/// Observing a trace on a populated range keeps the minimum and moves the
/// maximum to the last value of the trace.
proof fn lemma_observed_all_populated(m: RangeModel, ns: Seq<int>)
    requires
        m.min is Some,
        m.max is Some,
        ns.len() > 0,
    ensures
        observed_all(m, ns).max == Some(ns[ns.len() - 1]),
        observed_all(m, ns).min == m.min,
    decreases ns.len(),
{
    let m1 = observed(m, ns[0]);
    assert(observed_all(m, ns) == observed_all(m1, ns.drop_first()));
    if ns.len() == 1 {
        assert(observed_all(m1, ns.drop_first()) == m1);
    } else {
        lemma_observed_all_populated(m1, ns.drop_first());
    }
}

} // verus!
