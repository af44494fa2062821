//! The partition buffer lifecycle: a finite state machine for buffering
//! writes and converting them into an immutable, queryable form on demand.
//!
//! ```text
//! Buffering --snapshot()--> Snapshot --into_persisting()--> Persisting
//! ```
//!
//! Writes are accepted only in `Buffering`; queries are possible in every
//! state; the transitions are one-way, move the data, and never rebuild it.
//! Every state carries the range of sequence numbers it has observed, and
//! callers must present monotonic sequence numbers.

use vstd::prelude::*;

use crate::batch::{BatchError, BatchModel, MutableBatch, RecordBatch, extended};
use crate::sequence::{RangeModel, SequenceNumber, SequenceNumberRange, observed};

verus! {

/// The mutable state: an open buffer accepting writes.
pub struct Buffering {
    buffer: MutableBatch,
}

/// The immutable state: an ordered list of frozen snapshots.
pub struct Snapshot {
    snapshots: Vec<RecordBatch>,
}

/// The terminal queryable state: the same snapshots, ready for the persister.
pub struct Persisting {
    batches: Vec<RecordBatch>,
}

/// A result type for fallible transitions. The state machine is always
/// returned to the caller, whichever way the transition went.
pub enum Transition<A, B> {
    /// The transition succeeded; the new state is contained within.
    Done(BufferState<A>),
    /// An invariant did not hold; the original state is contained within.
    Unchanged(BufferState<B>),
}

/// A state machine carrier: the current state and the bounding sequence
/// numbers observed so far.
pub struct BufferState<T> {
    state: T,
    sequence_range: SequenceNumberRange,
}

impl<A, B> Transition<A, B> {
    /// Construct the `Ok` variant.
    pub fn ok(v: A, sequence_range: SequenceNumberRange) -> (r: Transition<A, B>)
        ensures
            r matches Transition::Done(s) && s.spec_state() == v && s.range_model()
                == sequence_range@,
    {
        Transition::Done(BufferState { state: v, sequence_range })
    }

    /// Construct the `Unchanged` variant.
    pub fn unchanged(v: BufferState<B>) -> (r: Transition<A, B>)
        ensures
            r matches Transition::Unchanged(s) && s == v,
    {
        Transition::Unchanged(v)
    }
}

impl<T> BufferState<T> {
    /// The current state's payload.
    pub closed spec fn spec_state(&self) -> T {
        self.state
    }

    /// The model of the observed sequence range.
    pub closed spec fn range_model(&self) -> RangeModel {
        self.sequence_range@
    }

    /// The observed range is well formed.
    pub closed spec fn range_wf(&self) -> bool {
        self.sequence_range.wf()
    }

    /// The inclusive range of sequence numbers this buffer has observed.
    pub fn sequence_number_range(&self) -> (r: &SequenceNumberRange)
        ensures
            r@ == self.range_model(),
            r.wf() == self.range_wf(),
    {
        &self.sequence_range
    }
}

impl Buffering {
    /// The model of the buffered data.
    pub closed spec fn model(&self) -> BatchModel {
        self.buffer.model()
    }

    /// The buffered data is well formed.
    pub closed spec fn wf(&self) -> bool {
        self.buffer.wf()
    }
}

impl Snapshot {
    /// The models of the snapshots, in order.
    pub closed spec fn models(&self) -> Seq<BatchModel> {
        self.snapshots@.map_values(|rb: RecordBatch| rb.model())
    }

    /// The exact snapshot list (used to state that transitions move data).
    pub closed spec fn spec_data(&self) -> Seq<RecordBatch> {
        self.snapshots@
    }

    /// Every snapshot is well formed.
    pub closed spec fn wf(&self) -> bool {
        forall|i: int| 0 <= i < self.snapshots@.len() ==> (#[trigger] self.snapshots@[i]).wf()
    }
}

impl Persisting {
    /// The models of the batches, in order.
    pub closed spec fn models(&self) -> Seq<BatchModel> {
        self.batches@.map_values(|rb: RecordBatch| rb.model())
    }

    /// The exact batch list.
    pub closed spec fn spec_data(&self) -> Seq<RecordBatch> {
        self.batches@
    }

    /// Every batch is well formed.
    pub closed spec fn wf(&self) -> bool {
        forall|i: int| 0 <= i < self.batches@.len() ==> (#[trigger] self.batches@[i]).wf()
    }
}

impl BufferState<Buffering> {
    /// Initialise a new buffer state machine: an empty buffer and an empty
    /// sequence range.
    pub fn new() -> (r: Self)
        ensures
            r.spec_state().wf(),
            r.spec_state().model().rows == 0,
            r.spec_state().model().cols.len() == 0,
            r.range_wf(),
            r.range_model().min is None,
            r.range_model().max is None,
    {
        BufferState { state: Buffering { buffer: MutableBatch::new() }, sequence_range: SequenceNumberRange::new() }
    }

    /// Apply a write to the buffer and record its sequence number.
    ///
    /// The caller provides non-decreasing sequence numbers: a number below
    /// the current maximum is a caller bug and is excluded. A failed append
    /// (schema conflict) leaves buffer and range unchanged.
    pub fn write(&mut self, batch: MutableBatch, n: SequenceNumber) -> (r: Result<
        (),
        BatchError,
    >)
        requires
            old(self).spec_state().wf(),
            old(self).range_wf(),
            batch.wf(),
            old(self).spec_state().model().rows + batch.model().rows <= usize::MAX,
            old(self).range_model().max matches Some(hi) ==> n@ >= hi,
        ensures
            final(self).spec_state().wf(),
            final(self).range_wf(),
            match r {
                Ok(()) => extended(old(self).spec_state().model(), batch.model()) == Some(
                    final(self).spec_state().model(),
                ) && final(self).range_model() == observed(old(self).range_model(), n@ as int),
                Err(_) => {
                    &&& extended(old(self).spec_state().model(), batch.model()) is None
                    &&& final(self).spec_state().model() == old(self).spec_state().model()
                    &&& final(self).range_model() == old(self).range_model()
                },
            },
    {
        match self.state.buffer.extend_from(&batch) {
            Ok(()) => {
                self.sequence_range.observe(n);
                Ok(())
            },
            Err(e) => Err(e),
        }
    }

    /// Freeze a copy of the current buffer contents for a read. The buffer
    /// itself stays mutable.
    pub fn query_snapshot(&self) -> (r: RecordBatch)
        requires
            self.spec_state().wf(),
        ensures
            r.wf(),
            r.model() == self.spec_state().model(),
    {
        RecordBatch::freeze(self.state.buffer.clone_data())
    }

    /// Freeze the buffer into an immutable snapshot, preserving the sequence
    /// range. A buffer with no rows stays as it is.
    pub fn snapshot(self) -> (r: Transition<Snapshot, Buffering>)
        requires
            self.spec_state().wf(),
            self.range_wf(),
        ensures
            match r {
                Transition::Done(s) => {
                    &&& self.spec_state().model().rows > 0
                    &&& s.spec_state().wf()
                    &&& s.spec_state().models() == seq![self.spec_state().model()]
                    &&& s.range_model() == self.range_model()
                    &&& s.range_wf()
                },
                Transition::Unchanged(s) => {
                    &&& self.spec_state().model().rows == 0
                    &&& s == self
                },
            },
    {
        if self.state.buffer.rows() == 0 {
            return Transition::unchanged(self);
        }
        let BufferState { state, sequence_range } = self;
        let mut snapshots: Vec<RecordBatch> = Vec::new();
        snapshots.push(RecordBatch::freeze(state.buffer));
        let r = Transition::<Snapshot, Buffering>::ok(Snapshot { snapshots }, sequence_range);
        proof {
            match &r {
                Transition::Done(s) => {
                    assert(s.spec_state().models() =~= seq![self.spec_state().model()]);
                },
                Transition::Unchanged(_) => {},
            }
        }
        r
    }
}

impl BufferState<Snapshot> {
    /// The current buffer contents: an ordered list of shared, immutable
    /// snapshots. A pure read: consecutive calls return the same batches,
    /// nothing is copied.
    pub fn get_query_data(&self) -> (r: &Vec<RecordBatch>)
        ensures
            r@ == self.spec_state().spec_data(),
    {
        &self.state.snapshots
    }

    /// Move into the terminal persisting state. Infallible; the snapshots
    /// and the sequence range move without being copied or reordered.
    pub fn into_persisting(self) -> (r: BufferState<Persisting>)
        ensures
            r.spec_state().spec_data() == self.spec_state().spec_data(),
            r.range_model() == self.range_model(),
            r.range_wf() == self.range_wf(),
    {
        let BufferState { state, sequence_range } = self;
        BufferState { state: Persisting { batches: state.snapshots }, sequence_range }
    }
}

impl BufferState<Persisting> {
    /// The current buffer contents. A pure read: consecutive calls return
    /// the same batches, nothing is copied.
    pub fn get_query_data(&self) -> (r: &Vec<RecordBatch>)
        ensures
            r@ == self.spec_state().spec_data(),
    {
        &self.state.batches
    }

    /// Extract the immutable batch list for the compactor, moving it out.
    pub fn into_data(self) -> (r: Vec<RecordBatch>)
        ensures
            r@ == self.spec_state().spec_data(),
    {
        self.state.batches
    }
}

} // verus!
