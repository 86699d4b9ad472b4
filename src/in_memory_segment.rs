//! A segment held in memory, with the read, truncate and seal rules of the
//! segment store: what a byte stream runs against when no server is at hand.
use vstd::prelude::*;
use crate::shared::copy_range;

verus! {

/// What a segment holds: every byte ever appended, the first readable offset,
/// and whether it is sealed.
pub ghost struct SegmentState {
    pub data: Seq<u8>,
    pub head: int,
    pub sealed: bool,
}

/// Bytes returned by a read, and whether the read ran into the end of a sealed
/// segment.
#[derive(Debug)]
pub struct SegmentRead {
    pub data: Vec<u8>,
    pub end_of_segment: bool,
}

/// Why a read got no reply with data.
#[derive(Clone, Copy, Debug, PartialEq, Eq, Structural)]
pub enum ReaderError {
    /// The offset lies before the segment's head: the data was truncated away.
    NoSuchSegment,
}

/// Why the segment refused a change.
#[derive(Clone, Copy, Debug, PartialEq, Eq, Structural)]
pub enum SegmentError {
    /// The segment is sealed and takes no more bytes.
    SegmentIsSealed,
    /// The truncation offset is negative or beyond the tail.
    InvalidOffset,
}

/// A read reply as plain values.
pub open spec fn read_view(r: Result<SegmentRead, ReaderError>) -> Result<(Seq<u8>, bool), ReaderError> {
    match r {
        Ok(cmd) => Ok((cmd.data@, cmd.end_of_segment)),
        Err(e) => Err(e),
    }
}

/// The reply to a read of up to `length` bytes at `offset`: an offset before the
/// head fails; on a sealed segment a read that reaches beyond the tail reports
/// the end of the segment; otherwise the bytes from `offset` up to the tail,
/// at most `length` of them.
pub open spec fn read_spec(st: SegmentState, offset: int, length: int) -> Result<(Seq<u8>, bool), ReaderError> {
    if offset < st.head {
        Err(ReaderError::NoSuchSegment)
    } else if st.sealed && offset + length > st.data.len() {
        Ok((Seq::empty(), true))
    } else if offset >= st.data.len() {
        Ok((Seq::empty(), false))
    } else {
        let end = if offset + length < st.data.len() { offset + length } else { st.data.len() as int };
        Ok((st.data.subrange(offset, end), false))
    }
}

/// The state after `bytes` were appended.
pub open spec fn append_spec(st: SegmentState, bytes: Seq<u8>) -> Result<SegmentState, SegmentError> {
    if st.sealed {
        Err(SegmentError::SegmentIsSealed)
    } else {
        Ok(SegmentState { data: st.data + bytes, ..st })
    }
}

/// The state after the data before `offset` was truncated away. The head never
/// moves back.
pub open spec fn truncate_spec(st: SegmentState, offset: int) -> Result<SegmentState, SegmentError> {
    if offset < 0 || offset > st.data.len() {
        Err(SegmentError::InvalidOffset)
    } else {
        Ok(SegmentState { head: if offset > st.head { offset } else { st.head }, ..st })
    }
}

/// A change to a segment.
pub ghost enum SegmentOp {
    Append(Seq<u8>),
    Truncate(int),
    Seal,
}

/// The segment after one change; a refused change leaves it as it was.
pub open spec fn apply_op(st: SegmentState, op: SegmentOp) -> SegmentState {
    match op {
        SegmentOp::Append(bytes) => match append_spec(st, bytes) {
            Ok(s) => s,
            Err(_) => st,
        },
        SegmentOp::Truncate(offset) => match truncate_spec(st, offset) {
            Ok(s) => s,
            Err(_) => st,
        },
        SegmentOp::Seal => SegmentState { sealed: true, ..st },
    }
}

/// The offset that `op` truncated `st` at, if it is a truncation that succeeded.
pub open spec fn truncated_to(st: SegmentState, op: SegmentOp) -> Option<int> {
    match op {
        SegmentOp::Truncate(t) => if truncate_spec(st, t) is Ok { Some(t) } else { None },
        _ => None,
    }
}

/// The segment after the changes `ops`, in order.
pub open spec fn apply_ops(st: SegmentState, ops: Seq<SegmentOp>) -> SegmentState
    decreases ops.len(),
{
    if ops.len() == 0 {
        st
    } else {
        apply_op(apply_ops(st, ops.drop_last()), ops.last())
    }
}

/// The head never moves back, whatever appends, truncations and seals come
/// in between; after a truncation at `t` that succeeded it is at least `t`.
pub proof fn lemma_head_never_moves_back(st: SegmentState, ops: Seq<SegmentOp>)
    ensures
        apply_ops(st, ops).head >= st.head,
        forall|i: int| #![trigger ops[i]] 0 <= i < ops.len() && truncated_to(apply_ops(st, ops.take(i)), ops[i]) is Some
            ==> apply_ops(st, ops).head >= truncated_to(apply_ops(st, ops.take(i)), ops[i])->Some_0,
    decreases ops.len(),
{
    if ops.len() > 0 {
        let init = ops.drop_last();
        lemma_head_never_moves_back(st, init);
        assert forall|i: int| #![trigger ops[i]] 0 <= i < ops.len() && truncated_to(apply_ops(st, ops.take(i)), ops[i]) is Some
            implies apply_ops(st, ops).head >= truncated_to(apply_ops(st, ops.take(i)), ops[i])->Some_0 by {
            if i < ops.len() - 1 {
                assert(init[i] == ops[i]);
                assert(init.take(i) =~= ops.take(i));
            } else {
                assert(ops.take(i) =~= init);
            }
        }
    }
}


/// A segment held in memory.
pub struct InMemorySegment {
    data: Vec<u8>,
    head: i64,
    sealed: bool,
}

impl View for InMemorySegment {
    type V = SegmentState;

    closed spec fn view(&self) -> SegmentState {
        SegmentState { data: self.data@, head: self.head as int, sealed: self.sealed }
    }
}

impl InMemorySegment {
    /// The head lies within the data, whose length fits in an `i64`.
    pub closed spec fn wf(&self) -> bool {
        0 <= self.head <= self.data@.len() <= i64::MAX
    }

    /// An empty, open segment.
    pub fn new() -> (r: InMemorySegment)
        ensures
            r.wf(),
            r@ == (SegmentState { data: Seq::empty(), head: 0, sealed: false }),
    {
        InMemorySegment { data: Vec::new(), head: 0, sealed: false }
    }

    /// Appends `bytes` at the tail; fails on a sealed segment.
    pub fn append(&mut self, bytes: &[u8]) -> (res: Result<(), SegmentError>)
        requires
            old(self).wf(),
            old(self)@.data.len() + bytes@.len() <= i64::MAX,
        ensures
            final(self).wf(),
            match append_spec(old(self)@, bytes@) {
                Ok(st) => res is Ok && final(self)@ == st,
                Err(e) => res == Err::<(), SegmentError>(e) && final(self)@ == old(self)@,
            },
    {
        if self.sealed {
            return Err(SegmentError::SegmentIsSealed);
        }
        let ghost before = self.data@;
        let mut i: usize = 0;
        while i < bytes.len()
            invariant
                i <= bytes@.len(),
                self.data@ == before + bytes@.subrange(0, i as int),
                self.head == old(self).head,
                self.sealed == old(self).sealed,
            decreases bytes@.len() - i,
        {
            self.data.push(bytes[i]);
            proof {
                assert(self.data@ =~= before + bytes@.subrange(0, i + 1));
            }
            i = i + 1;
        }
        proof {
            assert(bytes@.subrange(0, bytes@.len() as int) =~= bytes@);
        }
        Ok(())
    }

    /// Reads up to `length` bytes at `offset`.
    pub fn read(&self, offset: i64, length: usize) -> (res: Result<SegmentRead, ReaderError>)
        requires
            self.wf(),
        ensures
            read_view(res) == read_spec(self@, offset as int, length as int),
    {
        if offset < self.head {
            return Err(ReaderError::NoSuchSegment);
        }
        let tail = self.data.len() as i64;
        if self.sealed && (length as u128 > tail as u128 || offset > tail - length as i64) {
            return Ok(SegmentRead { data: Vec::new(), end_of_segment: true });
        }
        if offset >= tail {
            return Ok(SegmentRead { data: Vec::new(), end_of_segment: false });
        }
        let start = offset as usize;
        let len = self.data.len();
        let end = if length < len - start { start + length } else { len };
        let data = copy_range(self.data.as_slice(), start, end);
        Ok(SegmentRead { data, end_of_segment: false })
    }

    /// Makes the data before `offset` unreadable.
    pub fn truncate(&mut self, offset: i64) -> (res: Result<(), SegmentError>)
        requires
            old(self).wf(),
        ensures
            final(self).wf(),
            match truncate_spec(old(self)@, offset as int) {
                Ok(st) => res is Ok && final(self)@ == st,
                Err(e) => res == Err::<(), SegmentError>(e) && final(self)@ == old(self)@,
            },
    {
        if offset < 0 || offset > self.data.len() as i64 {
            return Err(SegmentError::InvalidOffset);
        }
        if offset > self.head {
            self.head = offset;
        }
        Ok(())
    }

    /// Seals the segment: it takes no more bytes.
    pub fn seal(&mut self)
        requires
            old(self).wf(),
        ensures
            final(self).wf(),
            final(self)@ == (SegmentState { sealed: true, ..old(self)@ }),
    {
        self.sealed = true;
    }

    /// The first readable offset.
    pub fn head(&self) -> (r: i64)
        requires
            self.wf(),
        ensures
            r == self@.head,
    {
        self.head
    }

    /// The offset one past the last byte.
    pub fn length(&self) -> (r: i64)
        requires
            self.wf(),
        ensures
            r == self@.data.len(),
    {
        self.data.len() as i64
    }
}

} // verus!
