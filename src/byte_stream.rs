//! The byte-stream surface: a writer that cuts its input into appends, and a
//! reader with a cursor that seeks against the segment's tail.
use vstd::prelude::*;
use crate::in_memory_segment::{
    ReaderError, SegmentRead, SegmentState, append_spec, read_spec, read_view, truncate_spec,
};
use crate::shared::{copy_range, random_id};

verus! {

/// The largest payload of one append.
pub const MAX_WRITE_SIZE: usize = 8 * 1024 * 1024;

/// Why a byte-stream call failed.
#[derive(Clone, Copy, Debug, PartialEq, Eq, Structural)]
pub enum ByteStreamError {
    /// The seek target lies beyond the segment's tail.
    SeekBeyondTail,
    /// The seek target is a negative offset.
    SeekNegative,
    /// The read ran into the end of a sealed segment.
    SegmentIsSealed,
    /// The read offset was truncated away.
    NoSuchSegment,
    /// The writer sealed the segment and takes no more bytes.
    WriterSealed,
}

/// Where a seek goes: to an offset from the start, or a distance from the tail
/// or from the current offset.
#[derive(Clone, Copy, Debug, PartialEq, Eq, Structural)]
pub enum SeekFrom {
    Start(u64),
    End(i64),
    Current(i64),
}

/// The offset that a seek resolves to, given the current offset and the tail.
pub open spec fn seek_target(pos: SeekFrom, offset: int, tail: int) -> Result<int, ByteStreamError> {
    match pos {
        SeekFrom::Start(o) => if o > tail {
            Err(ByteStreamError::SeekBeyondTail)
        } else {
            Ok(o as int)
        },
        SeekFrom::Current(d) => if offset + d < 0 {
            Err(ByteStreamError::SeekNegative)
        } else if offset + d > tail {
            Err(ByteStreamError::SeekBeyondTail)
        } else {
            Ok(offset + d)
        },
        SeekFrom::End(d) => if d > 0 {
            Err(ByteStreamError::SeekBeyondTail)
        } else if tail + d < 0 {
            Err(ByteStreamError::SeekNegative)
        } else {
            Ok(tail + d)
        },
    }
}

/// How many bytes a read hands over into a buffer of `buf_len` bytes, given the
/// segment's reply.
pub open spec fn delivered(buf_len: int, reply: Result<(Seq<u8>, bool), ReaderError>) -> Result<int, ByteStreamError> {
    match reply {
        Err(ReaderError::NoSuchSegment) => Err(ByteStreamError::NoSuchSegment),
        Ok((data, end_of_segment)) => if end_of_segment {
            Err(ByteStreamError::SegmentIsSealed)
        } else if data.len() < buf_len {
            Ok(data.len() as int)
        } else {
            Ok(buf_len)
        },
    }
}

/// `b` cut into pieces of `max` bytes, the last one shorter; an empty `b` is
/// one empty piece.
pub open spec fn chunks(b: Seq<u8>, max: nat) -> Seq<Seq<u8>>
    decreases b.len(),
{
    if b.len() <= max || max == 0 {
        seq![b]
    } else {
        seq![b.take(max as int)] + chunks(b.skip(max as int), max)
    }
}

pub open spec fn byte_views(v: Seq<Vec<u8>>) -> Seq<Seq<u8>> {
    Seq::new(v.len(), |i: int| v[i]@)
}

/// The pieces of `b` put together give `b` back, and none is longer than `max`.
pub proof fn lemma_chunks(b: Seq<u8>, max: nat)
    requires
        max > 0,
    ensures
        chunks(b, max).flatten() == b,
        forall|i: int| 0 <= i < chunks(b, max).len() ==> (#[trigger] chunks(b, max)[i]).len() <= max,
    decreases b.len(),
{
    if b.len() <= max {
        seq![b].lemma_flatten_one_element();
    } else {
        lemma_chunks(b.skip(max as int), max);
        let c = chunks(b, max);
        assert(c.drop_first() =~= chunks(b.skip(max as int), max));
        assert(c.flatten() =~= b);
        assert forall|i: int| 0 <= i < c.len() implies (#[trigger] c[i]).len() <= max by {
            if i > 0 {
                assert(c[i] == chunks(b.skip(max as int), max)[i - 1]);
            }
        }
    }
}

/// A writer of bytes to one segment. It cuts what it is given into appends of
/// at most `MAX_WRITE_SIZE` bytes; sending them is left to the caller.
pub struct ByteStreamWriter {
    writer_id: u128,
    sealed: bool,
}

impl ByteStreamWriter {
    pub closed spec fn is_sealed(&self) -> bool {
        self.sealed
    }

    /// A writer with a fresh random id.
    pub fn new() -> (r: ByteStreamWriter)
        ensures
            !r.is_sealed(),
    {
        ByteStreamWriter { writer_id: random_id(), sealed: false }
    }

    /// The id that scopes this writer's event numbers.
    pub fn writer_id(&self) -> u128 {
        self.writer_id
    }

    /// The payloads of the appends that carry `buf`, in order: `buf` cut into
    /// pieces of `MAX_WRITE_SIZE` bytes. Fails once the writer sealed the segment.
    pub fn write(&mut self, buf: &[u8]) -> (res: Result<Vec<Vec<u8>>, ByteStreamError>)
        ensures
            *final(self) == *old(self),
            match res {
                Ok(v) => !old(self).is_sealed() && byte_views(v@) == chunks(buf@, MAX_WRITE_SIZE as nat),
                Err(e) => old(self).is_sealed() && e == ByteStreamError::WriterSealed,
            },
    {
        if self.sealed {
            return Err(ByteStreamError::WriterSealed);
        }
        let mut r: Vec<Vec<u8>> = Vec::new();
        let mut position: usize = 0;
        let len = buf.len();
        proof {
            assert(buf@.skip(0) =~= buf@);
            assert(byte_views(r@) =~= Seq::<Seq<u8>>::empty());
            assert(byte_views(r@) + chunks(buf@, MAX_WRITE_SIZE as nat) =~= chunks(buf@, MAX_WRITE_SIZE as nat));
        }
        loop
            invariant
                !old(self).is_sealed(),
                *self == *old(self),
                position <= len,
                len == buf@.len(),
                byte_views(r@) + chunks(buf@.skip(position as int), MAX_WRITE_SIZE as nat) == chunks(buf@, MAX_WRITE_SIZE as nat),
            decreases len - position,
        {
            let ghost rest = buf@.skip(position as int);
            let ghost before = r@;
            let advance = if len - position < MAX_WRITE_SIZE { len - position } else { MAX_WRITE_SIZE };
            let payload = copy_range(buf, position, position + advance);
            r.push(payload);
            position = position + advance;
            if position == len {
                proof {
                    assert(rest.len() <= MAX_WRITE_SIZE);
                    assert(payload@ =~= rest);
                    assert(chunks(rest, MAX_WRITE_SIZE as nat) == seq![rest]);
                    assert(byte_views(r@) =~= byte_views(before) + chunks(rest, MAX_WRITE_SIZE as nat));
                    assert(byte_views(r@) =~= chunks(buf@, MAX_WRITE_SIZE as nat));
                }
                return Ok(r);
            }
            proof {
                assert(rest.len() > MAX_WRITE_SIZE);
                assert(payload@ =~= rest.take(MAX_WRITE_SIZE as int));
                assert(rest.skip(MAX_WRITE_SIZE as int) =~= buf@.skip(position as int));
                assert(byte_views(r@) =~= byte_views(before).push(payload@));
                assert(byte_views(r@) + chunks(buf@.skip(position as int), MAX_WRITE_SIZE as nat)
                    =~= byte_views(before) + chunks(rest, MAX_WRITE_SIZE as nat));
            }
        }
    }

    /// Records that the segment was sealed: later writes fail.
    pub fn seal(&mut self)
        ensures
            final(self).is_sealed(),
    {
        self.sealed = true;
    }
}

/// A reader of bytes from one segment, with its read cursor.
pub struct ByteStreamReader {
    reader_id: u128,
    offset: i64,
}

impl ByteStreamReader {
    /// The read cursor.
    pub closed spec fn offset(&self) -> int {
        self.offset as int
    }

    pub closed spec fn id(&self) -> u128 {
        self.reader_id
    }

    /// A reader at offset 0, with a fresh random id.
    pub fn new() -> (r: ByteStreamReader)
        ensures
            r.offset() == 0,
    {
        ByteStreamReader { reader_id: random_id(), offset: 0 }
    }

    /// The id of this reader.
    pub fn reader_id(&self) -> (r: u128)
        ensures
            r == self.id(),
    {
        self.reader_id
    }

    /// The read cursor.
    pub fn current_offset(&self) -> (r: i64)
        ensures
            r == self.offset(),
    {
        self.offset
    }

    /// Moves the cursor to where `pos` resolves against the current offset and
    /// the segment's tail, and returns the new offset; on an invalid target the
    /// cursor stays.
    pub fn seek(&mut self, pos: SeekFrom, tail: i64) -> (res: Result<u64, ByteStreamError>)
        requires
            old(self).offset() >= 0,
        ensures
            match seek_target(pos, old(self).offset(), tail as int) {
                Ok(t) => res == Ok::<u64, ByteStreamError>(t as u64) && final(self).offset() == t,
                Err(e) => res == Err::<u64, ByteStreamError>(e) && final(self).offset() == old(self).offset(),
            },
            final(self).offset() >= 0,
            final(self).id() == old(self).id(),
    {
        match pos {
            SeekFrom::Start(o) => {
                if tail < 0 || o > tail as u64 {
                    Err(ByteStreamError::SeekBeyondTail)
                } else {
                    self.offset = o as i64;
                    Ok(o)
                }
            },
            SeekFrom::Current(d) => {
                if d < 0 && self.offset + d < 0 {
                    Err(ByteStreamError::SeekNegative)
                } else if d > 0 && (tail < self.offset || d > tail - self.offset) {
                    Err(ByteStreamError::SeekBeyondTail)
                } else if d <= 0 && self.offset + d > tail {
                    Err(ByteStreamError::SeekBeyondTail)
                } else {
                    self.offset = self.offset + d;
                    Ok(self.offset as u64)
                }
            },
            SeekFrom::End(d) => {
                if d > 0 {
                    Err(ByteStreamError::SeekBeyondTail)
                } else if tail < 0 || tail + d < 0 {
                    Err(ByteStreamError::SeekNegative)
                } else {
                    self.offset = tail + d;
                    Ok(self.offset as u64)
                }
            },
        }
    }

    /// Hands over the segment's reply to a read of `buf.len()` bytes at the
    /// cursor: at most `buf.len()` bytes go to the front of `buf` and the cursor
    /// advances past them. A reply that reports the end of a sealed segment, or
    /// a failed read, leaves cursor and buffer as they were.
    pub fn read(&mut self, buf: &mut [u8], reply: Result<SegmentRead, ReaderError>) -> (res: Result<usize, ByteStreamError>)
        requires
            old(self).offset() >= 0,
            old(self).offset() + old(buf)@.len() <= i64::MAX,
        ensures
            final(buf)@.len() == old(buf)@.len(),
            match delivered(old(buf)@.len() as int, read_view(reply)) {
                Ok(n) => res == Ok::<usize, ByteStreamError>(n as usize) && final(self).offset() == old(self).offset() + n
                    && final(buf)@ == read_view(reply)->Ok_0.0.take(n) + old(buf)@.skip(n),
                Err(e) => res == Err::<usize, ByteStreamError>(e) && final(self).offset() == old(self).offset()
                    && final(buf)@ == old(buf)@,
            },
            final(self).offset() >= 0,
            final(self).id() == old(self).id(),
    {
        match reply {
            Err(ReaderError::NoSuchSegment) => Err(ByteStreamError::NoSuchSegment),
            Ok(cmd) => {
                if cmd.end_of_segment {
                    return Err(ByteStreamError::SegmentIsSealed);
                }
                let n = if cmd.data.len() < buf.len() { cmd.data.len() } else { buf.len() };
                let ghost old_buf = buf@;
                let mut i: usize = 0;
                while i < n
                    invariant
                        n <= cmd.data@.len(),
                        n <= old_buf.len(),
                        i <= n,
                        buf@.len() == old_buf.len(),
                        forall|k: int| 0 <= k < i ==> buf@[k] == cmd.data@[k],
                        forall|k: int| i <= k < buf@.len() ==> buf@[k] == old_buf[k],
                    decreases n - i,
                {
                    buf[i] = cmd.data[i];
                    i = i + 1;
                }
                proof {
                    assert(buf@ =~= cmd.data@.take(n as int) + old_buf.skip(n as int));
                }
                self.offset = self.offset + n as i64;
                Ok(n)
            },
        }
    }
}

/// The segment after the pieces `cs` were appended to it in order.
pub open spec fn appended(st: SegmentState, cs: Seq<Seq<u8>>) -> SegmentState
    decreases cs.len(),
{
    if cs.len() == 0 {
        st
    } else {
        let next = match append_spec(st, cs[0]) {
            Ok(s) => s,
            Err(_) => st,
        };
        appended(next, cs.drop_first())
    }
}

/// The segment after each of `writes`, in order, was cut into appends by a
/// byte-stream writer and the appends were made.
pub open spec fn written(st: SegmentState, writes: Seq<Seq<u8>>) -> SegmentState
    decreases writes.len(),
{
    if writes.len() == 0 {
        st
    } else {
        appended(written(st, writes.drop_last()), chunks(writes.last(), MAX_WRITE_SIZE as nat))
    }
}

proof fn lemma_appended(st: SegmentState, cs: Seq<Seq<u8>>)
    requires
        !st.sealed,
    ensures
        appended(st, cs) == (SegmentState { data: st.data + cs.flatten(), ..st }),
    decreases cs.len(),
{
    if cs.len() == 0 {
        assert(st.data + cs.flatten() =~= st.data);
    } else {
        let next = SegmentState { data: st.data + cs[0], ..st };
        lemma_appended(next, cs.drop_first());
        assert(st.data + cs[0] + cs.drop_first().flatten() =~= st.data + cs.flatten());
    }
}

proof fn lemma_written(st: SegmentState, writes: Seq<Seq<u8>>)
    requires
        !st.sealed,
    ensures
        written(st, writes) == (SegmentState { data: st.data + writes.flatten(), ..st }),
    decreases writes.len(),
{
    if writes.len() == 0 {
        assert(st.data + writes.flatten() =~= st.data);
    } else {
        let init = writes.drop_last();
        lemma_written(st, init);
        lemma_chunks(writes.last(), MAX_WRITE_SIZE as nat);
        lemma_appended(written(st, init), chunks(writes.last(), MAX_WRITE_SIZE as nat));
        assert(init.push(writes.last()) =~= writes);
        init.lemma_flatten_push(writes.last());
        assert(st.data + init.flatten() + writes.last() =~= st.data + writes.flatten());
    }
}

/// Bytes written to a fresh segment through a byte-stream writer, one write
/// after another, read back from offset 0 as their concatenation, up to the
/// length of the read buffer.
pub proof fn lemma_written_bytes_read_back(writes: Seq<Seq<u8>>, buf_len: nat)
    ensures
        ({
            let seg = written(SegmentState { data: Seq::empty(), head: 0, sealed: false }, writes);
            let n = if writes.flatten().len() < buf_len { writes.flatten().len() as int } else { buf_len as int };
            &&& seg.data == writes.flatten()
            &&& delivered(buf_len as int, read_spec(seg, 0, buf_len as int)) == Ok::<int, ByteStreamError>(n)
            &&& read_spec(seg, 0, buf_len as int)->Ok_0.0.take(n) == writes.flatten().take(n)
        }),
{
    let fresh = SegmentState { data: Seq::empty(), head: 0, sealed: false };
    lemma_written(fresh, writes);
    assert(Seq::<u8>::empty() + writes.flatten() =~= writes.flatten());
    let all = writes.flatten();
    let n = if all.len() < buf_len { all.len() as int } else { buf_len as int };
    if all.len() > 0 {
        let end = if buf_len < all.len() { buf_len as int } else { all.len() as int };
        assert(all.subrange(0, end).take(n) =~= all.take(n));
    } else {
        assert(Seq::<u8>::empty().take(0) =~= all.take(0));
    }
}

/// Two seeks that resolve to the same offset are followed by the same read:
/// a seek changes nothing but the cursor.
pub proof fn lemma_seek_only_moves_cursor(
    first: SeekFrom,
    second: SeekFrom,
    offset1: int,
    offset2: int,
    tail: int,
    seg: SegmentState,
    buf_len: nat,
)
    requires
        seek_target(first, offset1, tail) is Ok,
        seek_target(second, offset2, tail) == seek_target(first, offset1, tail),
    ensures
        read_spec(seg, seek_target(first, offset1, tail)->Ok_0, buf_len as int)
            == read_spec(seg, seek_target(second, offset2, tail)->Ok_0, buf_len as int),
        delivered(buf_len as int, read_spec(seg, seek_target(first, offset1, tail)->Ok_0, buf_len as int))
            == delivered(buf_len as int, read_spec(seg, seek_target(second, offset2, tail)->Ok_0, buf_len as int)),
{
}

/// After the data before `t` was truncated away, a seek to any offset before
/// `t` succeeds but the read there fails; the head is at least `t` and never
/// moved back.
pub proof fn lemma_truncated_reads_fail(st: SegmentState, t: int, o: u64, offset: int, buf_len: nat)
    requires
        truncate_spec(st, t) is Ok,
        o < t,
    ensures
        truncate_spec(st, t)->Ok_0.head >= t,
        truncate_spec(st, t)->Ok_0.head >= st.head,
        seek_target(SeekFrom::Start(o), offset, truncate_spec(st, t)->Ok_0.data.len() as int) == Ok::<int, ByteStreamError>(o as int),
        delivered(buf_len as int, read_spec(truncate_spec(st, t)->Ok_0, o as int, buf_len as int))
            == Err::<int, ByteStreamError>(ByteStreamError::NoSuchSegment),
{
}

/// On a sealed segment, a read whose range lies within the readable data
/// hands over all of it, and a read that reaches beyond the tail fails with
/// the segment sealed.
pub proof fn lemma_sealed_reads(st: SegmentState, o: int, buf_len: nat)
    requires
        st.sealed,
        0 <= st.head <= o,
    ensures
        o + buf_len <= st.data.len() ==> delivered(buf_len as int, read_spec(st, o, buf_len as int)) == Ok::<int, ByteStreamError>(buf_len as int)
            && read_spec(st, o, buf_len as int)->Ok_0.0.take(buf_len as int) == st.data.subrange(o, o + buf_len),
        o + buf_len > st.data.len() ==> delivered(buf_len as int, read_spec(st, o, buf_len as int))
            == Err::<int, ByteStreamError>(ByteStreamError::SegmentIsSealed),
{
    if o + buf_len <= st.data.len() && o < st.data.len() {
        assert(st.data.subrange(o, o + buf_len).take(buf_len as int) =~= st.data.subrange(o, o + buf_len));
    }
}

} // verus!
