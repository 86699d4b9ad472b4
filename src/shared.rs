//! Names of readers, streams and segments, and read offsets.
use vstd::prelude::*;

verus! {

/// A segment of a stream: its number, and the transaction it belongs to, if any.
#[derive(Clone, Copy, Debug, PartialEq, Eq, Structural)]
pub struct Segment {
    pub number: i64,
    pub tx_id: Option<u128>,
}

impl Segment {
    pub fn new(number: i64) -> (r: Segment)
        ensures
            r.number == number,
            r.tx_id is None,
    {
        Segment { number, tx_id: None }
    }
}

/// What a scoped segment stands for: scope, stream and segment.
pub type ScopedSegmentView = (Seq<char>, Seq<char>, Segment);

/// A segment together with the scope and the stream that hold it.
#[derive(Debug)]
pub struct ScopedSegment {
    pub scope: String,
    pub stream: String,
    pub segment: Segment,
}

impl View for ScopedSegment {
    type V = ScopedSegmentView;

    open spec fn view(&self) -> ScopedSegmentView {
        (self.scope@, self.stream@, self.segment)
    }
}

impl Clone for ScopedSegment {
    fn clone(&self) -> (r: Self)
        ensures
            r@ == self@,
    {
        ScopedSegment { scope: self.scope.clone(), stream: self.stream.clone(), segment: self.segment }
    }
}

impl PartialEq for ScopedSegment {
    fn eq(&self, o: &ScopedSegment) -> (r: bool) {
        self.scope == o.scope && self.stream == o.stream && self.segment == o.segment
    }
}

impl vstd::std_specs::cmp::PartialEqSpecImpl for ScopedSegment {
    open spec fn obeys_eq_spec() -> bool {
        true
    }

    open spec fn eq_spec(&self, o: &ScopedSegment) -> bool {
        self@ == o@
    }
}

/// What a segment with range stands for: the segment and the two bounds.
pub type SegmentWithRangeView = (ScopedSegmentView, u64, u64);

/// A scoped segment with its routing-key range `[min_key, max_key)`.
///
/// The bounds are the IEEE-754 bit patterns of non-negative doubles in `[0, 1]`;
/// on such values the order of the bit patterns is the order of the doubles.
#[derive(Debug)]
pub struct SegmentWithRange {
    pub scoped_segment: ScopedSegment,
    pub min_key: u64,
    pub max_key: u64,
}

impl View for SegmentWithRange {
    type V = SegmentWithRangeView;

    open spec fn view(&self) -> SegmentWithRangeView {
        (self.scoped_segment@, self.min_key, self.max_key)
    }
}

impl Clone for SegmentWithRange {
    fn clone(&self) -> (r: Self)
        ensures
            r@ == self@,
    {
        SegmentWithRange {
            scoped_segment: self.scoped_segment.clone(),
            min_key: self.min_key,
            max_key: self.max_key,
        }
    }
}

impl PartialEq for SegmentWithRange {
    fn eq(&self, o: &SegmentWithRange) -> (r: bool) {
        self.scoped_segment == o.scoped_segment && self.min_key == o.min_key && self.max_key
            == o.max_key
    }
}

impl vstd::std_specs::cmp::PartialEqSpecImpl for SegmentWithRange {
    open spec fn obeys_eq_spec() -> bool {
        true
    }

    open spec fn eq_spec(&self, o: &SegmentWithRange) -> bool {
        self@ == o@
    }
}

/// A reader of a reader group, known by its name.
#[derive(Debug)]
pub struct Reader {
    pub name: String,
}

impl View for Reader {
    type V = Seq<char>;

    open spec fn view(&self) -> Seq<char> {
        self.name@
    }
}

impl Clone for Reader {
    fn clone(&self) -> (r: Self)
        ensures
            r@ == self@,
    {
        Reader { name: self.name.clone() }
    }
}

impl PartialEq for Reader {
    fn eq(&self, o: &Reader) -> (r: bool) {
        self.name == o.name
    }
}

impl vstd::std_specs::cmp::PartialEqSpecImpl for Reader {
    open spec fn obeys_eq_spec() -> bool {
        true
    }

    open spec fn eq_spec(&self, o: &Reader) -> bool {
        self@ == o@
    }
}

/// A stream within a scope.
#[derive(Debug)]
pub struct ScopedStream {
    pub scope: String,
    pub stream: String,
}

impl View for ScopedStream {
    type V = (Seq<char>, Seq<char>);

    open spec fn view(&self) -> (Seq<char>, Seq<char>) {
        (self.scope@, self.stream@)
    }
}

impl Clone for ScopedStream {
    fn clone(&self) -> (r: Self)
        ensures
            r@ == self@,
    {
        ScopedStream { scope: self.scope.clone(), stream: self.stream.clone() }
    }
}

/// How far a reader has got in a segment: `read` bytes were handed to the
/// application, of which `processed` were acknowledged by it.
#[derive(Clone, Copy, Debug, PartialEq, Eq, Structural)]
pub struct Offset {
    pub read: u64,
    pub processed: u64,
}

impl Offset {
    pub fn new(read: u64, processed: u64) -> (r: Offset)
        ensures
            r.read == read,
            r.processed == processed,
    {
        Offset { read, processed }
    }
}


/// The bytes of `buf` from `start` up to `end`.
pub(crate) fn copy_range(buf: &[u8], start: usize, end: usize) -> (r: Vec<u8>)
    requires
        start <= end <= buf@.len(),
    ensures
        r@ == buf@.subrange(start as int, end as int),
{
    let mut r: Vec<u8> = Vec::new();
    let mut i: usize = start;
    while i < end
        invariant
            start <= i <= end <= buf@.len(),
            r@ == buf@.subrange(start as int, i as int),
        decreases end - i,
    {
        r.push(buf[i]);
        proof {
            assert(r@ =~= buf@.subrange(start as int, i + 1));
        }
        i = i + 1;
    }
    r
}

/// Relies on uuid::Uuid::new_v4, which fills a version-4 UUID with bytes from
/// the operating system's random source (all but its version and variant
/// bits), and Uuid::as_u128, which reads the UUID as one number. Nothing is
/// promised of the value.
#[verifier::external_body]
pub(crate) fn random_id() -> (r: u128) {
    uuid::Uuid::new_v4().as_u128()
}

} // verus!
