//! The coordination state of a reader group: which reader owns which segment,
//! which segments wait for a reader, and which successors wait for their
//! predecessors to be read.
//!
//! Every operation is one atomic update of the state: it either fails with an
//! error and leaves the state as it was, or applies all of its changes.
use vstd::prelude::*;
use crate::assoc::{
    assoc_map, has_key, keys_unique, lemma_assoc_empty, lemma_assoc_index, lemma_assoc_push,
    lemma_assoc_remove, lemma_assoc_update,
};
use crate::shared::{
    Offset, Reader, ScopedSegment, ScopedSegmentView, ScopedStream, SegmentWithRange,
    SegmentWithRangeView,
};

verus! {

/// Why an update of the reader-group state was refused.
#[derive(Clone, Copy, Debug, PartialEq, Eq, Structural)]
pub enum ReaderGroupStateError {
    /// The reader is already a member of the group.
    ReaderAlreadyOnline,
    /// The reader is not a member of the group.
    ReaderNotOnline,
    /// The reader does not own the segment (or, on release, owns no single
    /// segment of that name).
    SegmentNotAssigned,
    /// The segment to release is already waiting for a reader.
    SegmentAlreadyUnassigned,
}

/// The reader-group state as maps.
pub ghost struct GroupView {
    /// Each online reader, with the segments it owns and its offset in each.
    pub assigned: Map<Seq<char>, Map<SegmentWithRangeView, Offset>>,
    /// Segments that wait for a reader, with the offset to resume from.
    pub unassigned: Map<SegmentWithRangeView, Offset>,
    /// Successor segments, with the numbers of the predecessors still to be read.
    pub future: Map<SegmentWithRangeView, Set<i64>>,
    /// Each online reader's distance to the tail, used for load balancing.
    pub distance_to_tail: Map<Seq<char>, u64>,
    /// The stream that holds the state, once written.
    pub synchronizer_stream: Option<(Seq<char>, Seq<char>)>,
    /// The reader group's configuration, once written.
    pub config: Option<(i32, Seq<u8>)>,
}

/// The configuration of a reader group in its stored form: the version of
/// that form and the encoded configuration.
#[derive(Debug)]
pub struct ReaderGroupConfigVersioned {
    pub version: i32,
    pub config: Vec<u8>,
}

impl View for ReaderGroupConfigVersioned {
    type V = (i32, Seq<u8>);

    open spec fn view(&self) -> (i32, Seq<u8>) {
        (self.version, self.config@)
    }
}

/// Nothing has been written to the state yet.
pub open spec fn is_blank(g: GroupView) -> bool {
    &&& g.assigned == Map::<Seq<char>, Map<SegmentWithRangeView, Offset>>::empty()
    &&& g.unassigned == Map::<SegmentWithRangeView, Offset>::empty()
    &&& g.future == Map::<SegmentWithRangeView, Set<i64>>::empty()
    &&& g.distance_to_tail == Map::<Seq<char>, u64>::empty()
    &&& g.synchronizer_stream is None
    &&& g.config is None
}

/// The state once initialized with its stream, configuration and first
/// segments, all waiting for a reader.
pub open spec fn initialized(
    stream: (Seq<char>, Seq<char>),
    config: (i32, Seq<u8>),
    segments: Map<SegmentWithRangeView, Offset>,
) -> GroupView {
    GroupView {
        assigned: Map::empty(),
        unassigned: segments,
        future: Map::empty(),
        distance_to_tail: Map::empty(),
        synchronizer_stream: Some(stream),
        config: Some(config),
    }
}

pub open spec fn offsets_seq(v: Seq<(SegmentWithRange, Offset)>) -> Seq<(SegmentWithRangeView, Offset)> {
    Seq::new(v.len(), |i: int| (v[i].0@, v[i].1))
}

/// The map that a list of segments with offsets stands for.
pub open spec fn offsets_map(v: Seq<(SegmentWithRange, Offset)>) -> Map<SegmentWithRangeView, Offset> {
    assoc_map(offsets_seq(v))
}

pub open spec fn scoped_offsets_seq(v: Seq<(ScopedSegment, Offset)>) -> Seq<(ScopedSegmentView, Offset)> {
    Seq::new(v.len(), |i: int| (v[i].0@, v[i].1))
}

/// The map that a list of scoped segments with offsets stands for.
pub open spec fn scoped_offsets_map(v: Seq<(ScopedSegment, Offset)>) -> Map<ScopedSegmentView, Offset> {
    assoc_map(scoped_offsets_seq(v))
}

pub open spec fn predecessors_seq(v: Seq<(SegmentWithRange, Vec<i64>)>) -> Seq<(SegmentWithRangeView, Set<i64>)> {
    Seq::new(v.len(), |i: int| (v[i].0@, v[i].1@.to_set()))
}

/// The map that a list of segments with predecessor numbers stands for.
pub open spec fn predecessors_map(v: Seq<(SegmentWithRange, Vec<i64>)>) -> Map<SegmentWithRangeView, Set<i64>> {
    assoc_map(predecessors_seq(v))
}

pub open spec fn assigned_seq(v: Seq<(Reader, Vec<(SegmentWithRange, Offset)>)>) -> Seq<(Seq<char>, Map<SegmentWithRangeView, Offset>)> {
    Seq::new(v.len(), |i: int| (v[i].0@, offsets_map(v[i].1@)))
}

pub open spec fn distance_seq(v: Seq<(Reader, u64)>) -> Seq<(Seq<char>, u64)> {
    Seq::new(v.len(), |i: int| (v[i].0@, v[i].1))
}

/// Each segment stands in at most one place: one reader's assigned map, the
/// unassigned map, or the future map.
pub open spec fn segments_partitioned(g: GroupView) -> bool {
    &&& forall|r1: Seq<char>, r2: Seq<char>, s: SegmentWithRangeView|
        #![trigger g.assigned[r1].contains_key(s), g.assigned[r2].contains_key(s)]
        r1 != r2 && g.assigned.contains_key(r1) && g.assigned.contains_key(r2)
            && g.assigned[r1].contains_key(s) ==> !g.assigned[r2].contains_key(s)
    &&& forall|r: Seq<char>, s: SegmentWithRangeView| #![trigger g.assigned[r].contains_key(s)]
        g.assigned.contains_key(r) && g.assigned[r].contains_key(s)
            ==> !g.unassigned.contains_key(s) && !g.future.contains_key(s)
    &&& forall|s: SegmentWithRangeView| #![trigger g.unassigned.contains_key(s)]
        g.unassigned.contains_key(s) ==> !g.future.contains_key(s)
}

/// The state after `reader` joined the group.
pub open spec fn add_reader_spec(g: GroupView, reader: Seq<char>) -> Result<GroupView, ReaderGroupStateError> {
    if g.assigned.contains_key(reader) {
        Err(ReaderGroupStateError::ReaderAlreadyOnline)
    } else {
        Ok(GroupView {
            assigned: g.assigned.insert(reader, Map::empty()),
            distance_to_tail: g.distance_to_tail.insert(reader, u64::MAX),
            ..g
        })
    }
}

/// What an update that returns no value did: on `Ok` the state is the one that
/// `outcome` gives, on `Err` the error is the one it gives and the state is kept.
pub open spec fn update_done(
    before: GroupView,
    after: GroupView,
    res: Result<(), ReaderGroupStateError>,
    outcome: Result<GroupView, ReaderGroupStateError>,
) -> bool {
    match outcome {
        Ok(g) => res is Ok && after == g,
        Err(e) => res == Err::<(), ReaderGroupStateError>(e) && after == before,
    }
}


/// The state after the offsets in `latest` overwrote those of the segments that
/// `reader` owns; segments that it does not own are left out.
pub open spec fn update_positions_spec(
    g: GroupView,
    reader: Seq<char>,
    latest: Map<SegmentWithRangeView, Offset>,
) -> Result<GroupView, ReaderGroupStateError> {
    if !g.assigned.contains_key(reader) {
        Err(ReaderGroupStateError::ReaderNotOnline)
    } else {
        Ok(GroupView {
            assigned: g.assigned.insert(reader, positions_updated(g.assigned[reader], latest)),
            ..g
        })
    }
}

/// `owned` with each offset that `latest` has for one of its segments.
pub open spec fn positions_updated(
    owned: Map<SegmentWithRangeView, Offset>,
    latest: Map<SegmentWithRangeView, Offset>,
) -> Map<SegmentWithRangeView, Offset> {
    Map::new(
        |s: SegmentWithRangeView| owned.contains_key(s),
        |s: SegmentWithRangeView| if latest.contains_key(s) { latest[s] } else { owned[s] },
    )
}

/// The offset that a released segment resumes from: the one that `owned` gives
/// for its scoped segment, else the one it had.
pub open spec fn resume_offset(
    owned: Map<ScopedSegmentView, Offset>,
    s: SegmentWithRangeView,
    pos: Offset,
) -> Offset {
    if owned.contains_key(s.0) { owned[s.0] } else { pos }
}

/// `unassigned` with the segments of `released` added, each at its resume offset.
pub open spec fn released_into(
    unassigned: Map<SegmentWithRangeView, Offset>,
    released: Map<SegmentWithRangeView, Offset>,
    owned: Map<ScopedSegmentView, Offset>,
) -> Map<SegmentWithRangeView, Offset> {
    Map::new(
        |s: SegmentWithRangeView| unassigned.contains_key(s) || released.contains_key(s),
        |s: SegmentWithRangeView|
            if released.contains_key(s) {
                resume_offset(owned, s, released[s])
            } else {
                unassigned[s]
            },
    )
}

/// The state after `reader` left the group and its segments went back to the
/// unassigned ones, each at the offset that `owned` gives for it, else at the
/// reader's last position.
pub open spec fn remove_reader_spec(
    g: GroupView,
    reader: Seq<char>,
    owned: Map<ScopedSegmentView, Offset>,
) -> Result<GroupView, ReaderGroupStateError> {
    if !g.assigned.contains_key(reader) {
        Err(ReaderGroupStateError::ReaderNotOnline)
    } else {
        Ok(GroupView {
            assigned: g.assigned.remove(reader),
            unassigned: released_into(g.unassigned, g.assigned[reader], owned),
            distance_to_tail: g.distance_to_tail.remove(reader),
            ..g
        })
    }
}


proof fn lemma_offsets_prefix(entries: Seq<(SegmentWithRange, Offset)>, j: int)
    requires
        keys_unique(offsets_seq(entries)),
        0 <= j < entries.len(),
    ensures
        keys_unique(offsets_seq(entries.subrange(0, j))),
        offsets_map(entries.subrange(0, j + 1)) == offsets_map(entries.subrange(0, j)).insert(entries[j].0@, entries[j].1),
{
    let all = offsets_seq(entries);
    let pre = offsets_seq(entries.subrange(0, j));
    assert forall|a: int, b: int| 0 <= a < pre.len() && 0 <= b < pre.len() && a != b implies pre[a].0 != pre[b].0 by {
        assert(pre[a] == all[a]);
        assert(pre[b] == all[b]);
    }
    assert(!has_key(pre, entries[j].0@)) by {
        if has_key(pre, entries[j].0@) {
            let a = choose|a: int| 0 <= a < pre.len() && pre[a].0 == entries[j].0@;
            assert(all[a].0 == all[j].0);
        }
    }
    assert(offsets_seq(entries.subrange(0, j + 1)) =~= pre.push((entries[j].0@, entries[j].1)));
    lemma_assoc_push(pre, entries[j].0@, entries[j].1);
}

proof fn lemma_released_step(
    unassigned: Map<SegmentWithRangeView, Offset>,
    released: Map<SegmentWithRangeView, Offset>,
    owned: Map<ScopedSegmentView, Offset>,
    s: SegmentWithRangeView,
    pos: Offset,
)
    ensures
        released_into(unassigned, released.insert(s, pos), owned)
            == released_into(unassigned, released, owned).insert(s, resume_offset(owned, s, pos)),
{
    assert(released_into(unassigned, released.insert(s, pos), owned)
        =~= released_into(unassigned, released, owned).insert(s, resume_offset(owned, s, pos)));
}


/// The state after the unassigned segment `s` went to `reader`, at its offset.
pub open spec fn assign_spec(g: GroupView, reader: Seq<char>, s: SegmentWithRangeView) -> GroupView {
    GroupView {
        assigned: g.assigned.insert(reader, g.assigned[reader].insert(s, g.unassigned[s])),
        unassigned: g.unassigned.remove(s),
        ..g
    }
}

/// `s` is owned in `owned` and has the scoped segment `segment`.
pub open spec fn names(owned: Map<SegmentWithRangeView, Offset>, s: SegmentWithRangeView, segment: ScopedSegmentView) -> bool {
    owned.contains_key(s) && s.0 == segment
}

/// Exactly one segment of `owned` has the scoped segment `segment`.
pub open spec fn names_one(owned: Map<SegmentWithRangeView, Offset>, segment: ScopedSegmentView) -> bool {
    exists|s: SegmentWithRangeView| names(owned, s, segment) && forall|t: SegmentWithRangeView| #[trigger] names(owned, t, segment) ==> t == s
}

/// The state after `reader` gave up its one segment named `segment`, which now
/// waits for a reader at `offset`.
pub open spec fn release_spec(
    g: GroupView,
    reader: Seq<char>,
    segment: ScopedSegmentView,
    offset: Offset,
) -> Result<GroupView, ReaderGroupStateError> {
    if !g.assigned.contains_key(reader) {
        Err(ReaderGroupStateError::ReaderNotOnline)
    } else if !names_one(g.assigned[reader], segment) {
        Err(ReaderGroupStateError::SegmentNotAssigned)
    } else {
        let s = choose|s: SegmentWithRangeView| names(g.assigned[reader], s, segment);
        if g.unassigned.contains_key(s) {
            Err(ReaderGroupStateError::SegmentAlreadyUnassigned)
        } else {
            Ok(GroupView {
                assigned: g.assigned.insert(reader, g.assigned[reader].remove(s)),
                unassigned: g.unassigned.insert(s, offset),
                ..g
            })
        }
    }
}


/// The future segments after the successors were added (each that was not there
/// yet, with its predecessors) and the completed segment number `n` was struck
/// from every predecessor set.
pub open spec fn merged_future(
    future: Map<SegmentWithRangeView, Set<i64>>,
    successors: Map<SegmentWithRangeView, Set<i64>>,
    n: i64,
) -> Map<SegmentWithRangeView, Set<i64>> {
    Map::new(
        |s: SegmentWithRangeView| future.contains_key(s) || successors.contains_key(s),
        |s: SegmentWithRangeView| (if future.contains_key(s) { future[s] } else { successors[s] }).remove(n),
    )
}

/// The entries of `merged` that still wait for a predecessor.
pub open spec fn still_waiting(merged: Map<SegmentWithRangeView, Set<i64>>) -> Map<SegmentWithRangeView, Set<i64>> {
    Map::new(
        |s: SegmentWithRangeView| merged.contains_key(s) && merged[s] != Set::<i64>::empty(),
        |s: SegmentWithRangeView| merged[s],
    )
}

/// The entries of `merged` that wait for nothing, each at offset `(0, 0)`.
pub open spec fn ready_to_read(merged: Map<SegmentWithRangeView, Set<i64>>) -> Map<SegmentWithRangeView, Offset> {
    Map::new(
        |s: SegmentWithRangeView| merged.contains_key(s) && merged[s] == Set::<i64>::empty(),
        |s: SegmentWithRangeView| Offset { read: 0, processed: 0 },
    )
}

/// The state after `reader` finished reading `completed`, whose successors are
/// given with their predecessors: `completed` leaves the reader, the successors
/// join the future segments, and those that no longer wait for a predecessor
/// move to the unassigned segments at offset `(0, 0)`.
pub open spec fn segment_completed_spec(
    g: GroupView,
    reader: Seq<char>,
    completed: SegmentWithRangeView,
    successors: Map<SegmentWithRangeView, Set<i64>>,
) -> Result<GroupView, ReaderGroupStateError> {
    if !g.assigned.contains_key(reader) {
        Err(ReaderGroupStateError::ReaderNotOnline)
    } else if !g.assigned[reader].contains_key(completed) {
        Err(ReaderGroupStateError::SegmentNotAssigned)
    } else {
        let merged = merged_future(g.future, successors, completed.0.2.number);
        Ok(GroupView {
            assigned: g.assigned.insert(reader, g.assigned[reader].remove(completed)),
            unassigned: g.unassigned.union_prefer_right(ready_to_read(merged)),
            future: still_waiting(merged),
            ..g
        })
    }
}

/// No successor is already owned by a reader or waiting for one.
pub open spec fn successors_fresh(g: GroupView, successors: Map<SegmentWithRangeView, Set<i64>>) -> bool {
    forall|s: SegmentWithRangeView| #[trigger] successors.contains_key(s) ==> !g.unassigned.contains_key(s)
        && forall|r: Seq<char>| g.assigned.contains_key(r) ==> !(#[trigger] g.assigned[r].contains_key(s))
}

spec fn pending_on(merged: Map<SegmentWithRangeView, Set<i64>>, done: Set<SegmentWithRangeView>) -> Map<SegmentWithRangeView, Set<i64>> {
    Map::new(
        |s: SegmentWithRangeView| done.contains(s) && merged.contains_key(s) && merged[s] != Set::<i64>::empty(),
        |s: SegmentWithRangeView| merged[s],
    )
}

spec fn ready_on(merged: Map<SegmentWithRangeView, Set<i64>>, done: Set<SegmentWithRangeView>) -> Set<SegmentWithRangeView> {
    Set::new(|s: SegmentWithRangeView| done.contains(s) && merged.contains_key(s) && merged[s] == Set::<i64>::empty())
}

proof fn lemma_done_step(merged: Map<SegmentWithRangeView, Set<i64>>, done: Set<SegmentWithRangeView>, s: SegmentWithRangeView)
    requires
        merged.contains_key(s),
    ensures
        merged[s] != Set::<i64>::empty() ==> pending_on(merged, done.insert(s)) == pending_on(merged, done).insert(s, merged[s])
            && ready_on(merged, done.insert(s)) == ready_on(merged, done),
        merged[s] == Set::<i64>::empty() ==> pending_on(merged, done.insert(s)) == pending_on(merged, done)
            && ready_on(merged, done.insert(s)) == ready_on(merged, done).insert(s),
{
    if merged[s] != Set::<i64>::empty() {
        assert(pending_on(merged, done.insert(s)) =~= pending_on(merged, done).insert(s, merged[s]));
        assert(ready_on(merged, done.insert(s)) =~= ready_on(merged, done));
    } else {
        assert(pending_on(merged, done.insert(s)) =~= pending_on(merged, done));
        assert(ready_on(merged, done.insert(s)) =~= ready_on(merged, done).insert(s));
    }
}


/// The scoped segments of the segments in `m`.
pub open spec fn scoped_of(m: Map<SegmentWithRangeView, Offset>) -> Set<ScopedSegmentView> {
    Set::new(|x: ScopedSegmentView| exists|s: SegmentWithRangeView| m.contains_key(s) && s.0 == x)
}

/// The scoped segments that a list holds.
pub open spec fn scoped_set(v: Seq<ScopedSegment>) -> Set<ScopedSegmentView> {
    Set::new(|x: ScopedSegmentView| exists|i: int| 0 <= i < v.len() && v[i]@ == x)
}

/// No scoped segment occurs twice in the list.
pub open spec fn scoped_distinct(v: Seq<ScopedSegment>) -> bool {
    forall|i: int, j: int| 0 <= i < v.len() && 0 <= j < v.len() && i != j ==> v[i]@ != v[j]@
}

/// The scoped segments that are owned by a reader or wait for one.
pub open spec fn all_segments(g: GroupView) -> Set<ScopedSegmentView> {
    Set::new(|x: ScopedSegmentView|
        scoped_of(g.unassigned).contains(x)
            || exists|r: Seq<char>| g.assigned.contains_key(r) && #[trigger] scoped_of(g.assigned[r]).contains(x))
}

/// The coordination state of a reader group.
pub struct ReaderGroupState {
    scoped_synchronizer_stream: Option<ScopedStream>,
    config: Option<ReaderGroupConfigVersioned>,
    assigned: Vec<(Reader, Vec<(SegmentWithRange, Offset)>)>,
    unassigned: Vec<(SegmentWithRange, Offset)>,
    future: Vec<(SegmentWithRange, Vec<i64>)>,
    distance_to_tail: Vec<(Reader, u64)>,
}

impl View for ReaderGroupState {
    type V = GroupView;

    closed spec fn view(&self) -> GroupView {
        GroupView {
            assigned: assoc_map(assigned_seq(self.assigned@)),
            unassigned: offsets_map(self.unassigned@),
            future: predecessors_map(self.future@),
            distance_to_tail: assoc_map(distance_seq(self.distance_to_tail@)),
            synchronizer_stream: match self.scoped_synchronizer_stream {
                Some(s) => Some(s@),
                None => None,
            },
            config: match self.config {
                Some(c) => Some(c@),
                None => None,
            },
        }
    }
}

fn find_reader<T>(list: &Vec<(Reader, T)>, reader: &Reader) -> (res: Option<usize>)
    ensures
        match res {
            Some(i) => i < list@.len() && list@[i as int].0@ == reader@,
            None => forall|i: int| 0 <= i < list@.len() ==> list@[i].0@ != reader@,
        },
{
    let mut i: usize = 0;
    while i < list.len()
        invariant
            i <= list@.len(),
            forall|j: int| 0 <= j < i ==> list@[j].0@ != reader@,
        decreases list@.len() - i,
    {
        if list[i].0 == *reader {
            return Some(i);
        }
        i = i + 1;
    }
    None
}

fn find_segment<T>(list: &Vec<(SegmentWithRange, T)>, segment: &SegmentWithRange) -> (res: Option<usize>)
    ensures
        match res {
            Some(i) => i < list@.len() && list@[i as int].0@ == segment@,
            None => forall|i: int| 0 <= i < list@.len() ==> list@[i].0@ != segment@,
        },
{
    let mut i: usize = 0;
    while i < list.len()
        invariant
            i <= list@.len(),
            forall|j: int| 0 <= j < i ==> list@[j].0@ != segment@,
        decreases list@.len() - i,
    {
        if list[i].0 == *segment {
            return Some(i);
        }
        i = i + 1;
    }
    None
}

fn find_scoped(list: &Vec<(ScopedSegment, Offset)>, segment: &ScopedSegment) -> (res: Option<usize>)
    ensures
        match res {
            Some(i) => i < list@.len() && list@[i as int].0@ == segment@,
            None => forall|i: int| 0 <= i < list@.len() ==> list@[i].0@ != segment@,
        },
{
    let mut i: usize = 0;
    while i < list.len()
        invariant
            i <= list@.len(),
            forall|j: int| 0 <= j < i ==> list@[j].0@ != segment@,
        decreases list@.len() - i,
    {
        if list[i].0 == *segment {
            return Some(i);
        }
        i = i + 1;
    }
    None
}

/// Sets the offset of `segment` in `list`, adding the segment if it is missing.
fn upsert_offset(list: &mut Vec<(SegmentWithRange, Offset)>, segment: SegmentWithRange, offset: Offset)
    requires
        keys_unique(offsets_seq(old(list)@)),
    ensures
        keys_unique(offsets_seq(final(list)@)),
        offsets_map(final(list)@) == offsets_map(old(list)@).insert(segment@, offset),
{
    let ghost before = list@;
    match find_segment(list, &segment) {
        Some(i) => {
            list.set(i, (segment, offset));
            proof {
                assert(offsets_seq(list@) =~= offsets_seq(before).update(i as int, (offsets_seq(before)[i as int].0, offset)));
                lemma_assoc_update(offsets_seq(before), i as int, offset);
            }
        },
        None => {
            let ghost k = segment@;
            list.push((segment, offset));
            proof {
                assert(!has_key(offsets_seq(before), k));
                assert(offsets_seq(list@) =~= offsets_seq(before).push((k, offset)));
                lemma_assoc_push(offsets_seq(before), k, offset);
            }
        },
    }
}

/// A copy of a list of segments with offsets.
fn clone_offsets(list: &Vec<(SegmentWithRange, Offset)>) -> (r: Vec<(SegmentWithRange, Offset)>)
    ensures
        offsets_seq(r@) == offsets_seq(list@),
{
    let mut r: Vec<(SegmentWithRange, Offset)> = Vec::new();
    let mut i: usize = 0;
    while i < list.len()
        invariant
            i <= list@.len(),
            r@.len() == i,
            forall|j: int| 0 <= j < i ==> #[trigger] r@[j].0@ == list@[j].0@ && r@[j].1 == list@[j].1,
        decreases list@.len() - i,
    {
        r.push((list[i].0.clone(), list[i].1));
        i = i + 1;
    }
    assert(offsets_seq(r@) =~= offsets_seq(list@));
    r
}

/// `numbers` without `n`.
fn remove_number(numbers: &Vec<i64>, n: i64) -> (r: Vec<i64>)
    ensures
        r@.to_set() == numbers@.to_set().remove(n),
        (r@.len() == 0) == (r@.to_set() == Set::<i64>::empty()),
{
    let mut r: Vec<i64> = Vec::new();
    let mut i: usize = 0;
    while i < numbers.len()
        invariant
            i <= numbers@.len(),
            forall|x: i64| r@.contains(x) <==> (numbers@.subrange(0, i as int).contains(x) && x != n),
        decreases numbers@.len() - i,
    {
        let ghost before = r@;
        if numbers[i] != n {
            r.push(numbers[i]);
        }
        proof {
            let pre = numbers@.subrange(0, i as int);
            let next = numbers@.subrange(0, i as int + 1);
            assert(next =~= pre.push(numbers@[i as int]));
            assert forall|x: i64| r@.contains(x) <==> (next.contains(x) && x != n) by {
                if r@.contains(x) {
                    let k = choose|k: int| 0 <= k < r@.len() && r@[k] == x;
                    if k < before.len() {
                        assert(before.contains(x));
                        let k2 = choose|k2: int| 0 <= k2 < pre.len() && pre[k2] == x;
                        assert(next[k2] == x);
                    } else {
                        assert(next[i as int] == x);
                    }
                }
                if next.contains(x) && x != n {
                    let k = choose|k: int| 0 <= k < next.len() && next[k] == x;
                    if k < i {
                        assert(pre[k] == x);
                        assert(pre.contains(x));
                        assert(before.contains(x));
                        let k2 = choose|k2: int| 0 <= k2 < before.len() && before[k2] == x;
                        assert(r@[k2] == x);
                    } else {
                        assert(r@[r@.len() - 1] == x);
                    }
                }
            }
        }
        i = i + 1;
    }
    proof {
        assert(numbers@.subrange(0, numbers@.len() as int) =~= numbers@);
        assert(r@.to_set() =~= numbers@.to_set().remove(n));
        if r@.len() > 0 {
            assert(r@.to_set().contains(r@[0]));
        } else {
            assert(r@.to_set() =~= Set::<i64>::empty());
        }
    }
    r
}

/// Adds `segment` to `list` unless it is there already.
fn push_unique(list: &mut Vec<ScopedSegment>, segment: ScopedSegment)
    requires
        scoped_distinct(old(list)@),
    ensures
        scoped_distinct(final(list)@),
        scoped_set(final(list)@) == scoped_set(old(list)@).insert(segment@),
{
    let ghost before = list@;
    let mut i: usize = 0;
    while i < list.len()
        invariant
            list@ == before,
            scoped_distinct(before),
            i <= list@.len(),
            forall|k: int| 0 <= k < i ==> list@[k]@ != segment@,
        decreases list@.len() - i,
    {
        if list[i] == segment {
            proof {
                assert(scoped_set(list@) =~= scoped_set(before).insert(segment@));
            }
            return;
        }
        i = i + 1;
    }
    let ghost sv = segment@;
    list.push(segment);
    proof {
        assert forall|x: ScopedSegmentView| scoped_set(list@).contains(x) == scoped_set(before).insert(sv).contains(x) by {
            if scoped_set(list@).contains(x) {
                let k = choose|k: int| 0 <= k < list@.len() && list@[k]@ == x;
                if k < before.len() {
                    assert(before[k] == list@[k]);
                }
            }
            if scoped_set(before).contains(x) {
                let k = choose|k: int| 0 <= k < before.len() && before[k]@ == x;
                assert(list@[k] == before[k]);
            }
            if x == sv {
                assert(list@[before.len() as int]@ == x);
            }
        }
        assert(scoped_set(list@) =~= scoped_set(before).insert(sv));
    }
}

/// Adds to `list` the scoped segments of `entries` that it does not hold yet.
fn add_scoped_of(list: &mut Vec<ScopedSegment>, entries: &Vec<(SegmentWithRange, Offset)>)
    requires
        scoped_distinct(old(list)@),
    ensures
        scoped_distinct(final(list)@),
        scoped_set(final(list)@) == scoped_set(old(list)@).union(scoped_of(offsets_map(entries@))),
{
    let ghost before = scoped_set(list@);
    let ghost es = offsets_seq(entries@);
    let mut j: usize = 0;
    while j < entries.len()
        invariant
            j <= entries@.len(),
            es == offsets_seq(entries@),
            scoped_distinct(list@),
            scoped_set(list@) == before.union(Set::new(|x: ScopedSegmentView| exists|k: int| 0 <= k < j && es[k].0.0 == x)),
        decreases entries@.len() - j,
    {
        let seg = entries[j].0.scoped_segment.clone();
        let ghost prev = Set::new(|x: ScopedSegmentView| exists|k: int| 0 <= k < j && es[k].0.0 == x);
        let ghost next = Set::new(|x: ScopedSegmentView| exists|k: int| 0 <= k < j + 1 && es[k].0.0 == x);
        proof {
            assert forall|x: ScopedSegmentView| next.contains(x) == prev.insert(seg@).contains(x) by {
                if next.contains(x) {
                    let k = choose|k: int| 0 <= k < j + 1 && es[k].0.0 == x;
                    if k < j {
                        assert(prev.contains(x));
                    }
                }
                if prev.contains(x) {
                    let k = choose|k: int| 0 <= k < j && es[k].0.0 == x;
                    assert(0 <= k < j + 1 && es[k].0.0 == x);
                }
                if x == seg@ {
                    assert(es[j as int].0.0 == x);
                }
            }
            assert(next =~= prev.insert(seg@));
            assert(before.union(next) =~= before.union(prev).insert(seg@));
        }
        push_unique(list, seg);
        j = j + 1;
    }
    proof {
        let m = offsets_map(entries@);
        assert forall|x: ScopedSegmentView| scoped_of(m).contains(x) == (exists|k: int| 0 <= k < j && es[k].0.0 == x) by {
            if scoped_of(m).contains(x) {
                let s = choose|s: SegmentWithRangeView| m.contains_key(s) && s.0 == x;
                let k = choose|k: int| 0 <= k < es.len() && es[k].0 == s;
                assert(0 <= k < j && es[k].0.0 == x);
            }
            if exists|k: int| 0 <= k < j && es[k].0.0 == x {
                let k = choose|k: int| 0 <= k < j && es[k].0.0 == x;
                assert(has_key(es, es[k].0));
                assert(m.contains_key(es[k].0));
            }
        }
        assert(scoped_of(m) =~= Set::new(|x: ScopedSegmentView| exists|k: int| 0 <= k < j && es[k].0.0 == x));
    }
}

impl ReaderGroupState {
    /// Every list has distinct keys, every successor waits for at least one
    /// predecessor, and the online readers are those with a distance to the tail.
    pub closed spec fn wf(&self) -> bool {
        &&& keys_unique(assigned_seq(self.assigned@))
        &&& forall|i: int| 0 <= i < self.assigned@.len() ==> keys_unique(offsets_seq(#[trigger] self.assigned@[i].1@))
        &&& keys_unique(offsets_seq(self.unassigned@))
        &&& keys_unique(predecessors_seq(self.future@))
        &&& forall|i: int| 0 <= i < self.future@.len() ==> (#[trigger] self.future@[i]).1@.len() > 0
        &&& keys_unique(distance_seq(self.distance_to_tail@))
        &&& self@.assigned.dom() == self@.distance_to_tail.dom()
    }

    /// A state into which nothing has been written yet.
    pub fn empty() -> (r: ReaderGroupState)
        ensures
            r.wf(),
            is_blank(r@),
            segments_partitioned(r@),
    {
        let r = ReaderGroupState {
            scoped_synchronizer_stream: None,
            config: None,
            assigned: Vec::new(),
            unassigned: Vec::new(),
            future: Vec::new(),
            distance_to_tail: Vec::new(),
        };
        proof {
            lemma_assoc_empty(assigned_seq(r.assigned@));
            lemma_assoc_empty(offsets_seq(r.unassigned@));
            lemma_assoc_empty(predecessors_seq(r.future@));
            lemma_assoc_empty(distance_seq(r.distance_to_tail@));
        }
        r
    }

    /// Writes the stream, the configuration and the first segments, each
    /// waiting for a reader at its offset, into a state that holds nothing
    /// yet, and returns `true`; a state that holds anything is left as it is,
    /// and `false` returned.
    pub fn initialize(
        &mut self,
        scoped_synchronizer_stream: ScopedStream,
        config: ReaderGroupConfigVersioned,
        segments_to_offsets: Vec<(SegmentWithRange, Offset)>,
    ) -> (wrote: bool)
        requires
            old(self).wf(),
            keys_unique(offsets_seq(segments_to_offsets@)),
        ensures
            final(self).wf(),
            wrote == is_blank(old(self)@),
            wrote ==> final(self)@ == initialized(scoped_synchronizer_stream@, config@, offsets_map(segments_to_offsets@)),
            !wrote ==> final(self)@ == old(self)@,
            segments_partitioned(old(self)@) ==> segments_partitioned(final(self)@),
    {
        let blank = self.assigned.len() == 0 && self.unassigned.len() == 0 && self.future.len() == 0
            && self.distance_to_tail.len() == 0 && self.scoped_synchronizer_stream.is_none() && self.config.is_none();
        proof {
            if self.assigned@.len() > 0 {
                lemma_assoc_index(assigned_seq(self.assigned@), 0);
            } else {
                lemma_assoc_empty(assigned_seq(self.assigned@));
            }
            if self.unassigned@.len() > 0 {
                lemma_assoc_index(offsets_seq(self.unassigned@), 0);
            } else {
                lemma_assoc_empty(offsets_seq(self.unassigned@));
            }
            if self.future@.len() > 0 {
                lemma_assoc_index(predecessors_seq(self.future@), 0);
            } else {
                lemma_assoc_empty(predecessors_seq(self.future@));
            }
            if self.distance_to_tail@.len() > 0 {
                lemma_assoc_index(distance_seq(self.distance_to_tail@), 0);
            } else {
                lemma_assoc_empty(distance_seq(self.distance_to_tail@));
            }
            assert(blank == is_blank(self@));
        }
        if !blank {
            return false;
        }
        self.scoped_synchronizer_stream = Some(scoped_synchronizer_stream);
        self.config = Some(config);
        self.unassigned = segments_to_offsets;
        true
    }

    /// A state initialized with the stream, the configuration and the first
    /// segments, each waiting for a reader at its offset.
    pub fn new(
        scoped_synchronizer_stream: ScopedStream,
        config: ReaderGroupConfigVersioned,
        segments_to_offsets: Vec<(SegmentWithRange, Offset)>,
    ) -> (r: ReaderGroupState)
        requires
            keys_unique(offsets_seq(segments_to_offsets@)),
        ensures
            r.wf(),
            r@ == initialized(scoped_synchronizer_stream@, config@, offsets_map(segments_to_offsets@)),
            segments_partitioned(r@),
    {
        let mut r = ReaderGroupState::empty();
        r.initialize(scoped_synchronizer_stream, config, segments_to_offsets);
        r
    }

    /// Adds a reader that owns no segment yet; fails if it is already online.
    pub fn add_reader(&mut self, reader: &Reader) -> (res: Result<(), ReaderGroupStateError>)
        requires
            old(self).wf(),
        ensures
            final(self).wf(),
            update_done(old(self)@, final(self)@, res, add_reader_spec(old(self)@, reader@)),
            segments_partitioned(old(self)@) ==> segments_partitioned(final(self)@),
    {
        if let Some(i) = find_reader(&self.assigned, reader) {
            proof {
                lemma_assoc_index(assigned_seq(self.assigned@), i as int);
            }
            return Err(ReaderGroupStateError::ReaderAlreadyOnline);
        }
        proof {
            assert(!has_key(assigned_seq(self.assigned@), reader@));
            assert(!has_key(distance_seq(self.distance_to_tail@), reader@)) by {
                if has_key(distance_seq(self.distance_to_tail@), reader@) {
                    assert(self@.distance_to_tail.contains_key(reader@));
                }
            }
        }
        let ghost old_assigned = self.assigned@;
        let ghost old_distance = self.distance_to_tail@;
        let ghost before = self@;
        let empty: Vec<(SegmentWithRange, Offset)> = Vec::new();
        self.assigned.push((reader.clone(), empty));
        self.distance_to_tail.push((reader.clone(), u64::MAX));
        proof {
            lemma_assoc_empty(offsets_seq(empty@));
            assert(assigned_seq(self.assigned@) =~= assigned_seq(old_assigned).push((reader@, Map::empty())));
            lemma_assoc_push(assigned_seq(old_assigned), reader@, Map::empty());
            assert(distance_seq(self.distance_to_tail@) =~= distance_seq(old_distance).push((reader@, u64::MAX)));
            lemma_assoc_push(distance_seq(old_distance), reader@, u64::MAX);
            assert forall|i: int| 0 <= i < self.assigned@.len() implies keys_unique(offsets_seq(#[trigger] self.assigned@[i].1@)) by {
                if i < old_assigned.len() {
                    assert(self.assigned@[i] == old_assigned[i]);
                }
            }
            assert(self@.assigned.dom() =~= self@.distance_to_tail.dom());
            assert(self@ == add_reader_spec(before, reader@)->Ok_0);
        }
        Ok(())
    }

    /// Where `reader` stands in the list of online readers.
    fn reader_index(&self, reader: &Reader) -> (res: Result<usize, ReaderGroupStateError>)
        requires
            self.wf(),
        ensures
            match res {
                Ok(i) => {
                    &&& i < self.assigned@.len()
                    &&& self.assigned@[i as int].0@ == reader@
                    &&& self@.assigned.contains_key(reader@)
                    &&& self@.assigned[reader@] == offsets_map(self.assigned@[i as int].1@)
                },
                Err(e) => e == ReaderGroupStateError::ReaderNotOnline && !self@.assigned.contains_key(reader@),
            },
    {
        match find_reader(&self.assigned, reader) {
            Some(i) => {
                proof {
                    lemma_assoc_index(assigned_seq(self.assigned@), i as int);
                }
                Ok(i)
            },
            None => {
                proof {
                    assert(!has_key(assigned_seq(self.assigned@), reader@));
                }
                Err(ReaderGroupStateError::ReaderNotOnline)
            },
        }
    }

    /// The segments that `reader` owns, with its offset in each.
    pub fn get_reader_positions(&self, reader: &Reader) -> (res: Result<Vec<(SegmentWithRange, Offset)>, ReaderGroupStateError>)
        requires
            self.wf(),
        ensures
            match res {
                Ok(v) => self@.assigned.contains_key(reader@) && keys_unique(offsets_seq(v@))
                    && offsets_map(v@) == self@.assigned[reader@],
                Err(e) => e == ReaderGroupStateError::ReaderNotOnline && !self@.assigned.contains_key(reader@),
            },
    {
        let i = match self.reader_index(reader) {
            Ok(i) => i,
            Err(e) => return Err(e),
        };
        let v = clone_offsets(&self.assigned[i].1);
        Ok(v)
    }

    /// Overwrites the offsets of the segments that `reader` owns with those in
    /// `latest_positions`; entries for segments that it does not own are ignored.
    pub fn update_reader_positions(
        &mut self,
        reader: &Reader,
        latest_positions: &Vec<(SegmentWithRange, Offset)>,
    ) -> (res: Result<(), ReaderGroupStateError>)
        requires
            old(self).wf(),
            keys_unique(offsets_seq(latest_positions@)),
        ensures
            final(self).wf(),
            update_done(
                old(self)@,
                final(self)@,
                res,
                update_positions_spec(old(self)@, reader@, offsets_map(latest_positions@)),
            ),
            segments_partitioned(old(self)@) ==> segments_partitioned(final(self)@),
    {
        let i = match self.reader_index(reader) {
            Ok(i) => i,
            Err(e) => return Err(e),
        };
        let ghost before = self@;
        let ghost old_assigned = self.assigned@;
        let ghost owned = self.assigned@[i as int].1@;
        let ghost latest = offsets_map(latest_positions@);
        let mut updated: Vec<(SegmentWithRange, Offset)> = Vec::new();
        let n = self.assigned[i].1.len();
        let mut j: usize = 0;
        while j < n
            invariant
                self.assigned@ == old_assigned,
                i < old_assigned.len(),
                owned == old_assigned[i as int].1@,
                n == owned.len(),
                j <= n,
                updated@.len() == j,
                keys_unique(offsets_seq(latest_positions@)),
                latest == offsets_map(latest_positions@),
                forall|k: int| 0 <= k < j ==> (#[trigger] updated@[k]).0@ == owned[k].0@ && updated@[k].1 == (
                    if latest.contains_key(owned[k].0@) { latest[owned[k].0@] } else { owned[k].1 }),
            decreases n - j,
        {
            let entry = &self.assigned[i].1[j];
            let off = match find_segment(latest_positions, &entry.0) {
                Some(k) => {
                    proof {
                        lemma_assoc_index(offsets_seq(latest_positions@), k as int);
                    }
                    latest_positions[k].1
                },
                None => {
                    proof {
                        assert(!has_key(offsets_seq(latest_positions@), entry.0@));
                    }
                    entry.1
                },
            };
            updated.push((entry.0.clone(), off));
            j = j + 1;
        }
        let name = self.assigned[i].0.clone();
        self.assigned.set(i, (name, updated));
        proof {
            let os = offsets_seq(owned);
            let us = offsets_seq(updated@);
            assert(keys_unique(os));
            assert forall|a: int, b: int| 0 <= a < us.len() && 0 <= b < us.len() && a != b implies us[a].0 != us[b].0 by {
                assert(us[a].0 == os[a].0);
                assert(us[b].0 == os[b].0);
            }
            let target = positions_updated(before.assigned[reader@], latest);
            assert forall|s: SegmentWithRangeView| #[trigger] assoc_map(us).contains_key(s) == target.contains_key(s) by {
                if has_key(us, s) {
                    let k = choose|k: int| 0 <= k < us.len() && us[k].0 == s;
                    assert(os[k].0 == s);
                }
                if has_key(os, s) {
                    let k = choose|k: int| 0 <= k < os.len() && os[k].0 == s;
                    assert(us[k].0 == s);
                }
            }
            assert forall|s: SegmentWithRangeView| #[trigger] assoc_map(us).contains_key(s) implies assoc_map(us)[s] == target[s] by {
                let k = choose|k: int| 0 <= k < us.len() && us[k].0 == s;
                lemma_assoc_index(us, k);
                lemma_assoc_index(os, k);
            }
            assert(assoc_map(us) =~= target);
            let a_old = assigned_seq(old_assigned);
            assert(assigned_seq(self.assigned@) =~= a_old.update(i as int, (a_old[i as int].0, target)));
            lemma_assoc_update(a_old, i as int, target);
            assert forall|k: int| 0 <= k < self.assigned@.len() implies keys_unique(offsets_seq(#[trigger] self.assigned@[k].1@)) by {
                if k != i {
                    assert(self.assigned@[k] == old_assigned[k]);
                }
            }
            assert(self@.assigned.dom() =~= before.assigned.dom());
            assert(self@ == update_positions_spec(before, reader@, latest)->Ok_0);
            if segments_partitioned(before) {
                assert forall|r: Seq<char>, s: SegmentWithRangeView| self@.assigned.contains_key(r) && #[trigger] self@.assigned[r].contains_key(s)
                    implies before.assigned[r].contains_key(s) by {}
            }
        }
        Ok(())
    }

    /// Takes `reader` out of the group. Each segment that it owned waits for a
    /// reader again, at the offset that `owned_segments` gives for it, else at
    /// the reader's last recorded position.
    pub fn remove_reader(
        &mut self,
        reader: &Reader,
        owned_segments: &Vec<(ScopedSegment, Offset)>,
    ) -> (res: Result<(), ReaderGroupStateError>)
        requires
            old(self).wf(),
            keys_unique(scoped_offsets_seq(owned_segments@)),
        ensures
            final(self).wf(),
            update_done(
                old(self)@,
                final(self)@,
                res,
                remove_reader_spec(old(self)@, reader@, scoped_offsets_map(owned_segments@)),
            ),
            segments_partitioned(old(self)@) ==> segments_partitioned(final(self)@),
    {
        let i = match self.reader_index(reader) {
            Ok(i) => i,
            Err(e) => return Err(e),
        };
        let ghost before = self@;
        let ghost old_assigned = self.assigned@;
        let ghost entries = self.assigned@[i as int].1@;
        let ghost owned = scoped_offsets_map(owned_segments@);
        proof {
            assert(entries.subrange(0, 0) =~= Seq::<(SegmentWithRange, Offset)>::empty());
            lemma_assoc_empty(offsets_seq(entries.subrange(0, 0)));
            assert(released_into(before.unassigned, Map::empty(), owned) =~= before.unassigned);
        }
        let n = self.assigned[i].1.len();
        let mut j: usize = 0;
        while j < n
            invariant
                self.assigned@ == old_assigned,
                self.future@ == old(self).future@,
                self.distance_to_tail@ == old(self).distance_to_tail@,
                self@.synchronizer_stream == before.synchronizer_stream,
                self@.config == before.config,
                i < old_assigned.len(),
                entries == old_assigned[i as int].1@,
                keys_unique(offsets_seq(entries)),
                n == entries.len(),
                j <= n,
                keys_unique(offsets_seq(self.unassigned@)),
                keys_unique(scoped_offsets_seq(owned_segments@)),
                owned == scoped_offsets_map(owned_segments@),
                offsets_map(self.unassigned@) == released_into(before.unassigned, offsets_map(entries.subrange(0, j as int)), owned),
            decreases n - j,
        {
            let seg = self.assigned[i].1[j].0.clone();
            let pos = self.assigned[i].1[j].1;
            let off = match find_scoped(owned_segments, &seg.scoped_segment) {
                Some(k) => {
                    proof {
                        lemma_assoc_index(scoped_offsets_seq(owned_segments@), k as int);
                    }
                    owned_segments[k].1
                },
                None => {
                    proof {
                        assert(!has_key(scoped_offsets_seq(owned_segments@), seg@.0));
                    }
                    pos
                },
            };
            proof {
                lemma_offsets_prefix(entries, j as int);
                lemma_released_step(before.unassigned, offsets_map(entries.subrange(0, j as int)), owned, seg@, pos);
            }
            upsert_offset(&mut self.unassigned, seg, off);
            j = j + 1;
        }
        proof {
            assert(entries.subrange(0, n as int) =~= entries);
        }
        self.assigned.remove(i);
        proof {
            assert(assigned_seq(self.assigned@) =~= assigned_seq(old_assigned).remove(i as int));
            lemma_assoc_remove(assigned_seq(old_assigned), i as int);
            assert forall|k: int| 0 <= k < self.assigned@.len() implies keys_unique(offsets_seq(#[trigger] self.assigned@[k].1@)) by {
                let k2 = if k < i { k } else { k + 1 };
                assert(self.assigned@[k] == old_assigned[k2]);
            }
        }
        match find_reader(&self.distance_to_tail, reader) {
            Some(d) => {
                let ghost old_distance = self.distance_to_tail@;
                self.distance_to_tail.remove(d);
                proof {
                    assert(distance_seq(self.distance_to_tail@) =~= distance_seq(old_distance).remove(d as int));
                    lemma_assoc_remove(distance_seq(old_distance), d as int);
                }
            },
            None => {
                proof {
                    assert(!has_key(distance_seq(self.distance_to_tail@), reader@));
                    assert(before.distance_to_tail.contains_key(reader@));
                }
            },
        }
        proof {
            assert(self@.assigned.dom() =~= self@.distance_to_tail.dom());
            assert(self@ == remove_reader_spec(before, reader@, owned)->Ok_0);
            if segments_partitioned(before) {
                let g = self@;
                assert forall|r: Seq<char>, s: SegmentWithRangeView| #![trigger g.assigned[r].contains_key(s)]
                    g.assigned.contains_key(r) && g.assigned[r].contains_key(s)
                        implies !g.unassigned.contains_key(s) && !g.future.contains_key(s) by {
                    assert(before.assigned[r].contains_key(s));
                    assert(r != reader@);
                    if before.assigned[reader@].contains_key(s) {
                        assert(false);
                    }
                }
                assert forall|s: SegmentWithRangeView| #![trigger g.unassigned.contains_key(s)]
                    g.unassigned.contains_key(s) implies !g.future.contains_key(s) by {
                    if before.assigned[reader@].contains_key(s) {
                        assert(before.assigned.contains_key(reader@));
                    }
                }
            }
        }
        Ok(())
    }

    /// Replaces the segments of the reader at `i` with `owned`.
    fn set_owned(&mut self, i: usize, owned: Vec<(SegmentWithRange, Offset)>)
        requires
            old(self).wf(),
            i < old(self).assigned@.len(),
            keys_unique(offsets_seq(owned@)),
        ensures
            final(self).wf(),
            final(self)@ == (GroupView {
                assigned: old(self)@.assigned.insert(old(self).assigned@[i as int].0@, offsets_map(owned@)),
                ..old(self)@
            }),
            final(self).assigned@.len() == old(self).assigned@.len(),
            forall|k: int| 0 <= k < final(self).assigned@.len() ==> (#[trigger] final(self).assigned@[k]).0@ == old(self).assigned@[k].0@,
    {
        let ghost old_assigned = self.assigned@;
        let ghost before = self@;
        let name = self.assigned[i].0.clone();
        self.assigned.set(i, (name, owned));
        proof {
            let a_old = assigned_seq(old_assigned);
            assert(assigned_seq(self.assigned@) =~= a_old.update(i as int, (a_old[i as int].0, offsets_map(owned@))));
            lemma_assoc_update(a_old, i as int, offsets_map(owned@));
            assert forall|k: int| 0 <= k < self.assigned@.len() implies keys_unique(offsets_seq(#[trigger] self.assigned@[k].1@)) by {
                if k != i {
                    assert(self.assigned@[k] == old_assigned[k]);
                }
            }
            lemma_assoc_index(a_old, i as int);
            assert(self@.assigned.dom() =~= before.assigned.dom());
            assert forall|k: int| 0 <= k < self.assigned@.len() implies (#[trigger] self.assigned@[k]).0@ == old_assigned[k].0@ by {
                if k != i {
                    assert(self.assigned@[k] == old_assigned[k]);
                }
            }
        }
    }

    /// Moves one unassigned segment, at its offset, to `reader` and returns its
    /// scoped segment; `None` when no segment waits for a reader.
    pub fn assign_segment_to_reader(&mut self, reader: &Reader) -> (res: Result<Option<ScopedSegment>, ReaderGroupStateError>)
        requires
            old(self).wf(),
        ensures
            final(self).wf(),
            match res {
                Err(e) => e == ReaderGroupStateError::ReaderNotOnline && !old(self)@.assigned.contains_key(reader@)
                    && final(self)@ == old(self)@,
                Ok(None) => old(self)@.assigned.contains_key(reader@)
                    && old(self)@.unassigned == Map::<SegmentWithRangeView, Offset>::empty()
                    && final(self)@ == old(self)@,
                Ok(Some(seg)) => old(self)@.assigned.contains_key(reader@)
                    && exists|s: SegmentWithRangeView| old(self)@.unassigned.contains_key(s) && s.0 == seg@
                        && final(self)@ == assign_spec(old(self)@, reader@, s),
            },
            segments_partitioned(old(self)@) ==> segments_partitioned(final(self)@),
    {
        let i = match self.reader_index(reader) {
            Ok(i) => i,
            Err(e) => return Err(e),
        };
        let ghost before = self@;
        if self.unassigned.len() == 0 {
            proof {
                lemma_assoc_empty(offsets_seq(self.unassigned@));
            }
            return Ok(None);
        }
        let ghost old_un = self.unassigned@;
        let last = self.unassigned.len() - 1;
        proof {
            lemma_assoc_index(offsets_seq(old_un), last as int);
            assert(offsets_seq(old_un.remove(last as int)) =~= offsets_seq(old_un).remove(last as int));
            lemma_assoc_remove(offsets_seq(old_un), last as int);
        }
        let (segment, offset) = self.unassigned.remove(last);
        let ghost sv = segment@;
        let scoped = segment.scoped_segment.clone();
        let mut owned = clone_offsets(&self.assigned[i].1);
        proof {
            assert(keys_unique(offsets_seq(self.assigned@[i as int].1@)));
        }
        upsert_offset(&mut owned, segment, offset);
        self.set_owned(i, owned);
        proof {
            assert(self@ == assign_spec(before, reader@, sv));
            if segments_partitioned(before) {
                let g = self@;
                assert forall|r1: Seq<char>, r2: Seq<char>, x: SegmentWithRangeView|
                    #![trigger g.assigned[r1].contains_key(x), g.assigned[r2].contains_key(x)]
                    r1 != r2 && g.assigned.contains_key(r1) && g.assigned.contains_key(r2)
                        && g.assigned[r1].contains_key(x) implies !g.assigned[r2].contains_key(x) by {
                    if x == sv {
                        if r1 != reader@ {
                            assert(before.assigned[r1].contains_key(x));
                        }
                        if r2 != reader@ && g.assigned[r2].contains_key(x) {
                            assert(before.assigned[r2].contains_key(x));
                        }
                    } else {
                        assert(before.assigned[r1].contains_key(x));
                        if g.assigned[r2].contains_key(x) {
                            assert(before.assigned[r2].contains_key(x));
                        }
                    }
                }
                assert forall|r: Seq<char>, x: SegmentWithRangeView| #![trigger g.assigned[r].contains_key(x)]
                    g.assigned.contains_key(r) && g.assigned[r].contains_key(x)
                        implies !g.unassigned.contains_key(x) && !g.future.contains_key(x) by {
                    if x != sv {
                        assert(before.assigned[r].contains_key(x));
                    }
                }
            }
        }
        Ok(Some(scoped))
    }

    /// Moves the one segment named `segment` that `reader` owns back to the
    /// unassigned segments, at `offset`.
    pub fn release_segment(
        &mut self,
        reader: &Reader,
        segment: &ScopedSegment,
        offset: &Offset,
    ) -> (res: Result<(), ReaderGroupStateError>)
        requires
            old(self).wf(),
        ensures
            final(self).wf(),
            update_done(old(self)@, final(self)@, res, release_spec(old(self)@, reader@, segment@, *offset)),
            segments_partitioned(old(self)@) ==> segments_partitioned(final(self)@),
    {
        let i = match self.reader_index(reader) {
            Ok(i) => i,
            Err(e) => return Err(e),
        };
        let ghost before = self@;
        let ghost entries = self.assigned@[i as int].1@;
        let ghost os = offsets_seq(entries);
        let ghost m = before.assigned[reader@];
        proof {
            assert(keys_unique(os));
        }
        let n = self.assigned[i].1.len();
        let mut count: usize = 0;
        let mut found: usize = 0;
        let ghost mut second: int = 0;
        let mut j: usize = 0;
        while j < n
            invariant
                self@ == before,
                self.assigned@[i as int].1@ == entries,
                i < self.assigned@.len(),
                os == offsets_seq(entries),
                n == entries.len(),
                j <= n,
                count <= 2,
                count == 0 ==> forall|k: int| 0 <= k < j ==> entries[k].0@.0 != segment@,
                count >= 1 ==> found < j && entries[found as int].0@.0 == segment@,
                count == 1 ==> forall|k: int| 0 <= k < j && entries[k].0@.0 == segment@ ==> k == found,
                count == 2 ==> 0 <= second < j && second != found && entries[second].0@.0 == segment@,
            decreases n - j,
        {
            if self.assigned[i].1[j].0.scoped_segment == *segment {
                if count == 0 {
                    found = j;
                    count = 1;
                } else if count == 1 {
                    proof {
                        second = j as int;
                    }
                    count = 2;
                }
            }
            j = j + 1;
        }
        if count != 1 {
            proof {
                if names_one(m, segment@) {
                    let s = choose|s: SegmentWithRangeView| names(m, s, segment@) && forall|t: SegmentWithRangeView| #[trigger] names(m, t, segment@) ==> t == s;
                    let k = choose|k: int| 0 <= k < os.len() && os[k].0 == s;
                    assert(entries[k].0@ == s);
                    if count == 2 {
                        lemma_assoc_index(os, found as int);
                        lemma_assoc_index(os, second);
                        assert(names(m, entries[found as int].0@, segment@));
                        assert(names(m, entries[second].0@, segment@));
                        assert(os[found as int].0 != os[second].0);
                    }
                }
            }
            return Err(ReaderGroupStateError::SegmentNotAssigned);
        }
        let ghost sv = entries[found as int].0@;
        proof {
            lemma_assoc_index(os, found as int);
            assert(names(m, sv, segment@));
            assert forall|t: SegmentWithRangeView| #[trigger] names(m, t, segment@) implies t == sv by {
                let k = choose|k: int| 0 <= k < os.len() && os[k].0 == t;
                assert(entries[k].0@ == t);
            }
            assert(names_one(m, segment@));
            let c = choose|s: SegmentWithRangeView| names(m, s, segment@);
            assert(names(m, c, segment@));
            assert(c == sv);
        }
        if let Some(u) = find_segment(&self.unassigned, &self.assigned[i].1[found].0) {
            proof {
                lemma_assoc_index(offsets_seq(self.unassigned@), u as int);
            }
            return Err(ReaderGroupStateError::SegmentAlreadyUnassigned);
        }
        proof {
            assert(!has_key(offsets_seq(self.unassigned@), sv));
        }
        let mut owned = clone_offsets(&self.assigned[i].1);
        let ghost cloned = owned@;
        let (released, _) = owned.remove(found);
        proof {
            assert(offsets_seq(owned@) =~= offsets_seq(cloned).remove(found as int));
            lemma_assoc_remove(offsets_seq(cloned), found as int);
        }
        self.set_owned(i, owned);
        upsert_offset(&mut self.unassigned, released, *offset);
        proof {
            assert(self@ == release_spec(before, reader@, segment@, *offset)->Ok_0);
            if segments_partitioned(before) {
                let g = self@;
                assert forall|r1: Seq<char>, r2: Seq<char>, x: SegmentWithRangeView|
                    #![trigger g.assigned[r1].contains_key(x), g.assigned[r2].contains_key(x)]
                    r1 != r2 && g.assigned.contains_key(r1) && g.assigned.contains_key(r2)
                        && g.assigned[r1].contains_key(x) implies !g.assigned[r2].contains_key(x) by {
                    assert(before.assigned[r1].contains_key(x));
                    if g.assigned[r2].contains_key(x) {
                        assert(before.assigned[r2].contains_key(x));
                    }
                }
                assert forall|r: Seq<char>, x: SegmentWithRangeView| #![trigger g.assigned[r].contains_key(x)]
                    g.assigned.contains_key(r) && g.assigned[r].contains_key(x)
                        implies !g.unassigned.contains_key(x) && !g.future.contains_key(x) by {
                    assert(before.assigned[r].contains_key(x));
                    if x == sv {
                        assert(before.assigned[reader@].contains_key(x));
                    }
                }
                assert forall|x: SegmentWithRangeView| #![trigger g.unassigned.contains_key(x)]
                    g.unassigned.contains_key(x) implies !g.future.contains_key(x) by {
                    if x == sv {
                        assert(before.assigned[reader@].contains_key(x));
                    }
                }
            }
        }
        Ok(())
    }

    /// Records that `reader` finished reading `segment_completed`. The segment
    /// leaves the reader; each successor that is not yet a future segment
    /// becomes one, waiting for its predecessors; the completed segment's number
    /// is struck from every predecessor set; and each future segment that waits
    /// for nothing more becomes unassigned at offset `(0, 0)`.
    pub fn segment_completed(
        &mut self,
        reader: &Reader,
        segment_completed: &SegmentWithRange,
        successors_mapped_to_their_predecessors: &Vec<(SegmentWithRange, Vec<i64>)>,
    ) -> (res: Result<(), ReaderGroupStateError>)
        requires
            old(self).wf(),
            keys_unique(predecessors_seq(successors_mapped_to_their_predecessors@)),
        ensures
            final(self).wf(),
            update_done(
                old(self)@,
                final(self)@,
                res,
                segment_completed_spec(
                    old(self)@,
                    reader@,
                    segment_completed@,
                    predecessors_map(successors_mapped_to_their_predecessors@),
                ),
            ),
            segments_partitioned(old(self)@)
                && successors_fresh(old(self)@, predecessors_map(successors_mapped_to_their_predecessors@))
                ==> segments_partitioned(final(self)@),
    {
        let successors = successors_mapped_to_their_predecessors;
        let i = match self.reader_index(reader) {
            Ok(i) => i,
            Err(e) => return Err(e),
        };
        let ghost before = self@;
        let c = match find_segment(&self.assigned[i].1, segment_completed) {
            Some(c) => c,
            None => {
                proof {
                    assert(!has_key(offsets_seq(self.assigned@[i as int].1@), segment_completed@));
                }
                return Err(ReaderGroupStateError::SegmentNotAssigned);
            },
        };
        let n = segment_completed.scoped_segment.segment.number;
        let ghost succ = predecessors_map(successors@);
        let ghost merged = merged_future(before.future, succ, n);

        // the completed segment leaves the reader
        let mut owned = clone_offsets(&self.assigned[i].1);
        let ghost cloned = owned@;
        proof {
            assert(keys_unique(offsets_seq(self.assigned@[i as int].1@)));
            lemma_assoc_index(offsets_seq(cloned), c as int);
        }
        owned.remove(c);
        proof {
            assert(offsets_seq(owned@) =~= offsets_seq(cloned).remove(c as int));
            lemma_assoc_remove(offsets_seq(cloned), c as int);
        }
        self.set_owned(i, owned);

        // strike the completed segment from the predecessor sets of the future
        // segments, and of the successors that are not future segments yet
        let ghost fseq = predecessors_seq(self.future@);
        let ghost sseq = predecessors_seq(successors@);
        let mut waiting: Vec<(SegmentWithRange, Vec<i64>)> = Vec::new();
        let mut ready: Vec<SegmentWithRange> = Vec::new();
        let ghost mut done: Set<SegmentWithRangeView> = Set::empty();
        proof {
            lemma_assoc_empty(predecessors_seq(waiting@));
            assert(pending_on(merged, done) =~= Map::<SegmentWithRangeView, Set<i64>>::empty());
            assert(ready_on(merged, done) =~= Set::<SegmentWithRangeView>::empty());
        }
        let mut j: usize = 0;
        while j < self.future.len()
            invariant
                self@.future == before.future,
                fseq == predecessors_seq(self.future@),
                keys_unique(fseq),
                merged == merged_future(before.future, succ, n),
                before.future == assoc_map(fseq),
                j <= self.future@.len(),
                done == Set::new(|s: SegmentWithRangeView| exists|k: int| 0 <= k < j && fseq[k].0 == s),
                keys_unique(predecessors_seq(waiting@)),
                forall|k: int| 0 <= k < waiting@.len() ==> (#[trigger] waiting@[k]).1@.len() > 0,
                predecessors_map(waiting@) == pending_on(merged, done),
                forall|s: SegmentWithRangeView| (exists|k: int| 0 <= k < ready@.len() && (#[trigger] ready@[k])@ == s)
                    <==> ready_on(merged, done).contains(s),
            decreases self.future@.len() - j,
        {
            let left = remove_number(&self.future[j].1, n);
            let seg = self.future[j].0.clone();
            let ghost sv = seg@;
            proof {
                lemma_assoc_index(fseq, j as int);
                assert(merged.contains_key(sv));
                assert(merged[sv] == left@.to_set());
                lemma_done_step(merged, done, sv);
                assert(!done.contains(sv)) by {
                    if done.contains(sv) {
                        let k = choose|k: int| 0 <= k < j && fseq[k].0 == sv;
                        assert(fseq[k].0 == fseq[j as int].0);
                    }
                }
            }
            let ghost old_waiting = waiting@;
            let ghost old_ready = ready@;
            if left.len() > 0 {
                waiting.push((seg, left));
                proof {
                    assert(!pending_on(merged, done).contains_key(sv));
                    assert(!has_key(predecessors_seq(old_waiting), sv));
                    assert(predecessors_seq(waiting@) =~= predecessors_seq(old_waiting).push((sv, merged[sv])));
                    lemma_assoc_push(predecessors_seq(old_waiting), sv, merged[sv]);
                }
            } else {
                ready.push(seg);
            }
            proof {
                assert forall|k: int| 0 <= k < waiting@.len() implies (#[trigger] waiting@[k]).1@.len() > 0 by {
                    if k < old_waiting.len() {
                        assert(waiting@[k] == old_waiting[k]);
                    }
                }
                assert forall|s: SegmentWithRangeView| (exists|k: int| 0 <= k < ready@.len() && (#[trigger] ready@[k])@ == s)
                    <==> ready_on(merged, done.insert(sv)).contains(s) by {
                    if exists|k: int| 0 <= k < ready@.len() && (#[trigger] ready@[k])@ == s {
                        let k = choose|k: int| 0 <= k < ready@.len() && (#[trigger] ready@[k])@ == s;
                        if k < old_ready.len() {
                            assert(old_ready[k] == ready@[k]);
                        }
                    }
                    if ready_on(merged, done).contains(s) {
                        let k = choose|k: int| 0 <= k < old_ready.len() && (#[trigger] old_ready[k])@ == s;
                        assert(ready@[k] == old_ready[k]);
                    }
                    if s == sv && left@.len() == 0 {
                        assert(ready@[ready@.len() - 1]@ == s);
                    }
                }
                let next = Set::new(|s: SegmentWithRangeView| exists|k: int| 0 <= k < j + 1 && fseq[k].0 == s);
                assert forall|s: SegmentWithRangeView| next.contains(s) == done.insert(sv).contains(s) by {
                    if next.contains(s) {
                        let k = choose|k: int| 0 <= k < j + 1 && fseq[k].0 == s;
                        if k < j {
                            assert(done.contains(s));
                        }
                    }
                    if done.contains(s) {
                        let k = choose|k: int| 0 <= k < j && fseq[k].0 == s;
                        assert(0 <= k < j + 1 && fseq[k].0 == s);
                    }
                    if s == sv {
                        assert(fseq[j as int].0 == s);
                    }
                }
                assert(next =~= done.insert(sv));
                done = done.insert(sv);
            }
            j = j + 1;
        }
        proof {
            assert(done =~= before.future.dom()) by {
                assert forall|s: SegmentWithRangeView| done.contains(s) == before.future.dom().contains(s) by {
                    if before.future.contains_key(s) {
                        let k = choose|k: int| 0 <= k < fseq.len() && fseq[k].0 == s;
                        assert(0 <= k < j && fseq[k].0 == s);
                    }
                    if done.contains(s) {
                        let k = choose|k: int| 0 <= k < j && fseq[k].0 == s;
                        assert(has_key(fseq, s));
                    }
                }
            }
        }
        let mut j: usize = 0;
        while j < successors.len()
            invariant
                self@.future == before.future,
                keys_unique(predecessors_seq(self.future@)),
                sseq == predecessors_seq(successors@),
                keys_unique(sseq),
                succ == assoc_map(sseq),
                merged == merged_future(before.future, succ, n),
                j <= successors@.len(),
                done == before.future.dom().union(Set::new(|s: SegmentWithRangeView| exists|k: int| 0 <= k < j && sseq[k].0 == s)),
                keys_unique(predecessors_seq(waiting@)),
                forall|k: int| 0 <= k < waiting@.len() ==> (#[trigger] waiting@[k]).1@.len() > 0,
                predecessors_map(waiting@) == pending_on(merged, done),
                forall|s: SegmentWithRangeView| (exists|k: int| 0 <= k < ready@.len() && (#[trigger] ready@[k])@ == s)
                    <==> ready_on(merged, done).contains(s),
            decreases successors@.len() - j,
        {
            let seg = successors[j].0.clone();
            let ghost sv = seg@;
            proof {
                lemma_assoc_index(sseq, j as int);
                assert(merged.contains_key(sv));
            }
            let ghost old_waiting = waiting@;
            let ghost old_ready = ready@;
            let known = find_segment(&self.future, &seg);
            if known.is_none() {
                let left = remove_number(&successors[j].1, n);
                proof {
                    assert(!has_key(predecessors_seq(self.future@), sv));
                    assert(merged[sv] == left@.to_set());
                    lemma_done_step(merged, done, sv);
                    assert(!done.contains(sv)) by {
                        if done.contains(sv) {
                            if !before.future.contains_key(sv) {
                                let k = choose|k: int| 0 <= k < j && sseq[k].0 == sv;
                                assert(sseq[k].0 == sseq[j as int].0);
                            }
                        }
                    }
                }
                if left.len() > 0 {
                    waiting.push((seg, left));
                    proof {
                        assert(!pending_on(merged, done).contains_key(sv));
                        assert(!has_key(predecessors_seq(old_waiting), sv));
                        assert(predecessors_seq(waiting@) =~= predecessors_seq(old_waiting).push((sv, merged[sv])));
                        lemma_assoc_push(predecessors_seq(old_waiting), sv, merged[sv]);
                    }
                } else {
                    ready.push(seg);
                }
                proof {
                    assert forall|k: int| 0 <= k < waiting@.len() implies (#[trigger] waiting@[k]).1@.len() > 0 by {
                        if k < old_waiting.len() {
                            assert(waiting@[k] == old_waiting[k]);
                        }
                    }
                    assert forall|s: SegmentWithRangeView| (exists|k: int| 0 <= k < ready@.len() && (#[trigger] ready@[k])@ == s)
                        <==> ready_on(merged, done.insert(sv)).contains(s) by {
                        if exists|k: int| 0 <= k < ready@.len() && (#[trigger] ready@[k])@ == s {
                            let k = choose|k: int| 0 <= k < ready@.len() && (#[trigger] ready@[k])@ == s;
                            if k < old_ready.len() {
                                assert(old_ready[k] == ready@[k]);
                            }
                        }
                        if ready_on(merged, done).contains(s) {
                            let k = choose|k: int| 0 <= k < old_ready.len() && (#[trigger] old_ready[k])@ == s;
                            assert(ready@[k] == old_ready[k]);
                        }
                        if s == sv && left@.len() == 0 {
                            assert(ready@[ready@.len() - 1]@ == s);
                        }
                    }
                }
            } else {
                proof {
                    let k = known.unwrap() as int;
                    lemma_assoc_index(predecessors_seq(self.future@), k);
                    assert(done.contains(sv));
                    assert(done.insert(sv) =~= done);
                }
            }
            proof {
                let next = before.future.dom().union(Set::new(|s: SegmentWithRangeView| exists|k: int| 0 <= k < j + 1 && sseq[k].0 == s));
                assert forall|s: SegmentWithRangeView| next.contains(s) == done.insert(sv).contains(s) by {
                    if next.contains(s) && !before.future.contains_key(s) {
                        let k = choose|k: int| 0 <= k < j + 1 && sseq[k].0 == s;
                        if k < j {
                            assert(done.contains(s));
                        }
                    }
                    if done.contains(s) && !before.future.contains_key(s) {
                        let k = choose|k: int| 0 <= k < j && sseq[k].0 == s;
                        assert(0 <= k < j + 1 && sseq[k].0 == s);
                    }
                    if s == sv {
                        assert(sseq[j as int].0 == s);
                    }
                }
                assert(next =~= done.insert(sv));
                done = done.insert(sv);
            }
            j = j + 1;
        }
        proof {
            assert(done =~= merged.dom()) by {
                assert forall|s: SegmentWithRangeView| done.contains(s) == merged.dom().contains(s) by {
                    if succ.contains_key(s) && !before.future.contains_key(s) {
                        let k = choose|k: int| 0 <= k < sseq.len() && sseq[k].0 == s;
                        assert(0 <= k < j && sseq[k].0 == s);
                    }
                    if done.contains(s) && !before.future.contains_key(s) {
                        let k = choose|k: int| 0 <= k < j && sseq[k].0 == s;
                        assert(has_key(sseq, s));
                    }
                }
            }
            assert(pending_on(merged, done) =~= still_waiting(merged));
        }
        self.future = waiting;

        // the segments that wait for nothing more become unassigned
        let ghost old_un = self@.unassigned;
        let ghost fut_after = self.future@;
        let ghost asg_after = self.assigned@;
        let ghost dist_after = self.distance_to_tail@;
        let zero = Offset { read: 0, processed: 0 };
        proof {
            assert(old_un.union_prefer_right(Map::new(
                |s: SegmentWithRangeView| exists|k: int| 0 <= k < 0 && ready@[k]@ == s,
                |s: SegmentWithRangeView| zero,
            )) =~= old_un);
        }
        let mut t: usize = 0;
        while t < ready.len()
            invariant
                t <= ready@.len(),
                keys_unique(offsets_seq(self.unassigned@)),
                offsets_map(self.unassigned@) == old_un.union_prefer_right(Map::new(
                    |s: SegmentWithRangeView| exists|k: int| 0 <= k < t && ready@[k]@ == s,
                    |s: SegmentWithRangeView| zero,
                )),
                zero == (Offset { read: 0, processed: 0 }),
                self.future@ == fut_after,
                self.assigned@ == asg_after,
                self.distance_to_tail@ == dist_after,
                self@.synchronizer_stream == before.synchronizer_stream,
                self@.config == before.config,
            decreases ready@.len() - t,
        {
            let seg = ready[t].clone();
            let ghost sv = seg@;
            upsert_offset(&mut self.unassigned, seg, zero);
            proof {
                let prev = Map::new(
                    |s: SegmentWithRangeView| exists|k: int| 0 <= k < t && ready@[k]@ == s,
                    |s: SegmentWithRangeView| zero,
                );
                let next = Map::new(
                    |s: SegmentWithRangeView| exists|k: int| 0 <= k < t + 1 && ready@[k]@ == s,
                    |s: SegmentWithRangeView| zero,
                );
                assert forall|s: SegmentWithRangeView| next.contains_key(s) == prev.insert(sv, zero).contains_key(s) by {
                    if next.contains_key(s) {
                        let k = choose|k: int| 0 <= k < t + 1 && ready@[k]@ == s;
                        if k < t {
                            assert(prev.contains_key(s));
                        }
                    }
                    if prev.contains_key(s) {
                        let k = choose|k: int| 0 <= k < t && ready@[k]@ == s;
                        assert(0 <= k < t + 1 && ready@[k]@ == s);
                    }
                    if s == sv {
                        assert(ready@[t as int]@ == s);
                    }
                }
                assert(next =~= prev.insert(sv, zero));
                assert(old_un.union_prefer_right(next) =~= old_un.union_prefer_right(prev).insert(sv, zero));
            }
            t = t + 1;
        }
        proof {
            let all = Map::new(
                |s: SegmentWithRangeView| exists|k: int| 0 <= k < ready@.len() && ready@[k]@ == s,
                |s: SegmentWithRangeView| zero,
            );
            assert forall|s: SegmentWithRangeView| all.contains_key(s) == ready_to_read(merged).contains_key(s) by {
                if all.contains_key(s) {
                    let k = choose|k: int| 0 <= k < ready@.len() && ready@[k]@ == s;
                    assert(ready_on(merged, done).contains(s));
                }
                if ready_to_read(merged).contains_key(s) {
                    assert(ready_on(merged, done).contains(s));
                    let k = choose|k: int| 0 <= k < ready@.len() && (#[trigger] ready@[k])@ == s;
                }
            }
            assert(all =~= ready_to_read(merged));
            assert(self@ == segment_completed_spec(before, reader@, segment_completed@, succ)->Ok_0);
            if segments_partitioned(before) && successors_fresh(before, succ) {
                let g = self@;
                assert forall|r1: Seq<char>, r2: Seq<char>, x: SegmentWithRangeView|
                    #![trigger g.assigned[r1].contains_key(x), g.assigned[r2].contains_key(x)]
                    r1 != r2 && g.assigned.contains_key(r1) && g.assigned.contains_key(r2)
                        && g.assigned[r1].contains_key(x) implies !g.assigned[r2].contains_key(x) by {
                    assert(before.assigned[r1].contains_key(x));
                    if g.assigned[r2].contains_key(x) {
                        assert(before.assigned[r2].contains_key(x));
                    }
                }
                assert forall|r: Seq<char>, x: SegmentWithRangeView| #![trigger g.assigned[r].contains_key(x)]
                    g.assigned.contains_key(r) && g.assigned[r].contains_key(x)
                        implies !g.unassigned.contains_key(x) && !g.future.contains_key(x) by {
                    assert(before.assigned[r].contains_key(x));
                    if succ.contains_key(x) {
                        assert(!before.assigned[r].contains_key(x));
                    }
                }
                assert forall|x: SegmentWithRangeView| #![trigger g.unassigned.contains_key(x)]
                    g.unassigned.contains_key(x) implies !g.future.contains_key(x) by {
                    if before.unassigned.contains_key(x) && succ.contains_key(x) {
                        assert(false);
                    }
                }
            }
        }
        Ok(())
    }

    /// The scoped segments that `reader` owns, each once.
    pub fn get_segments_for_reader(&self, reader: &Reader) -> (res: Result<Vec<ScopedSegment>, ReaderGroupStateError>)
        requires
            self.wf(),
        ensures
            match res {
                Ok(v) => self@.assigned.contains_key(reader@) && scoped_distinct(v@)
                    && scoped_set(v@) == scoped_of(self@.assigned[reader@]),
                Err(e) => e == ReaderGroupStateError::ReaderNotOnline && !self@.assigned.contains_key(reader@),
            },
    {
        let i = match self.reader_index(reader) {
            Ok(i) => i,
            Err(e) => return Err(e),
        };
        let mut v: Vec<ScopedSegment> = Vec::new();
        proof {
            assert(scoped_set(v@) =~= Set::<ScopedSegmentView>::empty());
        }
        add_scoped_of(&mut v, &self.assigned[i].1);
        proof {
            assert(scoped_set(v@) =~= scoped_of(self@.assigned[reader@]));
        }
        Ok(v)
    }

    /// Every scoped segment that a reader owns or that waits for a reader, each once.
    pub fn get_segments(&self) -> (r: Vec<ScopedSegment>)
        requires
            self.wf(),
        ensures
            scoped_distinct(r@),
            scoped_set(r@) == all_segments(self@),
    {
        let mut v: Vec<ScopedSegment> = Vec::new();
        proof {
            assert(scoped_set(v@) =~= Set::<ScopedSegmentView>::empty());
        }
        add_scoped_of(&mut v, &self.unassigned);
        let ghost aseq = assigned_seq(self.assigned@);
        let ghost g = self@;
        proof {
            assert(scoped_set(v@) =~= scoped_of(g.unassigned).union(Set::new(|x: ScopedSegmentView|
                exists|k: int| 0 <= k < 0 && scoped_of(#[trigger] aseq[k].1).contains(x))));
        }
        let mut j: usize = 0;
        while j < self.assigned.len()
            invariant
                self.wf(),
                g == self@,
                aseq == assigned_seq(self.assigned@),
                j <= self.assigned@.len(),
                scoped_distinct(v@),
                scoped_set(v@) == scoped_of(g.unassigned).union(Set::new(|x: ScopedSegmentView|
                    exists|k: int| 0 <= k < j && scoped_of(#[trigger] aseq[k].1).contains(x))),
            decreases self.assigned@.len() - j,
        {
            add_scoped_of(&mut v, &self.assigned[j].1);
            proof {
                let prev = Set::new(|x: ScopedSegmentView| exists|k: int| 0 <= k < j && scoped_of(#[trigger] aseq[k].1).contains(x));
                let next = Set::new(|x: ScopedSegmentView| exists|k: int| 0 <= k < j + 1 && scoped_of(#[trigger] aseq[k].1).contains(x));
                assert(aseq[j as int].1 == offsets_map(self.assigned@[j as int].1@));
                assert forall|x: ScopedSegmentView| next.contains(x) == prev.union(scoped_of(aseq[j as int].1)).contains(x) by {
                    if next.contains(x) {
                        let k = choose|k: int| 0 <= k < j + 1 && scoped_of(#[trigger] aseq[k].1).contains(x);
                        if k < j {
                            assert(prev.contains(x));
                        }
                    }
                    if prev.contains(x) {
                        let k = choose|k: int| 0 <= k < j && scoped_of(#[trigger] aseq[k].1).contains(x);
                        assert(0 <= k < j + 1 && scoped_of(aseq[k].1).contains(x));
                    }
                }
                assert(next =~= prev.union(scoped_of(aseq[j as int].1)));
                assert(scoped_set(v@) =~= scoped_of(g.unassigned).union(next));
            }
            j = j + 1;
        }
        proof {
            let readers = Set::new(|x: ScopedSegmentView| exists|k: int| 0 <= k < j && scoped_of(#[trigger] aseq[k].1).contains(x));
            assert forall|x: ScopedSegmentView| readers.contains(x) == (exists|r: Seq<char>| g.assigned.contains_key(r) && #[trigger] scoped_of(g.assigned[r]).contains(x)) by {
                if readers.contains(x) {
                    let k = choose|k: int| 0 <= k < j && scoped_of(#[trigger] aseq[k].1).contains(x);
                    lemma_assoc_index(aseq, k);
                    assert(g.assigned.contains_key(aseq[k].0) && scoped_of(g.assigned[aseq[k].0]).contains(x));
                }
                if exists|r: Seq<char>| g.assigned.contains_key(r) && #[trigger] scoped_of(g.assigned[r]).contains(x) {
                    let r = choose|r: Seq<char>| g.assigned.contains_key(r) && #[trigger] scoped_of(g.assigned[r]).contains(x);
                    let k = choose|k: int| 0 <= k < aseq.len() && aseq[k].0 == r;
                    lemma_assoc_index(aseq, k);
                    assert(0 <= k < j && scoped_of(aseq[k].1).contains(x));
                }
            }
            assert(scoped_set(v@) =~= all_segments(g));
        }
        v
    }

    /// The segments that wait for a reader, with the offset each resumes from.
    pub fn get_unassigned_segments(&self) -> (r: Vec<(SegmentWithRange, Offset)>)
        requires
            self.wf(),
        ensures
            keys_unique(offsets_seq(r@)),
            offsets_map(r@) == self@.unassigned,
    {
        clone_offsets(&self.unassigned)
    }

    /// The successor segments that wait for predecessors, with the numbers of
    /// those predecessors.
    pub fn get_future_segments(&self) -> (r: Vec<(SegmentWithRange, Vec<i64>)>)
        requires
            self.wf(),
        ensures
            keys_unique(predecessors_seq(r@)),
            predecessors_map(r@) == self@.future,
    {
        let mut r: Vec<(SegmentWithRange, Vec<i64>)> = Vec::new();
        let mut i: usize = 0;
        while i < self.future.len()
            invariant
                self.wf(),
                i <= self.future@.len(),
                r@.len() == i,
                forall|k: int| 0 <= k < i ==> #[trigger] predecessors_seq(r@)[k] == predecessors_seq(self.future@)[k],
            decreases self.future@.len() - i,
        {
            let mut numbers: Vec<i64> = Vec::new();
            let mut j: usize = 0;
            while j < self.future[i].1.len()
                invariant
                    i < self.future@.len(),
                    j <= self.future@[i as int].1@.len(),
                    numbers@ == self.future@[i as int].1@.take(j as int),
                decreases self.future@[i as int].1@.len() - j,
            {
                numbers.push(self.future[i].1[j]);
                proof {
                    assert(numbers@ =~= self.future@[i as int].1@.take(j + 1));
                }
                j = j + 1;
            }
            proof {
                assert(numbers@ =~= self.future@[i as int].1@);
            }
            let ghost before = r@;
            r.push((self.future[i].0.clone(), numbers));
            proof {
                assert forall|k: int| 0 <= k < i + 1 implies #[trigger] predecessors_seq(r@)[k] == predecessors_seq(self.future@)[k] by {
                    if k < i {
                        assert(r@[k] == before[k]);
                        assert(predecessors_seq(before)[k] == predecessors_seq(self.future@)[k]);
                    }
                }
            }
            i = i + 1;
        }
        proof {
            assert(predecessors_seq(r@) =~= predecessors_seq(self.future@));
        }
        r
    }

    /// The stream that holds this state, once written.
    pub fn scoped_synchronizer_stream(&self) -> (r: Option<&ScopedStream>)
        ensures
            match r {
                Some(s) => self@.synchronizer_stream == Some(s@),
                None => self@.synchronizer_stream is None,
            },
    {
        self.scoped_synchronizer_stream.as_ref()
    }

    /// The reader group's configuration, once written.
    pub fn config(&self) -> (r: Option<&ReaderGroupConfigVersioned>)
        ensures
            match r {
                Some(c) => self@.config == Some(c@),
                None => self@.config is None,
            },
    {
        self.config.as_ref()
    }

    /// The readers that are online, each once.
    pub fn get_online_readers(&self) -> (r: Vec<Reader>)
        requires
            self.wf(),
        ensures
            forall|i: int| 0 <= i < r@.len() ==> self@.assigned.contains_key(#[trigger] r@[i]@),
            forall|k: Seq<char>| self@.assigned.contains_key(k) ==> exists|i: int| 0 <= i < r@.len() && #[trigger] r@[i]@ == k,
            forall|i: int, j: int| 0 <= i < r@.len() && 0 <= j < r@.len() && i != j ==> r@[i]@ != r@[j]@,
    {
        let mut r: Vec<Reader> = Vec::new();
        let mut i: usize = 0;
        while i < self.assigned.len()
            invariant
                self.wf(),
                i <= self.assigned@.len(),
                r@.len() == i,
                forall|j: int| 0 <= j < i ==> #[trigger] r@[j]@ == self.assigned@[j].0@,
            decreases self.assigned@.len() - i,
        {
            r.push(self.assigned[i].0.clone());
            i = i + 1;
        }
        proof {
            let s = assigned_seq(self.assigned@);
            assert forall|j: int| 0 <= j < r@.len() implies self@.assigned.contains_key(#[trigger] r@[j]@) by {
                lemma_assoc_index(s, j);
            }
            assert forall|k: Seq<char>| self@.assigned.contains_key(k) implies exists|j: int| 0 <= j < r@.len() && #[trigger] r@[j]@ == k by {
                let j = choose|j: int| 0 <= j < s.len() && s[j].0 == k;
                assert(r@[j]@ == k);
            }
            assert forall|a: int, b: int| 0 <= a < r@.len() && 0 <= b < r@.len() && a != b implies r@[a]@ != r@[b]@ by {
                assert(s[a].0 == r@[a]@);
                assert(s[b].0 == r@[b]@);
            }
        }
        r
    }
}


/// Completing a segment a second time, with the same reader and successors,
/// fails because the reader no longer owns it; a failed update keeps the state.
pub proof fn lemma_segment_completed_twice_fails(
    g: GroupView,
    reader: Seq<char>,
    completed: SegmentWithRangeView,
    successors: Map<SegmentWithRangeView, Set<i64>>,
)
    requires
        segment_completed_spec(g, reader, completed, successors) is Ok,
    ensures
        segment_completed_spec(segment_completed_spec(g, reader, completed, successors)->Ok_0, reader, completed, successors)
            == Err::<GroupView, ReaderGroupStateError>(ReaderGroupStateError::SegmentNotAssigned),
{
}

/// A reader that joined the group can leave it, handing back no offsets, and
/// then join it again.
pub proof fn lemma_add_remove_add_reader(g: GroupView, reader: Seq<char>)
    requires
        add_reader_spec(g, reader) is Ok,
    ensures
        remove_reader_spec(add_reader_spec(g, reader)->Ok_0, reader, Map::empty()) is Ok,
        add_reader_spec(remove_reader_spec(add_reader_spec(g, reader)->Ok_0, reader, Map::empty())->Ok_0, reader) is Ok,
{
}

} // verus!
