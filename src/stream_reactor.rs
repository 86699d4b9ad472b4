//! The reactor of a whole stream: one writer per active segment, an append
//! routed to the segment whose key range holds its routing position, and the
//! successors of a sealed segment taking over its unacknowledged events.
use vstd::prelude::*;
use crate::reactor::{
    Incoming, ReactorAction, ReactorError, Replies, SegmentReactor, ServerReply, closing_drained, reply_done,
};
use crate::segment_writer::{
    PendingEvent, SegmentWriter, WriterView, events_view, sent_view, write_done, written_view,
};
use crate::shared::{ScopedSegment, ScopedSegmentView, SegmentWithRange, SegmentWithRangeView};

verus! {

/// A writer as the selector holds it: its segment with range, and its state.
pub type SelectedView = (SegmentWithRangeView, WriterView);

/// `position` lies in the range `[min_key, max_key)` of the segment.
pub open spec fn in_range(s: SegmentWithRangeView, position: u64) -> bool {
    s.1 <= position && position < s.2
}

/// The index of the first writer at or after `j` whose range holds
/// `position`; `v.len()` when there is none.
pub open spec fn first_from(v: Seq<SelectedView>, position: u64, j: int) -> int
    decreases v.len() - j,
{
    if j < 0 || j >= v.len() {
        v.len() as int
    } else if in_range(v[j].0, position) {
        j
    } else {
        first_from(v, position, j + 1)
    }
}

pub proof fn lemma_first_from(v: Seq<SelectedView>, position: u64, j: int)
    requires
        0 <= j <= v.len(),
    ensures
        j <= first_from(v, position, j) <= v.len(),
        first_from(v, position, j) < v.len() ==> in_range(v[first_from(v, position, j)].0, position),
        forall|k: int| j <= k < first_from(v, position, j) ==> !in_range(#[trigger] v[k].0, position),
        (exists|k: int| j <= k < v.len() && in_range(#[trigger] v[k].0, position)) ==> first_from(v, position, j) < v.len(),
    decreases v.len() - j,
{
    if j < v.len() && !in_range(v[j].0, position) {
        lemma_first_from(v, position, j + 1);
        if exists|k: int| j <= k < v.len() && in_range(#[trigger] v[k].0, position) {
            let k = choose|k: int| j <= k < v.len() && in_range(#[trigger] v[k].0, position);
            assert(k != j);
            assert(j + 1 <= k < v.len() && in_range(v[k].0, position));
        }
    }
}

/// The writers after the event `(handle, payload, routing position)` went to
/// the first writer whose range holds its position.
pub open spec fn route_one(v: Seq<SelectedView>, e: (u64, Seq<u8>, u64)) -> Seq<SelectedView> {
    let i = first_from(v, e.2, 0);
    v.update(i, (v[i].0, written_view(v[i].1, e.0, e.1)))
}

/// The writers after each event of `es`, in order, was routed.
pub open spec fn route_all(v: Seq<SelectedView>, es: Seq<(u64, Seq<u8>, u64)>) -> Seq<SelectedView>
    decreases es.len(),
{
    if es.len() == 0 {
        v
    } else {
        route_one(route_all(v, es.drop_last()), es.last())
    }
}

/// Each event as (handle, payload, routing position).
pub open spec fn routed_view(events: Seq<(PendingEvent, u64)>) -> Seq<(u64, Seq<u8>, u64)> {
    Seq::new(events.len(), |i: int| (events[i].0.handle, events[i].0.data@, events[i].1))
}

/// `after` keeps every writer of `before`, in place and unchanged, followed
/// by fresh writers for segments of `segments`.
pub open spec fn kept_then_fresh(before: Seq<SelectedView>, after: Seq<SelectedView>, segments: Seq<SegmentWithRange>) -> bool {
    after.len() >= before.len() && after.take(before.len() as int) == before
        && fresh_from(after, before.len() as int, segments)
}

/// `after` is `before` with fresh writers added for the successors that had
/// none, and the sealed segment's writer, if any, taken out: every other
/// writer keeps its place and state.
pub open spec fn handed_over(
    before: Seq<SelectedView>,
    after: Seq<SelectedView>,
    sealed: ScopedSegmentView,
    successors: Seq<SegmentWithRange>,
) -> bool {
    exists|mid: Seq<SelectedView>| #[trigger] kept_then_fresh(before, mid, successors)
        && ((exists|i: int| #[trigger] removed_at(mid, after, sealed, i)) || (!has_writer(mid, sealed) && after == mid))
}

/// Some writer's range in `v` holds `position`.
pub open spec fn has_range(v: Seq<SelectedView>, position: u64) -> bool {
    exists|i: int| 0 <= i < v.len() && in_range(#[trigger] v[i].0, position)
}

/// Some writer of `v` belongs to `segment`.
pub open spec fn has_writer(v: Seq<SelectedView>, segment: ScopedSegmentView) -> bool {
    exists|i: int| 0 <= i < v.len() && v[i].0.0 == segment
}

/// Every segment of `segments` has a writer in `v`.
pub open spec fn covers_all(v: Seq<SelectedView>, segments: Seq<SegmentWithRange>) -> bool {
    forall|k: int| 0 <= k < segments.len() ==> has_writer(v, #[trigger] segments[k]@.0)
}

/// The writers of `v` from index `from` on are fresh writers, not yet
/// connected, for segments of `segments`.
pub open spec fn fresh_from(v: Seq<SelectedView>, from: int, segments: Seq<SegmentWithRange>) -> bool {
    forall|i: int| from <= i < v.len() ==> {
        let w = #[trigger] v[i];
        &&& exists|k: int| 0 <= k < segments.len() && segments[k]@ == w.0
        &&& !w.1.connected && w.1.pending.len() == 0 && w.1.inflight.len() == 0 && w.1.next_event_number == 0
    }
}

/// The writers of a stream's active segments, each segment once.
pub struct SegmentSelector {
    writers: Vec<(SegmentWithRange, SegmentWriter)>,
}

/// What the reactor tells its caller after a step: the action, and the
/// segment whose connection it concerns, if any.
#[derive(Debug)]
pub struct StreamStep {
    pub segment: Option<ScopedSegment>,
    pub action: ReactorAction,
}

impl SegmentSelector {
    /// Each writer with its segment, in the order the selector holds them.
    pub closed spec fn view_seq(&self) -> Seq<SelectedView> {
        Seq::new(self.writers@.len(), |i: int| (self.writers@[i].0@, self.writers@[i].1@))
    }

    /// Every writer is well formed and belongs to its segment, and no segment
    /// has two writers.
    pub closed spec fn wf(&self) -> bool {
        &&& forall|i: int| 0 <= i < self.writers@.len() ==> (#[trigger] self.writers@[i]).1.wf()
            && self.writers@[i].1.segment()@ == self.writers@[i].0.scoped_segment@
        &&& forall|i: int, j: int| 0 <= i < self.writers@.len() && 0 <= j < self.writers@.len() && i != j
            ==> self.writers@[i].0@.0 != self.writers@[j].0@.0
    }

    /// A selector with no writer.
    pub fn new() -> (r: SegmentSelector)
        ensures
            r.wf(),
            r.view_seq().len() == 0,
    {
        SegmentSelector { writers: Vec::new() }
    }

    /// How many writers the selector holds.
    pub fn writer_count(&self) -> (r: usize)
        ensures
            r == self.view_seq().len(),
    {
        self.writers.len()
    }

    fn find(&self, segment: &ScopedSegment) -> (r: Option<usize>)
        ensures
            match r {
                Some(i) => i < self.view_seq().len() && self.view_seq()[i as int].0.0 == segment@,
                None => forall|i: int| 0 <= i < self.view_seq().len() ==> self.view_seq()[i].0.0 != segment@,
            },
    {
        let mut i: usize = 0;
        while i < self.writers.len()
            invariant
                i <= self.writers@.len(),
                forall|k: int| 0 <= k < i ==> self.writers@[k].0@.0 != segment@,
            decreases self.writers@.len() - i,
        {
            if self.writers[i].0.scoped_segment == *segment {
                return Some(i);
            }
            i = i + 1;
        }
        None
    }

    /// Adds a fresh writer, not yet connected, for each segment that has none.
    pub fn initialize(&mut self, segments: &Vec<SegmentWithRange>)
        requires
            old(self).wf(),
        ensures
            final(self).wf(),
            final(self).view_seq().len() >= old(self).view_seq().len(),
            forall|i: int| 0 <= i < old(self).view_seq().len() ==> final(self).view_seq()[i] == old(self).view_seq()[i],
            covers_all(final(self).view_seq(), segments@),
            fresh_from(final(self).view_seq(), old(self).view_seq().len() as int, segments@),
    {
        let ghost before = self.view_seq();
        let ghost mut at: Seq<int> = Seq::empty();
        let mut k: usize = 0;
        while k < segments.len()
            invariant
                self.wf(),
                k <= segments@.len(),
                self.view_seq().len() >= before.len(),
                forall|i: int| 0 <= i < before.len() ==> self.view_seq()[i] == before[i],
                at.len() == k,
                forall|j: int| 0 <= j < k ==> 0 <= #[trigger] at[j] < self.view_seq().len()
                    && self.view_seq()[at[j]].0.0 == segments@[j]@.0,
                forall|i: int| before.len() <= i < self.view_seq().len() ==> {
                    let w = #[trigger] self.view_seq()[i];
                    &&& exists|j: int| 0 <= j < segments@.len() && segments@[j]@ == w.0
                    &&& !w.1.connected && w.1.pending.len() == 0 && w.1.inflight.len() == 0 && w.1.next_event_number == 0
                },
            decreases segments@.len() - k,
        {
            let ghost prev = self.view_seq();
            match self.find(&segments[k].scoped_segment) {
                Some(i) => {
                    proof {
                        assert(self.view_seq()[i as int].0.0 == segments@[k as int]@.0);
                        at = at.push(i as int);
                    }
                },
                None => {
                    let seg = segments[k].clone();
                    let writer = SegmentWriter::new(seg.scoped_segment.clone());
                    let ghost old_writers = self.writers@;
                    self.writers.push((seg, writer));
                    proof {
                        assert forall|i: int| 0 <= i < prev.len() implies self.view_seq()[i] == prev[i] by {
                            assert(self.writers@[i] == old_writers[i]);
                        }
                        let n = prev.len() as int;
                        assert(self.view_seq()[n].0.0 == segments@[k as int]@.0);
                        at = at.push(n);
                        assert forall|j: int| 0 <= j < k + 1 implies 0 <= #[trigger] at[j] < self.view_seq().len()
                            && self.view_seq()[at[j]].0.0 == segments@[j]@.0 by {
                            if j < k {
                                assert(self.view_seq()[at[j]] == prev[at[j]]);
                            }
                        }
                        assert forall|i: int| before.len() <= i < self.view_seq().len() implies {
                            let w = #[trigger] self.view_seq()[i];
                            &&& exists|j: int| 0 <= j < segments@.len() && segments@[j]@ == w.0
                            &&& !w.1.connected && w.1.pending.len() == 0 && w.1.inflight.len() == 0 && w.1.next_event_number == 0
                        } by {
                            if i < n {
                                assert(self.view_seq()[i] == prev[i]);
                            } else {
                                assert(segments@[k as int]@ == self.view_seq()[i].0);
                            }
                        }
                        assert forall|a: int| 0 <= a < self.writers@.len() implies (#[trigger] self.writers@[a]).1.wf()
                            && self.writers@[a].1.segment()@ == self.writers@[a].0.scoped_segment@ by {
                            if a < n {
                                assert(self.writers@[a] == old_writers[a]);
                            }
                        }
                        assert forall|a: int, b: int| 0 <= a < self.writers@.len() && 0 <= b < self.writers@.len() && a != b
                            implies self.writers@[a].0@.0 != self.writers@[b].0@.0 by {
                            if a < n && b < n {
                                assert(self.writers@[a] == old_writers[a]);
                                assert(self.writers@[b] == old_writers[b]);
                            } else if a < n {
                                assert(prev[a].0.0 != segments@[k as int]@.0);
                            } else if b < n {
                                assert(prev[b].0.0 != segments@[k as int]@.0);
                            }
                        }
                    }
                },
            }
            k = k + 1;
        }
        proof {
            let v = self.view_seq();
            let segs = segments@;
            assert forall|j: int| 0 <= j < segs.len() implies has_writer(v, #[trigger] segs[j]@.0) by {
                assert(v[at[j]].0.0 == segs[j]@.0);
            }
            assert(covers_all(v, segs));
            assert(fresh_from(self.view_seq(), before.len() as int, segments@));
        }
    }

    /// The segment whose range holds `position`, if any.
    pub fn get_segment_for_position(&self, position: u64) -> (r: Option<ScopedSegment>)
        ensures
            match r {
                Some(s) => exists|i: int| 0 <= i < self.view_seq().len() && #[trigger] self.view_seq()[i].0.0 == s@
                    && in_range(self.view_seq()[i].0, position),
                None => forall|i: int| 0 <= i < self.view_seq().len() ==> !in_range(#[trigger] self.view_seq()[i].0, position),
            },
            match r {
                Some(s) => first_from(self.view_seq(), position, 0) < self.view_seq().len()
                    && self.view_seq()[first_from(self.view_seq(), position, 0)].0.0 == s@,
                None => first_from(self.view_seq(), position, 0) == self.view_seq().len(),
            },
    {
        let mut i: usize = 0;
        while i < self.writers.len()
            invariant
                i <= self.writers@.len(),
                forall|k: int| 0 <= k < i ==> !in_range(#[trigger] self.view_seq()[k].0, position),
                first_from(self.view_seq(), position, 0) == first_from(self.view_seq(), position, i as int),
            decreases self.writers@.len() - i,
        {
            let s = &self.writers[i].0;
            if s.min_key <= position && position < s.max_key {
                let r = s.scoped_segment.clone();
                proof {
                    assert(self.view_seq()[i as int].0.0 == r@);
                }
                return Some(r);
            }
            proof {
                assert(!in_range(self.view_seq()[i as int].0, position));
                assert(first_from(self.view_seq(), position, i as int) == first_from(self.view_seq(), position, i + 1));
            }
            i = i + 1;
        }
        None
    }

    /// Whether a writer belongs to `segment`.
    pub fn has_writer_for(&self, segment: &ScopedSegment) -> (r: bool)
        ensures
            r == has_writer(self.view_seq(), segment@),
    {
        let r = self.find(segment);
        proof {
            if let Some(i) = r {
                assert(self.view_seq()[i as int].0.0 == segment@);
            }
        }
        r.is_some()
    }

    /// Whether every writer can take `n` more events.
    pub fn can_take(&self, n: usize) -> (r: bool)
        requires
            self.wf(),
        ensures
            r == forall|i: int| 0 <= i < self.view_seq().len() ==> (#[trigger] self.view_seq()[i]).1.next_event_number + n < i64::MAX,
    {
        let mut i: usize = 0;
        while i < self.writers.len()
            invariant
                self.wf(),
                i <= self.writers@.len(),
                forall|k: int| 0 <= k < i ==> (#[trigger] self.view_seq()[k]).1.next_event_number + n < i64::MAX,
            decreases self.writers@.len() - i,
        {
            let next = self.writers[i].1.next_event_number();
            if n as i128 + next as i128 >= i64::MAX as i128 {
                proof {
                    assert(self.view_seq()[i as int].1.next_event_number == next);
                }
                return false;
            }
            proof {
                assert(self.view_seq()[i as int].1.next_event_number == next);
            }
            i = i + 1;
        }
        true
    }

    /// Asks every writer to close; `true` when none has anything left to send
    /// or to see acknowledged.
    pub fn try_close(&mut self) -> (r: bool)
        requires
            old(self).wf(),
        ensures
            final(self).wf(),
            final(self).view_seq().len() == old(self).view_seq().len(),
            forall|i: int| 0 <= i < old(self).view_seq().len() ==> (#[trigger] final(self).view_seq()[i]).0 == old(self).view_seq()[i].0
                && final(self).view_seq()[i].1 == (WriterView { closed: true, ..old(self).view_seq()[i].1 }),
            r == forall|i: int| 0 <= i < old(self).view_seq().len() ==> (#[trigger] old(self).view_seq()[i]).1.inflight.len() == 0
                && old(self).view_seq()[i].1.pending.len() == 0,
    {
        let ghost before = self.view_seq();
        let mut close = true;
        let mut i: usize = 0;
        while i < self.writers.len()
            invariant
                self.wf(),
                i <= self.writers@.len(),
                self.view_seq().len() == before.len(),
                forall|k: int| 0 <= k < i ==> (#[trigger] self.view_seq()[k]).0 == before[k].0
                    && self.view_seq()[k].1 == (WriterView { closed: true, ..before[k].1 }),
                forall|k: int| i <= k < before.len() ==> #[trigger] self.view_seq()[k] == before[k],
                close == forall|k: int| 0 <= k < i ==> (#[trigger] before[k]).1.inflight.len() == 0 && before[k].1.pending.len() == 0,
            decreases self.writers@.len() - i,
        {
            let ghost prev = self.writers@;
            let ghost pv = self.view_seq();
            proof {
                assert(pv[i as int] == before[i as int]);
                assert(pv[i as int].1 == prev[i as int].1@);
            }
            let (seg, mut writer) = self.writers.remove(i);
            proof {
                assert(writer@ == before[i as int].1);
            }
            let idle = writer.try_close();
            let ghost w_after = writer@;
            self.writers.insert(i, (seg, writer));
            proof {
                assert(self.writers@[i as int].1@ == w_after);
                assert(self.writers@ =~= prev.update(i as int, self.writers@[i as int]));
                assert(self.view_seq()[i as int].1 == (WriterView { closed: true, ..before[i as int].1 }));
                assert forall|k: int| 0 <= k < self.writers@.len() && k != i implies #[trigger] self.view_seq()[k] == (
                    Seq::new(prev.len(), |j: int| (prev[j].0@, prev[j].1@)))[k] by {
                    assert(self.writers@[k] == prev[k]);
                }
                assert forall|a: int, b: int| 0 <= a < self.writers@.len() && 0 <= b < self.writers@.len() && a != b
                    implies self.writers@[a].0@.0 != self.writers@[b].0@.0 by {
                    assert(self.writers@[a].0@ == prev[a].0@);
                    assert(self.writers@[b].0@ == prev[b].0@);
                }
                assert forall|a: int| 0 <= a < self.writers@.len() implies (#[trigger] self.writers@[a]).1.wf()
                    && self.writers@[a].1.segment()@ == self.writers@[a].0.scoped_segment@ by {
                    if a != i {
                        assert(self.writers@[a] == prev[a]);
                    }
                }
            }
            close = close && idle;
            i = i + 1;
        }
        close
    }
}

/// `after` is `before` with the writer at `i`, which belongs to `segment`,
/// taken out.
pub open spec fn removed_at(before: Seq<SelectedView>, after: Seq<SelectedView>, segment: ScopedSegmentView, i: int) -> bool {
    0 <= i < before.len() && before[i].0.0 == segment && after == before.remove(i)
}

/// `after` is `before` with only the state of the writer at `i` changed.
pub open spec fn changed_at(before: Seq<SelectedView>, after: Seq<SelectedView>, i: int) -> bool {
    0 <= i < before.len() && after == before.update(i, (before[i].0, after[i].1))
}

/// No segment has two writers in `v`.
pub open spec fn keys_distinct(v: Seq<SelectedView>) -> bool {
    forall|i: int, j: int| 0 <= i < v.len() && 0 <= j < v.len() && i != j ==> v[i].0.0 != v[j].0.0
}

/// The handle and payload of each unacknowledged event of a writer: the
/// in-flight ones, then the pending ones.
pub open spec fn unacked(w: WriterView) -> Seq<(u64, Seq<u8>)> {
    Seq::new((w.inflight + w.pending).len(), |i: int| ((w.inflight + w.pending)[i].1, (w.inflight + w.pending)[i].2))
}

/// Some writer's range holds `position`, and every writer can take one more
/// event.
pub open spec fn routable(v: Seq<SelectedView>, position: u64) -> bool {
    &&& exists|i: int| 0 <= i < v.len() && in_range(#[trigger] v[i].0, position)
    &&& forall|i: int| 0 <= i < v.len() ==> (#[trigger] v[i]).1.next_event_number < i64::MAX
}

/// Every writer was asked to close and has nothing left waiting.
pub open spec fn all_closing_drained(v: Seq<SelectedView>) -> bool {
    forall|i: int| 0 <= i < v.len() ==> closing_drained(#[trigger] v[i].1)
}

/// The stream reactor tells its caller what the writer's reply told, except
/// that it ends only when every writer was asked to close and has drained;
/// until then a drained writer's acknowledgement just completes its handles.
pub open spec fn stream_action(writer_action: ReactorAction, res: Result<ReactorAction, ReactorError>, all_drained: bool) -> bool {
    match writer_action {
        ReactorAction::CompleteAndClose { acked: h } => if all_drained {
            res matches Ok(ReactorAction::CompleteAndClose { acked: h2 }) && h2@ == h@
        } else {
            res matches Ok(ReactorAction::Complete { acked: h2, send: v }) && h2@ == h@ && v@.len() == 0
        },
        _ => res == Ok::<ReactorAction, ReactorError>(writer_action),
    }
}

/// What a reply for `segment` does to the writers and what the caller is
/// told (see `StreamReactor::process_server_reply`).
pub open spec fn stream_reply_done(
    reply: Replies,
    segment: ScopedSegmentView,
    before: Seq<SelectedView>,
    after: Seq<SelectedView>,
    res: Result<ReactorAction, ReactorError>,
) -> bool {
    match reply {
        Replies::SegmentIsSealed { .. } => res matches Ok(ReactorAction::FetchSuccessors) && after == before,
        Replies::NoSuchSegment { .. } => res matches Ok(ReactorAction::FetchSuccessors) && after == before,
        Replies::Other => res == Err::<ReactorAction, ReactorError>(ReactorError::UnexpectedReply) && after == before,
        _ => exists|i: int, writer_action: ReactorAction| before[i].0.0 == segment && changed_at(before, after, i)
            && reply_done(reply, before[i].1, after[i].1, Ok(writer_action))
            && stream_action(writer_action, res, all_closing_drained(after)),
    }
}

/// The action of a step, or its error.
pub open spec fn action_of(res: Result<StreamStep, ReactorError>) -> Result<ReactorAction, ReactorError> {
    match res {
        Ok(step) => Ok(step.action),
        Err(e) => Err(e),
    }
}

impl SegmentSelector {
    proof fn lemma_changed(&self, old_writers: Seq<(SegmentWithRange, SegmentWriter)>, i: int)
        requires
            0 <= i < old_writers.len(),
            self.writers@ == old_writers.update(i, (old_writers[i].0, self.writers@[i].1)),
        ensures
            self.view_seq() == Seq::new(old_writers.len(), |k: int| (old_writers[k].0@, old_writers[k].1@)).update(
                i,
                (old_writers[i].0@, self.view_seq()[i].1),
            ),
    {
        assert(self.view_seq() =~= Seq::new(old_writers.len(), |k: int| (old_writers[k].0@, old_writers[k].1@)).update(
            i,
            (old_writers[i].0@, self.view_seq()[i].1),
        ));
    }

    /// Every writer was asked to close and has nothing left waiting.
    pub fn all_closing_drained(&self) -> (r: bool)
        requires
            self.wf(),
        ensures
            r == all_closing_drained(self.view_seq()),
    {
        let mut i: usize = 0;
        while i < self.writers.len()
            invariant
                self.wf(),
                i <= self.writers@.len(),
                forall|k: int| 0 <= k < i ==> closing_drained(#[trigger] self.view_seq()[k].1),
            decreases self.writers@.len() - i,
        {
            let w = &self.writers[i].1;
            if !(w.is_closing() && w.inflight_append_num() == 0 && w.pending_append_num() == 0) {
                proof {
                    assert(!closing_drained(self.view_seq()[i as int].1));
                }
                return false;
            }
            proof {
                assert(closing_drained(self.view_seq()[i as int].1));
            }
            i = i + 1;
        }
        true
    }

    proof fn lemma_keys_distinct(&self)
        requires
            self.wf(),
        ensures
            keys_distinct(self.view_seq()),
    {
    }

    /// Takes out the writer of `segment`, if there is one.
    pub fn remove_segment_event_writer(&mut self, segment: &ScopedSegment) -> (r: Option<SegmentWriter>)
        requires
            old(self).wf(),
        ensures
            final(self).wf(),
            match r {
                Some(w) => w.wf() && exists|i: int| removed_at(old(self).view_seq(), final(self).view_seq(), segment@, i)
                    && w@ == old(self).view_seq()[i].1,
                None => !has_writer(old(self).view_seq(), segment@) && final(self).view_seq() == old(self).view_seq(),
            },
    {
        match self.find(segment) {
            Some(i) => {
                let ghost before = self.writers@;
                let ghost bv = self.view_seq();
                let (_, w) = self.writers.remove(i);
                proof {
                    assert(self.view_seq() =~= bv.remove(i as int));
                    assert(removed_at(bv, self.view_seq(), segment@, i as int));
                    assert forall|a: int| 0 <= a < self.writers@.len() implies (#[trigger] self.writers@[a]).1.wf()
                        && self.writers@[a].1.segment()@ == self.writers@[a].0.scoped_segment@ by {
                        let a2 = if a < i { a } else { a + 1 };
                        assert(self.writers@[a] == before[a2]);
                    }
                    assert forall|a: int, b: int| 0 <= a < self.writers@.len() && 0 <= b < self.writers@.len() && a != b
                        implies self.writers@[a].0@.0 != self.writers@[b].0@.0 by {
                        let a2 = if a < i { a } else { a + 1 };
                        let b2 = if b < i { b } else { b + 1 };
                        assert(self.writers@[a] == before[a2]);
                        assert(self.writers@[b] == before[b2]);
                    }
                }
                Some(w)
            },
            None => None,
        }
    }
}

/// The reactor of a whole stream.
pub struct StreamReactor {}

impl StreamReactor {
    /// Acts on a server reply for the writer of the reply's segment: an
    /// acknowledgement, a setup or a wrong host goes to that writer as in a
    /// segment reactor; a sealed or missing segment asks for its successors;
    /// any other reply ends the reactor.
    pub fn process_server_reply(server_reply: ServerReply, selector: &mut SegmentSelector) -> (res: Result<ReactorAction, ReactorError>)
        requires
            old(selector).wf(),
            has_writer(old(selector).view_seq(), server_reply.segment@),
        ensures
            final(selector).wf(),
            stream_reply_done(server_reply.reply, server_reply.segment@, old(selector).view_seq(), final(selector).view_seq(), res),
    {
        match &server_reply.reply {
            Replies::SegmentIsSealed { .. } => return Ok(ReactorAction::FetchSuccessors),
            Replies::NoSuchSegment { .. } => return Ok(ReactorAction::FetchSuccessors),
            Replies::Other => return Err(ReactorError::UnexpectedReply),
            _ => {},
        }
        let i = match selector.find(&server_reply.segment) {
            Some(i) => i,
            None => {
                proof {
                    assert(false);
                }
                return Err(ReactorError::UnexpectedReply);
            },
        };
        let ghost before = selector.writers@;
        let ghost bv = selector.view_seq();
        let ghost reply = server_reply.reply;
        let (seg, mut writer) = selector.writers.remove(i);
        proof {
            assert(writer == before[i as int].1);
        }
        let res = SegmentReactor::process_server_reply(server_reply, &mut writer);
        let ghost writer_res = res;
        selector.writers.insert(i, (seg, writer));
        proof {
            assert(selector.writers@ =~= before.update(i as int, (before[i as int].0, selector.writers@[i as int].1)));
            selector.lemma_changed(before, i as int);
            assert(Seq::new(before.len(), |k: int| (before[k].0@, before[k].1@)) =~= bv);
            assert(changed_at(bv, selector.view_seq(), i as int));
            assert forall|a: int| 0 <= a < selector.writers@.len() implies (#[trigger] selector.writers@[a]).1.wf()
                && selector.writers@[a].1.segment()@ == selector.writers@[a].0.scoped_segment@ by {
                if a != i {
                    assert(selector.writers@[a] == before[a]);
                }
            }
            assert forall|a: int, b: int| 0 <= a < selector.writers@.len() && 0 <= b < selector.writers@.len() && a != b
                implies selector.writers@[a].0@.0 != selector.writers@[b].0@.0 by {
                assert(selector.writers@[a].0 == before[a].0);
                assert(selector.writers@[b].0 == before[b].0);
            }
        }
        let all_drained = selector.all_closing_drained();
        let out = match res {
            Ok(ReactorAction::CompleteAndClose { acked }) => {
                if all_drained {
                    Ok(ReactorAction::CompleteAndClose { acked })
                } else {
                    let send: Vec<(i64, Vec<u8>)> = Vec::new();
                    Ok(ReactorAction::Complete { acked, send })
                }
            },
            other => other,
        };
        proof {
            assert(writer_res is Ok);
            let writer_action = writer_res->Ok_0;
            assert(writer_res == Ok::<ReactorAction, ReactorError>(writer_action));
            assert(stream_action(writer_action, out, all_closing_drained(selector.view_seq())));
            assert(bv[i as int].0.0 == server_reply.segment@);
            assert(reply_done(reply, bv[i as int].1, selector.view_seq()[i as int].1, Ok(writer_action)));
        }
        out
    }

    /// Hands the stream over from a sealed segment to its successors: with
    /// none the stream is sealed and the reactor ends; otherwise each successor
    /// gets a writer, the sealed segment's writer leaves, and its
    /// unacknowledged events come back to be routed again.
    pub fn segment_sealed(
        selector: &mut SegmentSelector,
        sealed: &ScopedSegment,
        successors: &Vec<SegmentWithRange>,
    ) -> (res: Result<Vec<PendingEvent>, ReactorError>)
        requires
            old(selector).wf(),
        ensures
            final(selector).wf(),
            successors@.len() == 0 <==> res == Err::<Vec<PendingEvent>, ReactorError>(ReactorError::StreamIsSealed),
            successors@.len() == 0 ==> final(selector).view_seq() == old(selector).view_seq(),
            successors@.len() > 0 ==> !has_writer(final(selector).view_seq(), sealed@),
            successors@.len() > 0 ==> handed_over(old(selector).view_seq(), final(selector).view_seq(), sealed@, successors@),
            successors@.len() > 0 ==> forall|k: int| 0 <= k < successors@.len() && successors@[k]@.0 != sealed@
                ==> has_writer(final(selector).view_seq(), #[trigger] successors@[k]@.0),
            successors@.len() > 0 && has_writer(old(selector).view_seq(), sealed@) ==> exists|i: int|
                0 <= i < old(selector).view_seq().len() && old(selector).view_seq()[i].0.0 == sealed@
                && (res matches Ok(events) && events_view(events@) == unacked(old(selector).view_seq()[i].1)),
    {
        if successors.len() == 0 {
            return Err(ReactorError::StreamIsSealed);
        }
        let ghost bv = selector.view_seq();
        selector.initialize(successors);
        let ghost mid = selector.view_seq();
        proof {
            selector.lemma_keys_distinct();
            assert(mid.take(bv.len() as int) =~= bv);
            assert(kept_then_fresh(bv, mid, successors@));
        }
        let ghost mut idx: int = -1;
        let events = match selector.remove_segment_event_writer(sealed) {
            Some(w) => {
                let ghost wv = w@;
                let events = w.take_unacked();
                proof {
                    let i = choose|i: int| removed_at(mid, selector.view_seq(), sealed@, i) && wv == mid[i].1;
                    assert(removed_at(mid, selector.view_seq(), sealed@, i));
                    idx = i;
                    assert forall|j: int| 0 <= j < selector.view_seq().len() implies selector.view_seq()[j].0.0 != sealed@ by {
                        let j2 = if j < i { j } else { j + 1 };
                        assert(selector.view_seq()[j] == mid[j2]);
                        assert(j2 != i);
                    }
                    assert forall|k: int| 0 <= k < successors@.len() && successors@[k]@.0 != sealed@
                        implies has_writer(selector.view_seq(), #[trigger] successors@[k]@.0) by {
                        assert(has_writer(mid, successors@[k]@.0));
                        let j = choose|j: int| 0 <= j < mid.len() && mid[j].0.0 == successors@[k]@.0;
                        let j2 = if j < i { j } else { j - 1 };
                        assert(selector.view_seq()[j2] == mid[j]);
                    }
                    if has_writer(bv, sealed@) {
                        let i0 = choose|i0: int| 0 <= i0 < bv.len() && bv[i0].0.0 == sealed@;
                        assert(mid[i0] == bv[i0]);
                        assert(i0 == i);
                        assert(events_view(events@) == unacked(bv[i0].1));
                    }
                }
                events
            },
            None => {
                proof {
                    if has_writer(bv, sealed@) {
                        let i0 = choose|i0: int| 0 <= i0 < bv.len() && bv[i0].0.0 == sealed@;
                        assert(mid[i0] == bv[i0]);
                    }
                    assert(!has_writer(mid, sealed@) && selector.view_seq() == mid);
                }
                Vec::new()
            },
        };
        proof {
            assert(kept_then_fresh(bv, mid, successors@));
            if idx >= 0 {
                assert(removed_at(mid, selector.view_seq(), sealed@, idx));
                assert(handed_over(bv, selector.view_seq(), sealed@, successors@));
            } else {
                assert(!has_writer(mid, sealed@) && selector.view_seq() == mid);
                assert(handed_over(bv, selector.view_seq(), sealed@, successors@));
            }
        }
        Ok(events)
    }

    /// One step of the reactor's loop. An event goes to the writer whose
    /// range holds `position` (where its routing key falls in `[0, 1]`; read
    /// for an append only); a reply is acted on; a closed writer leaves, and
    /// the reactor ends with it when asked to and no writer is left; a close
    /// request ends it once no writer has anything waiting.
    pub fn run_once(selector: &mut SegmentSelector, event: Incoming, position: u64) -> (res: Result<StreamStep, ReactorError>)
        requires
            old(selector).wf(),
            event is AppendEvent ==> routable(old(selector).view_seq(), position),
            event matches Incoming::ServerReply(r) ==> has_writer(old(selector).view_seq(), r.segment@),
        ensures
            final(selector).wf(),
            match event {
                Incoming::AppendEvent(e) => exists|i: int| in_range(old(selector).view_seq()[i].0, position)
                    && i == first_from(old(selector).view_seq(), position, 0)
                    && changed_at(old(selector).view_seq(), final(selector).view_seq(), i)
                    && (res matches Ok(step) && (step.segment matches Some(s) && s@ == old(selector).view_seq()[i].0.0)
                    && (step.action matches ReactorAction::Send(v)
                    && write_done(old(selector).view_seq()[i].1, e.handle, e.data@, final(selector).view_seq()[i].1, sent_view(v@)))),
                Incoming::ServerReply(r) => stream_reply_done(r.reply, r.segment@, old(selector).view_seq(), final(selector).view_seq(), action_of(res)),
                Incoming::CloseSegmentWriter { segment, close_reactor } => {
                    &&& !has_writer(old(selector).view_seq(), segment@) ==> final(selector).view_seq() == old(selector).view_seq()
                    &&& has_writer(old(selector).view_seq(), segment@) ==> exists|i: int|
                        removed_at(old(selector).view_seq(), final(selector).view_seq(), segment@, i)
                    &&& (close_reactor && final(selector).view_seq().len() == 0) ==> res == Err::<StreamStep, ReactorError>(ReactorError::Closed)
                    &&& !(close_reactor && final(selector).view_seq().len() == 0) ==> (res matches Ok(step) && step.action is Idle)
                },
                Incoming::CloseReactor => {
                    let idle = forall|i: int| 0 <= i < old(selector).view_seq().len()
                        ==> (#[trigger] old(selector).view_seq()[i]).1.inflight.len() == 0 && old(selector).view_seq()[i].1.pending.len() == 0;
                    &&& final(selector).view_seq().len() == old(selector).view_seq().len()
                    &&& forall|i: int| 0 <= i < old(selector).view_seq().len() ==> (#[trigger] final(selector).view_seq()[i]).0
                        == old(selector).view_seq()[i].0
                        && final(selector).view_seq()[i].1 == (WriterView { closed: true, ..old(selector).view_seq()[i].1 })
                    &&& idle ==> res == Err::<StreamStep, ReactorError>(ReactorError::Closed)
                    &&& !idle ==> (res matches Ok(step) && step.action is Idle)
                },
            },
    {
        match event {
            Incoming::AppendEvent(pending_event) => {
                let seg = match selector.get_segment_for_position(position) {
                    Some(seg) => seg,
                    None => {
                        proof {
                            let i = choose|i: int| 0 <= i < selector.view_seq().len() && in_range(#[trigger] selector.view_seq()[i].0, position);
                            assert(!in_range(selector.view_seq()[i].0, position));
                        }
                        return Err(ReactorError::UnexpectedReply);
                    },
                };
                let i = match selector.find(&seg) {
                    Some(i) => i,
                    None => {
                        proof {
                            let j = choose|j: int| 0 <= j < selector.view_seq().len() && #[trigger] selector.view_seq()[j].0.0 == seg@
                                && in_range(selector.view_seq()[j].0, position);
                            assert(selector.view_seq()[j].0.0 != seg@);
                        }
                        return Err(ReactorError::UnexpectedReply);
                    },
                };
                let ghost before = selector.writers@;
                let ghost bv = selector.view_seq();
                proof {
                    selector.lemma_keys_distinct();
                    lemma_first_from(bv, position, 0);
                    let j = first_from(bv, position, 0);
                    if j != i as int {
                        assert(bv[j].0.0 == bv[i as int].0.0);
                    }
                    assert(in_range(bv[i as int].0, position));
                    assert(bv[i as int].1.next_event_number < i64::MAX);
                }
                let (range, mut writer) = selector.writers.remove(i);
                proof {
                    assert(writer == before[i as int].1);
                }
                let ghost handle = pending_event.handle;
                let ghost data = pending_event.data@;
                let send = writer.write(pending_event);
                selector.writers.insert(i, (range, writer));
                proof {
                    assert(selector.writers@ =~= before.update(i as int, (before[i as int].0, selector.writers@[i as int].1)));
                    selector.lemma_changed(before, i as int);
                    assert(Seq::new(before.len(), |k: int| (before[k].0@, before[k].1@)) =~= bv);
                    assert(changed_at(bv, selector.view_seq(), i as int));
                    assert forall|a: int| 0 <= a < selector.writers@.len() implies (#[trigger] selector.writers@[a]).1.wf()
                        && selector.writers@[a].1.segment()@ == selector.writers@[a].0.scoped_segment@ by {
                        if a != i {
                            assert(selector.writers@[a] == before[a]);
                        }
                    }
                    assert forall|a: int, b: int| 0 <= a < selector.writers@.len() && 0 <= b < selector.writers@.len() && a != b
                        implies selector.writers@[a].0@.0 != selector.writers@[b].0@.0 by {
                        assert(selector.writers@[a].0 == before[a].0);
                        assert(selector.writers@[b].0 == before[b].0);
                    }
                    assert(write_done(bv[i as int].1, handle, data, selector.view_seq()[i as int].1, sent_view(send@)));
                }
                Ok(StreamStep { segment: Some(seg), action: ReactorAction::Send(send) })
            },
            Incoming::ServerReply(server_reply) => {
                let seg = server_reply.segment.clone();
                match StreamReactor::process_server_reply(server_reply, selector) {
                    Ok(action) => Ok(StreamStep { segment: Some(seg), action }),
                    Err(e) => Err(e),
                }
            },
            Incoming::CloseSegmentWriter { segment, close_reactor } => {
                let _ = selector.remove_segment_event_writer(&segment);
                if close_reactor && selector.writer_count() == 0 {
                    Err(ReactorError::Closed)
                } else {
                    Ok(StreamStep { segment: None, action: ReactorAction::Idle })
                }
            },
            Incoming::CloseReactor => {
                if selector.try_close() {
                    Err(ReactorError::Closed)
                } else {
                    Ok(StreamStep { segment: None, action: ReactorAction::Idle })
                }
            },
        }
    }
    /// Routes events again, each to the first writer whose range holds its
    /// routing position, in order: the unacknowledged events of a sealed
    /// segment go to its successors this way. One step per event says what
    /// goes on which connection.
    pub fn resend(selector: &mut SegmentSelector, events: Vec<(PendingEvent, u64)>) -> (steps: Vec<StreamStep>)
        requires
            old(selector).wf(),
            forall|k: int| 0 <= k < events@.len() ==> has_range(old(selector).view_seq(), (#[trigger] events@[k]).1),
            forall|i: int| 0 <= i < old(selector).view_seq().len()
                ==> (#[trigger] old(selector).view_seq()[i]).1.next_event_number + events@.len() < i64::MAX,
        ensures
            final(selector).wf(),
            final(selector).view_seq() == route_all(old(selector).view_seq(), routed_view(events@)),
            steps@.len() == events@.len(),
    {
        let ghost v0 = selector.view_seq();
        let ghost es = routed_view(events@);
        let ghost all = events@;
        let n = events.len();
        let mut rest = events;
        let mut steps: Vec<StreamStep> = Vec::new();
        let mut k: usize = 0;
        proof {
            assert(es.take(0) =~= Seq::<(u64, Seq<u8>, u64)>::empty());
        }
        while k < n
            invariant
                selector.wf(),
                n == all.len(),
                es == routed_view(all),
                k <= n,
                rest@ == all.subrange(k as int, n as int),
                steps@.len() == k,
                selector.view_seq() == route_all(v0, es.take(k as int)),
                selector.view_seq().len() == v0.len(),
                forall|i: int| 0 <= i < v0.len() ==> (#[trigger] selector.view_seq()[i]).0 == v0[i].0
                    && selector.view_seq()[i].1.next_event_number <= v0[i].1.next_event_number + k,
                forall|j: int| 0 <= j < all.len() ==> has_range(v0, (#[trigger] all[j]).1),
                forall|i: int| 0 <= i < v0.len() ==> (#[trigger] v0[i]).1.next_event_number + all.len() < i64::MAX,
            decreases n - k,
        {
            let ghost cur = selector.view_seq();
            let (event, position) = rest.remove(0);
            proof {
                assert(all[k as int] == (event, position));
                assert(has_range(v0, all[k as int].1));
                let i0 = choose|i: int| 0 <= i < v0.len() && in_range(#[trigger] v0[i].0, all[k as int].1);
                assert(in_range(cur[i0].0, position));
                assert forall|i: int| 0 <= i < cur.len() implies (#[trigger] cur[i]).1.next_event_number < i64::MAX by {
                    assert(cur[i].1.next_event_number <= v0[i].1.next_event_number + k);
                }
            }
            let ghost h = event.handle;
            let ghost d = event.data@;
            let step = StreamReactor::run_once(selector, Incoming::AppendEvent(event), position);
            proof {
                let i = first_from(cur, position, 0);
                assert(changed_at(cur, selector.view_seq(), i));
                assert(selector.view_seq()[i].1 == written_view(cur[i].1, h, d));
                assert(es[k as int] == (h, d, position));
                assert(es.take(k + 1).drop_last() =~= es.take(k as int));
                assert(es.take(k + 1).last() == es[k as int]);
                assert(selector.view_seq() =~= route_one(cur, es[k as int]));
                assert(rest@ =~= all.subrange(k + 1, n as int));
                assert forall|j: int| 0 <= j < v0.len() implies (#[trigger] selector.view_seq()[j]).0 == v0[j].0
                    && selector.view_seq()[j].1.next_event_number <= v0[j].1.next_event_number + k + 1 by {
                    assert(cur[j].0 == v0[j].0);
                }
            }
            match step {
                Ok(step) => steps.push(step),
                Err(_) => {
                    proof {
                        assert(false);
                    }
                },
            }
            k = k + 1;
        }
        proof {
            assert(es.take(n as int) =~= es);
        }
        steps
    }
}

} // verus!
