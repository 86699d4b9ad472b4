//! The writer of one segment: it numbers the events it is given, keeps those
//! that are not yet sent and those sent but not yet acknowledged, and decides
//! what goes on the connection after each acknowledgement or reconnection.
use vstd::prelude::*;
use crate::byte_stream::MAX_WRITE_SIZE;
use crate::shared::{ScopedSegment, copy_range, random_id};

verus! {

/// An event waiting to be appended: its routing key, its payload, and the
/// handle through which its caller learns how the append ended.
#[derive(Debug)]
pub struct PendingEvent {
    pub routing_key: Option<String>,
    pub data: Vec<u8>,
    pub handle: u64,
}

impl PendingEvent {
    /// An event whose payload is the bytes as given; `None` when they exceed
    /// `MAX_WRITE_SIZE`.
    pub fn without_header(routing_key: Option<String>, data: Vec<u8>, handle: u64) -> (r: Option<PendingEvent>)
        ensures
            r is Some <==> data@.len() <= MAX_WRITE_SIZE,
            r matches Some(e) ==> e.data@ == data@ && e.handle == handle && e.routing_key == routing_key,
    {
        if data.len() > MAX_WRITE_SIZE {
            None
        } else {
            Some(PendingEvent { routing_key, data, handle })
        }
    }
}

/// An event with its number: `(event number, handle, payload)`.
pub type AppendView = (i64, u64, Seq<u8>);

/// An event with the number that this writer gave it.
pub struct Append {
    pub event_number: i64,
    pub event: PendingEvent,
}

pub open spec fn append_view(a: Append) -> AppendView {
    (a.event_number, a.event.handle, a.event.data@)
}

pub open spec fn appends_view(s: Seq<Append>) -> Seq<AppendView> {
    Seq::new(s.len(), |i: int| append_view(s[i]))
}

/// Each event's handle and payload.
pub open spec fn events_view(s: Seq<PendingEvent>) -> Seq<(u64, Seq<u8>)> {
    Seq::new(s.len(), |i: int| (s[i].handle, s[i].data@))
}

/// What goes on the connection for each append: its number and payload.
pub open spec fn wire(s: Seq<AppendView>) -> Seq<(i64, Seq<u8>)> {
    Seq::new(s.len(), |i: int| (s[i].0, s[i].2))
}

/// The handles of the appends, in order.
pub open spec fn handles(s: Seq<AppendView>) -> Seq<u64> {
    Seq::new(s.len(), |i: int| s[i].1)
}

pub open spec fn sent_view(v: Seq<(i64, Vec<u8>)>) -> Seq<(i64, Seq<u8>)> {
    Seq::new(v.len(), |i: int| (v[i].0, v[i].1@))
}

/// Event numbers rise strictly along `s`, from 0 up, and stay below `next`.
pub open spec fn numbered_below(s: Seq<AppendView>, next: int) -> bool {
    &&& forall|i: int, j: int| 0 <= i < j < s.len() ==> s[i].0 < s[j].0
    &&& forall|i: int| 0 <= i < s.len() ==> 0 <= (#[trigger] s[i]).0 < next
}

/// How many appends at the front of `s` an acknowledgement up to
/// `event_number` covers.
pub open spec fn covered(s: Seq<AppendView>, event_number: i64, k: int) -> bool {
    &&& 0 <= k <= s.len()
    &&& forall|i: int| 0 <= i < k ==> (#[trigger] s[i]).0 <= event_number
    &&& forall|i: int| k <= i < s.len() ==> (#[trigger] s[i]).0 > event_number
}

/// `after` is `before` once the in-flight events numbered up to `event_number`
/// were acknowledged, and `acked` holds their handles in order.
pub open spec fn acked_by(before: WriterView, event_number: i64, acked: Seq<u64>, after: WriterView) -> bool {
    exists|k: int| covered(before.inflight, event_number, k)
        && after == (WriterView { inflight: before.inflight.skip(k), ..before })
        && acked == handles(before.inflight.take(k))
}

/// `after` is `before` once the server set up appends holding every event up
/// to `last_event_number`: those are acknowledged with the handles `acked`, and
/// `sent` re-sends the other in-flight events and then the pending ones.
pub open spec fn set_up_by(
    before: WriterView,
    last_event_number: i64,
    acked: Seq<u64>,
    sent: Seq<(i64, Seq<u8>)>,
    after: WriterView,
) -> bool {
    exists|k: int| covered(before.inflight, last_event_number, k)
        && acked == handles(before.inflight.take(k))
        && after == (WriterView {
            connected: true,
            inflight: before.inflight.skip(k) + before.pending,
            pending: Seq::empty(),
            ..before
        })
        && sent == wire(before.inflight.skip(k) + before.pending)
}

/// `after` is `before` once the event with `handle` and `data` got the next
/// event number: sent at once (as `sent`) by a connected writer, kept pending
/// by another.
pub open spec fn write_done(before: WriterView, handle: u64, data: Seq<u8>, after: WriterView, sent: Seq<(i64, Seq<u8>)>) -> bool {
    let a = (before.next_event_number as i64, handle, data);
    &&& before.connected ==> after == (WriterView {
        inflight: before.inflight.push(a),
        next_event_number: before.next_event_number + 1,
        ..before
    }) && sent == seq![(a.0, a.2)]
    &&& !before.connected ==> after == (WriterView {
        pending: before.pending.push(a),
        next_event_number: before.next_event_number + 1,
        ..before
    }) && sent.len() == 0
}

/// The writer's state once the event with `handle` and `data` got the next
/// event number: in flight for a connected writer, pending for another.
pub open spec fn written_view(before: WriterView, handle: u64, data: Seq<u8>) -> WriterView {
    let a = (before.next_event_number as i64, handle, data);
    if before.connected {
        WriterView { inflight: before.inflight.push(a), next_event_number: before.next_event_number + 1, ..before }
    } else {
        WriterView { pending: before.pending.push(a), next_event_number: before.next_event_number + 1, ..before }
    }
}

/// The writer's state.
pub ghost struct WriterView {
    pub connected: bool,
    pub pending: Seq<AppendView>,
    pub inflight: Seq<AppendView>,
    pub next_event_number: int,
    pub closed: bool,
}

/// The writer of one segment.
pub struct SegmentWriter {
    id: u128,
    segment: ScopedSegment,
    connected: bool,
    pending: Vec<Append>,
    inflight: Vec<Append>,
    event_num: i64,
    closed: bool,
}

impl View for SegmentWriter {
    type V = WriterView;

    closed spec fn view(&self) -> WriterView {
        WriterView {
            connected: self.connected,
            pending: appends_view(self.pending@),
            inflight: appends_view(self.inflight@),
            next_event_number: self.event_num as int,
            closed: self.closed,
        }
    }
}

/// The number and a copy of the payload of each append.
fn to_wire(s: &Vec<Append>) -> (r: Vec<(i64, Vec<u8>)>)
    ensures
        sent_view(r@) == wire(appends_view(s@)),
{
    let mut r: Vec<(i64, Vec<u8>)> = Vec::new();
    let mut i: usize = 0;
    while i < s.len()
        invariant
            i <= s@.len(),
            r@.len() == i,
            sent_view(r@) == wire(appends_view(s@)).subrange(0, i as int),
        decreases s@.len() - i,
    {
        let data = copy_range(s[i].event.data.as_slice(), 0, s[i].event.data.len());
        proof {
            assert(s[i as int].event.data@.subrange(0, s[i as int].event.data@.len() as int) =~= s[i as int].event.data@);
        }
        let ghost before = r@;
        r.push((s[i].event_number, data));
        proof {
            let w = wire(appends_view(s@));
            assert(appends_view(s@)[i as int] == append_view(s@[i as int]));
            assert(sent_view(r@)[i as int] == w[i as int]);
            assert forall|j: int| 0 <= j < i implies sent_view(r@)[j] == w[j] by {
                assert(r@[j] == before[j]);
                assert(sent_view(before)[j] == w.subrange(0, i as int)[j]);
            }
            assert(sent_view(r@) =~= w.subrange(0, i + 1));
        }
        i = i + 1;
    }
    proof {
        assert(wire(appends_view(s@)).subrange(0, s@.len() as int) =~= wire(appends_view(s@)));
    }
    r
}

impl SegmentWriter {
    /// Event numbers rise along the in-flight appends and then the pending
    /// ones, and stay below the next number; a connected writer holds no
    /// pending appends.
    pub closed spec fn wf(&self) -> bool {
        &&& numbered_below(self@.inflight + self@.pending, self@.next_event_number)
        &&& 0 <= self.event_num
        &&& self.connected ==> self.pending@.len() == 0
    }

    pub closed spec fn id(&self) -> u128 {
        self.id
    }

    pub closed spec fn segment(&self) -> ScopedSegment {
        self.segment
    }

    /// A writer for `segment` with a fresh random id, not yet connected.
    pub fn new(segment: ScopedSegment) -> (r: SegmentWriter)
        ensures
            r.wf(),
            r.segment() == segment,
            r@ == (WriterView {
                connected: false,
                pending: Seq::empty(),
                inflight: Seq::empty(),
                next_event_number: 0,
                closed: false,
            }),
    {
        let r = SegmentWriter {
            id: random_id(),
            segment,
            connected: false,
            pending: Vec::new(),
            inflight: Vec::new(),
            event_num: 0,
            closed: false,
        };
        proof {
            assert(appends_view(r.pending@) =~= Seq::<AppendView>::empty());
            assert(appends_view(r.inflight@) =~= Seq::<AppendView>::empty());
        }
        r
    }

    /// The id that scopes this writer's event numbers.
    pub fn writer_id(&self) -> (r: u128)
        ensures
            r == self.id(),
    {
        self.id
    }

    /// The segment this writer appends to.
    pub fn segment_ref(&self) -> (r: &ScopedSegment)
        ensures
            *r == self.segment(),
    {
        &self.segment
    }

    /// The number that the next event gets.
    pub fn next_event_number(&self) -> (r: i64)
        ensures
            r == self@.next_event_number,
    {
        self.event_num
    }

    pub fn is_connected(&self) -> (r: bool)
        ensures
            r == self@.connected,
    {
        self.connected
    }

    /// Whether the writer was asked to close.
    pub fn is_closing(&self) -> (r: bool)
        ensures
            r == self@.closed,
    {
        self.closed
    }

    /// How many events wait to be sent.
    pub fn pending_append_num(&self) -> (r: usize)
        ensures
            r == self@.pending.len(),
    {
        self.pending.len()
    }

    /// How many events were sent and wait for their acknowledgement.
    pub fn inflight_append_num(&self) -> (r: usize)
        ensures
            r == self@.inflight.len(),
    {
        self.inflight.len()
    }

    /// Gives `event` the next event number. A connected writer sends it at
    /// once, and returns what goes on the connection; otherwise it waits.
    pub fn write(&mut self, event: PendingEvent) -> (sent: Vec<(i64, Vec<u8>)>)
        requires
            old(self).wf(),
            old(self)@.next_event_number < i64::MAX,
        ensures
            final(self).wf(),
            final(self).id() == old(self).id(),
            final(self).segment() == old(self).segment(),
            old(self)@.connected ==> final(self)@ == (WriterView {
                inflight: old(self)@.inflight.push((old(self)@.next_event_number as i64, event.handle, event.data@)),
                next_event_number: old(self)@.next_event_number + 1,
                ..old(self)@
            }) && sent_view(sent@) == seq![(old(self)@.next_event_number as i64, event.data@)],
            !old(self)@.connected ==> final(self)@ == (WriterView {
                pending: old(self)@.pending.push((old(self)@.next_event_number as i64, event.handle, event.data@)),
                next_event_number: old(self)@.next_event_number + 1,
                ..old(self)@
            }) && sent@.len() == 0,
    {
        let ghost before = self@;
        let number = self.event_num;
        self.event_num = self.event_num + 1;
        let append = Append { event_number: number, event };
        let mut sent: Vec<(i64, Vec<u8>)> = Vec::new();
        if self.connected {
            let data = copy_range(append.event.data.as_slice(), 0, append.event.data.len());
            proof {
                assert(append.event.data@.subrange(0, append.event.data@.len() as int) =~= append.event.data@);
            }
            sent.push((number, data));
            let ghost old_inflight = self.inflight@;
            self.inflight.push(append);
            proof {
                assert(appends_view(self.inflight@) =~= appends_view(old_inflight).push(append_view(append)));
                assert(sent_view(sent@) =~= seq![(number, append.event.data@)]);
                assert(self@.pending =~= Seq::<AppendView>::empty());
                assert(self@.inflight + self@.pending =~= (before.inflight + before.pending).push(append_view(append)));
            }
        } else {
            let ghost old_pending = self.pending@;
            self.pending.push(append);
            proof {
                assert(appends_view(self.pending@) =~= appends_view(old_pending).push(append_view(append)));
                assert(self@.inflight + self@.pending =~= (before.inflight + before.pending).push(append_view(append)));
            }
        }
        sent
    }

    /// Acknowledges every in-flight event numbered up to `event_number` and
    /// returns their handles, in order.
    pub fn ack(&mut self, event_number: i64) -> (acked: Vec<u64>)
        requires
            old(self).wf(),
        ensures
            final(self).wf(),
            final(self).id() == old(self).id(),
            final(self).segment() == old(self).segment(),
            acked_by(old(self)@, event_number, acked@, final(self)@),
    {
        let ghost before = self@;
        let ghost all = before.inflight + before.pending;
        let mut k: usize = 0;
        while k < self.inflight.len() && self.inflight[k].event_number <= event_number
            invariant
                self@ == before,
                k <= self.inflight@.len(),
                forall|i: int| 0 <= i < k ==> (#[trigger] before.inflight[i]).0 <= event_number,
            decreases self.inflight@.len() - k,
        {
            k = k + 1;
        }
        proof {
            assert forall|i: int| k <= i < before.inflight.len() implies (#[trigger] before.inflight[i]).0 > event_number by {
                assert(all[k as int] == before.inflight[k as int]);
                assert(all[i] == before.inflight[i]);
                if i > k {
                    assert(all[k as int].0 < all[i].0);
                }
            }
        }
        let ghost old_inflight = self.inflight@;
        let rest = self.inflight.split_off(k);
        let mut acked: Vec<u64> = Vec::new();
        let mut i: usize = 0;
        while i < self.inflight.len()
            invariant
                k <= old_inflight.len(),
                self.inflight@ == old_inflight.subrange(0, k as int),
                i <= self.inflight@.len(),
                acked@ == handles(appends_view(old_inflight).take(k as int)).take(i as int),
            decreases self.inflight@.len() - i,
        {
            acked.push(self.inflight[i].event.handle);
            proof {
                let h = handles(appends_view(old_inflight).take(k as int));
                assert(self.inflight@[i as int] == old_inflight[i as int]);
                assert(appends_view(old_inflight)[i as int] == append_view(old_inflight[i as int]));
                assert(h[i as int] == old_inflight[i as int].event.handle);
                assert(acked@ =~= h.take(i + 1));
            }
            i = i + 1;
        }
        self.inflight = rest;
        proof {
            assert(acked@ =~= handles(before.inflight.take(k as int)));
            assert(self@.inflight =~= before.inflight.skip(k as int));
            assert(covered(before.inflight, event_number, k as int));
            let now = self@.inflight + self@.pending;
            assert forall|a: int, b: int| 0 <= a < b < now.len() implies now[a].0 < now[b].0 by {
                assert(now[a] == all[a + k]);
                assert(now[b] == all[b + k]);
            }
            assert forall|a: int| 0 <= a < now.len() implies 0 <= (#[trigger] now[a]).0 < self@.next_event_number by {
                assert(now[a] == all[a + k]);
            }
        }
        acked
    }

    /// Forgets the connection, after a wrong host or a failed send: events
    /// wait until the writer is set up again.
    pub fn disconnect(&mut self)
        requires
            old(self).wf(),
        ensures
            final(self).wf(),
            final(self).id() == old(self).id(),
            final(self).segment() == old(self).segment(),
            final(self)@ == (WriterView { connected: false, ..old(self)@ }),
    {
        self.connected = false;
    }

    /// The server set up appends and already holds every event numbered up to
    /// `last_event_number`: those are acknowledged (their handles are the first
    /// result), and the rest of the in-flight events, then the pending ones,
    /// go on the connection again, in order (the second result).
    pub fn append_setup(&mut self, last_event_number: i64) -> (res: (Vec<u64>, Vec<(i64, Vec<u8>)>))
        requires
            old(self).wf(),
        ensures
            final(self).wf(),
            final(self).id() == old(self).id(),
            final(self).segment() == old(self).segment(),
            set_up_by(old(self)@, last_event_number, res.0@, sent_view(res.1@), final(self)@),
    {
        let ghost before = self@;
        let acked = self.ack(last_event_number);
        let ghost mid = self@;
        let mut pending = Vec::new();
        std::mem::swap(&mut pending, &mut self.pending);
        self.inflight.append(&mut pending);
        self.connected = true;
        let sent = to_wire(&self.inflight);
        proof {
            let k = choose|k: int| covered(before.inflight, last_event_number, k)
                && mid == (WriterView { inflight: before.inflight.skip(k), ..before })
                && acked@ == handles(before.inflight.take(k));
            assert(appends_view(self.pending@) =~= Seq::<AppendView>::empty());
            assert(self@.inflight =~= mid.inflight + mid.pending);
            assert(self@.inflight + self@.pending =~= mid.inflight + mid.pending);
            assert(covered(before.inflight, last_event_number, k));
        }
        (acked, sent)
    }

    /// Takes the writer apart and hands back its unacknowledged events: the
    /// in-flight ones, then the pending ones, in order.
    pub fn take_unacked(self) -> (r: Vec<PendingEvent>)
        requires
            self.wf(),
        ensures
            events_view(r@) == Seq::new(
                (self@.inflight + self@.pending).len(),
                |i: int| ((self@.inflight + self@.pending)[i].1, (self@.inflight + self@.pending)[i].2),
            ),
    {
        let ghost all = self@.inflight + self@.pending;
        let mut appends = self.inflight;
        let mut pending = self.pending;
        appends.append(&mut pending);
        let mut r: Vec<PendingEvent> = Vec::new();
        let ghost whole = appends@;
        proof {
            assert(appends_view(whole) =~= all);
        }
        let mut i: usize = 0;
        let len = appends.len();
        while appends.len() > 0
            invariant
                len == whole.len(),
                appends@.len() + i == len,
                appends@ == whole.subrange(i as int, len as int),
                appends_view(whole) == all,
                r@.len() == i,
                events_view(r@) == Seq::new(i as nat, |k: int| (all[k].1, all[k].2)),
            decreases appends@.len(),
        {
            let a = appends.remove(0);
            let ghost before = r@;
            proof {
                assert(a == whole[i as int]);
                assert(appends_view(whole)[i as int] == append_view(whole[i as int]));
            }
            r.push(a.event);
            proof {
                assert(appends@ =~= whole.subrange(i + 1, len as int));
                assert(all[i as int] == append_view(whole[i as int]));
                let target = Seq::new((i + 1) as nat, |k: int| (all[k].1, all[k].2));
                assert forall|k: int| 0 <= k < i + 1 implies events_view(r@)[k] == target[k] by {
                    if k < i {
                        assert(r@[k] == before[k]);
                        assert(events_view(before)[k] == (all[k].1, all[k].2));
                    } else {
                        assert(r@[k] == a.event);
                    }
                }
                assert(events_view(r@) =~= target);
            }
            i = i + 1;
        }
        proof {
            assert(events_view(r@) =~= Seq::new(all.len(), |k: int| (all[k].1, all[k].2)));
        }
        r
    }

    /// Marks the writer as closing; `true` when nothing waits to be sent or
    /// acknowledged, so that it can close now.
    pub fn try_close(&mut self) -> (r: bool)
        requires
            old(self).wf(),
        ensures
            final(self).wf(),
            final(self).id() == old(self).id(),
            final(self).segment() == old(self).segment(),
            final(self)@ == (WriterView { closed: true, ..old(self)@ }),
            r == (old(self)@.inflight.len() == 0 && old(self)@.pending.len() == 0),
    {
        self.closed = true;
        self.inflight.len() == 0 && self.pending.len() == 0
    }
}

} // verus!
