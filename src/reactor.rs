//! What a reactor decides for each command it takes in: the appends to put on
//! the connection, the handles to complete, a reconnection, or the end of the
//! loop. The loop itself, the channel and the connection belong to the caller.
use vstd::prelude::*;
use crate::segment_writer::{
    PendingEvent, SegmentWriter, WriterView, acked_by, sent_view, set_up_by,
};
use crate::shared::ScopedSegment;

verus! {

/// The server replies that a reactor acts on.
#[derive(Debug)]
pub enum Replies {
    /// Every event of the writer numbered up to `event_number` is stored.
    DataAppended { writer_id: u128, event_number: i64 },
    /// Appends are set up for the writer; the server holds every event up to
    /// `last_event_number`.
    AppendSetup { writer_id: u128, last_event_number: i64 },
    /// The segment is sealed.
    SegmentIsSealed { segment: String },
    /// The segment does not exist (it was truncated away).
    NoSuchSegment { segment: String },
    /// The segment is owned by another server.
    WrongHost { segment: String },
    /// Any other reply.
    Other,
}

/// A reply together with the segment whose connection it came on.
#[derive(Debug)]
pub struct ServerReply {
    pub segment: ScopedSegment,
    pub reply: Replies,
}

/// A command for a reactor.
#[derive(Debug)]
pub enum Incoming {
    /// An event to append.
    AppendEvent(PendingEvent),
    /// A reply from the server.
    ServerReply(ServerReply),
    /// The writer of `segment` closed and gave its connection back; the
    /// reactor ends with it when `close_reactor` is set.
    CloseSegmentWriter { segment: ScopedSegment, close_reactor: bool },
    /// Close the reactor once nothing waits.
    CloseReactor,
}

/// What the caller does after a step of the reactor.
#[derive(Debug)]
pub enum ReactorAction {
    /// Put these appends (event number, payload) on the connection.
    Send(Vec<(i64, Vec<u8>)>),
    /// Complete these handles with success, then put these appends on the
    /// connection.
    Complete { acked: Vec<u64>, send: Vec<(i64, Vec<u8>)> },
    /// Set the connection up again: resolve the endpoint, connect, and ask for
    /// appends to be set up.
    Reconnect,
    /// The segment is sealed or gone: ask the controller for its successors.
    FetchSuccessors,
    /// Complete these handles with success; then the reactor ends, as it was
    /// asked to close and nothing waits any more.
    CompleteAndClose { acked: Vec<u64> },
    /// Nothing.
    Idle,
}

/// Why a reactor ends.
#[derive(Clone, Copy, Debug, PartialEq, Eq, Structural)]
pub enum ReactorError {
    SegmentIsSealed,
    NoSuchSegment,
    StreamIsSealed,
    UnexpectedReply,
    Closed,
}

pub open spec fn sends(a: ReactorAction, sent: Seq<(i64, Seq<u8>)>) -> bool {
    a matches ReactorAction::Send(v) && sent_view(v@) == sent
}

pub open spec fn completes(a: ReactorAction, acked: Seq<u64>, sent: Seq<(i64, Seq<u8>)>) -> bool {
    a matches ReactorAction::Complete { acked: h, send: v } && h@ == acked && sent_view(v@) == sent
}

pub open spec fn completes_and_closes(a: ReactorAction, acked: Seq<u64>) -> bool {
    a matches ReactorAction::CompleteAndClose { acked: h } && h@ == acked
}

/// The writer was asked to close, and nothing waits to be sent or acknowledged.
pub open spec fn closing_drained(w: WriterView) -> bool {
    w.closed && w.inflight.len() == 0 && w.pending.len() == 0
}

/// After acknowledging the handles `acked` the caller completes them and
/// sends `sent`; a writer that was asked to close and has drained ends the
/// reactor instead of sending.
pub open spec fn acked_then(a: ReactorAction, acked: Seq<u64>, sent: Seq<(i64, Seq<u8>)>, after: WriterView) -> bool {
    if closing_drained(after) {
        completes_and_closes(a, acked)
    } else {
        completes(a, acked, sent)
    }
}

/// What a reply does to a writer and what the caller is told: an
/// acknowledgement completes the acknowledged handles; a setup completes what
/// the server already holds and re-sends the rest; either ends the reactor
/// when the writer was asked to close and has drained. A wrong host drops the
/// connection and asks for a reconnection; a sealed or missing segment and any
/// other reply end the reactor, leaving the writer as it was.
pub open spec fn reply_done(
    reply: Replies,
    before: WriterView,
    after: WriterView,
    res: Result<ReactorAction, ReactorError>,
) -> bool {
    match reply {
        Replies::DataAppended { event_number, .. } => res matches Ok(a)
            && exists|acked: Seq<u64>| acked_then(a, acked, Seq::empty(), after) && acked_by(before, event_number, acked, after),
        Replies::AppendSetup { last_event_number, .. } => res matches Ok(a)
            && exists|acked: Seq<u64>, sent: Seq<(i64, Seq<u8>)>|
                acked_then(a, acked, sent, after) && set_up_by(before, last_event_number, acked, sent, after),
        Replies::SegmentIsSealed { .. } => res == Err::<ReactorAction, ReactorError>(ReactorError::SegmentIsSealed)
            && after == before,
        Replies::NoSuchSegment { .. } => res == Err::<ReactorAction, ReactorError>(ReactorError::NoSuchSegment)
            && after == before,
        Replies::WrongHost { .. } => res matches Ok(ReactorAction::Reconnect)
            && after == (WriterView { connected: false, ..before }),
        Replies::Other => res == Err::<ReactorAction, ReactorError>(ReactorError::UnexpectedReply) && after == before,
    }
}

/// The handles of the append commands in `s`, in order.
pub open spec fn event_handles(s: Seq<Incoming>) -> Seq<u64>
    decreases s.len(),
{
    if s.len() == 0 {
        Seq::empty()
    } else {
        let rest = event_handles(s.drop_last());
        match s.last() {
            Incoming::AppendEvent(e) => rest.push(e.handle),
            _ => rest,
        }
    }
}

/// The handles of the events still queued when a reactor ends: each is to be
/// completed with the reason the reactor closed, none dropped.
pub fn drain_recevier(remaining: &Vec<Incoming>) -> (r: Vec<u64>)
    ensures
        r@ == event_handles(remaining@),
{
    let mut r: Vec<u64> = Vec::new();
    let mut i: usize = 0;
    while i < remaining.len()
        invariant
            i <= remaining@.len(),
            r@ == event_handles(remaining@.take(i as int)),
        decreases remaining@.len() - i,
    {
        proof {
            assert(remaining@.take(i + 1).drop_last() =~= remaining@.take(i as int));
        }
        if let Incoming::AppendEvent(e) = &remaining[i] {
            r.push(e.handle);
        }
        i = i + 1;
    }
    proof {
        assert(remaining@.take(remaining@.len() as int) =~= remaining@);
    }
    r
}

/// The reactor of a single segment, as a byte stream uses it.
pub struct SegmentReactor {}

impl SegmentReactor {
    /// Acts on a server reply for the writer.
    pub fn process_server_reply(server_reply: ServerReply, writer: &mut SegmentWriter) -> (res: Result<ReactorAction, ReactorError>)
        requires
            old(writer).wf(),
        ensures
            final(writer).wf(),
            final(writer).id() == old(writer).id(),
            final(writer).segment() == old(writer).segment(),
            reply_done(server_reply.reply, old(writer)@, final(writer)@, res),
    {
        match server_reply.reply {
            Replies::DataAppended { event_number, .. } => {
                let ghost before = writer@;
                let acked = writer.ack(event_number);
                let ghost h = acked@;
                let action = if writer.is_closing() && writer.inflight_append_num() == 0 && writer.pending_append_num() == 0 {
                    ReactorAction::CompleteAndClose { acked }
                } else {
                    let send: Vec<(i64, Vec<u8>)> = Vec::new();
                    proof {
                        assert(sent_view(send@) =~= Seq::<(i64, Seq<u8>)>::empty());
                    }
                    ReactorAction::Complete { acked, send }
                };
                proof {
                    assert(acked_then(action, h, Seq::empty(), writer@) && acked_by(before, event_number, h, writer@));
                }
                Ok(action)
            },
            Replies::AppendSetup { last_event_number, .. } => {
                let ghost before = writer@;
                let (acked, send) = writer.append_setup(last_event_number);
                let ghost h = acked@;
                let ghost v = sent_view(send@);
                let action = if writer.is_closing() && writer.inflight_append_num() == 0 && writer.pending_append_num() == 0 {
                    ReactorAction::CompleteAndClose { acked }
                } else {
                    ReactorAction::Complete { acked, send }
                };
                proof {
                    assert(acked_then(action, h, v, writer@) && set_up_by(before, last_event_number, h, v, writer@));
                }
                Ok(action)
            },
            Replies::SegmentIsSealed { .. } => Err(ReactorError::SegmentIsSealed),
            Replies::NoSuchSegment { .. } => Err(ReactorError::NoSuchSegment),
            Replies::WrongHost { .. } => {
                writer.disconnect();
                Ok(ReactorAction::Reconnect)
            },
            Replies::Other => Err(ReactorError::UnexpectedReply),
        }
    }

    /// One step of the reactor's loop: an event is written (and sent at once
    /// when connected), a reply is acted on, a closed writer ends the reactor
    /// when asked to, and a close request ends it once nothing waits.
    pub fn run_once(writer: &mut SegmentWriter, event: Incoming) -> (res: Result<ReactorAction, ReactorError>)
        requires
            old(writer).wf(),
            old(writer)@.next_event_number < i64::MAX,
        ensures
            final(writer).wf(),
            final(writer).id() == old(writer).id(),
            final(writer).segment() == old(writer).segment(),
            match event {
                Incoming::AppendEvent(e) => {
                    let a = (old(writer)@.next_event_number as i64, e.handle, e.data@);
                    &&& final(writer)@.next_event_number == old(writer)@.next_event_number + 1
                    &&& old(writer)@.connected ==> final(writer)@ == (WriterView {
                        inflight: old(writer)@.inflight.push(a),
                        next_event_number: old(writer)@.next_event_number + 1,
                        ..old(writer)@
                    }) && sends(res->Ok_0, seq![(a.0, a.2)])
                    &&& !old(writer)@.connected ==> final(writer)@ == (WriterView {
                        pending: old(writer)@.pending.push(a),
                        next_event_number: old(writer)@.next_event_number + 1,
                        ..old(writer)@
                    }) && sends(res->Ok_0, Seq::empty())
                    &&& res is Ok
                },
                Incoming::ServerReply(r) => reply_done(r.reply, old(writer)@, final(writer)@, res),
                Incoming::CloseSegmentWriter { close_reactor, .. } => final(writer)@ == old(writer)@
                    && (close_reactor ==> res == Err::<ReactorAction, ReactorError>(ReactorError::Closed))
                    && (!close_reactor ==> res matches Ok(ReactorAction::Idle)),
                Incoming::CloseReactor => {
                    let idle = old(writer)@.inflight.len() == 0 && old(writer)@.pending.len() == 0;
                    &&& final(writer)@ == (WriterView { closed: true, ..old(writer)@ })
                    &&& idle ==> res == Err::<ReactorAction, ReactorError>(ReactorError::Closed)
                    &&& !idle ==> res matches Ok(ReactorAction::Idle)
                },
            },
    {
        match event {
            Incoming::AppendEvent(pending_event) => {
                let send = writer.write(pending_event);
                proof {
                    if !old(writer)@.connected {
                        assert(sent_view(send@) =~= Seq::<(i64, Seq<u8>)>::empty());
                    }
                }
                Ok(ReactorAction::Send(send))
            },
            Incoming::ServerReply(server_reply) => SegmentReactor::process_server_reply(server_reply, writer),
            Incoming::CloseSegmentWriter { close_reactor, .. } => {
                if close_reactor {
                    Err(ReactorError::Closed)
                } else {
                    Ok(ReactorAction::Idle)
                }
            },
            Incoming::CloseReactor => {
                if writer.try_close() {
                    Err(ReactorError::Closed)
                } else {
                    Ok(ReactorAction::Idle)
                }
            },
        }
    }
}

} // verus!
