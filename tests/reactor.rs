use pravega_core::reactor::{drain_recevier, Incoming, ReactorAction, ReactorError, Replies, SegmentReactor, ServerReply};
use pravega_core::segment_writer::{PendingEvent, SegmentWriter};
use pravega_core::shared::{ScopedSegment, Segment, SegmentWithRange};
use pravega_core::stream_reactor::{SegmentSelector, StreamReactor};

fn segment() -> ScopedSegment {
    ScopedSegment {
        scope: "testScope".to_string(),
        stream: "testStream".to_string(),
        segment: Segment { number: 0, tx_id: None },
    }
}

fn event(size: usize, handle: u64) -> PendingEvent {
    PendingEvent::without_header(Some("routing_key".to_string()), vec![1; size], handle).expect("create pending event")
}

fn reply(reply: Replies) -> Incoming {
    Incoming::ServerReply(ServerReply { segment: segment(), reply })
}

/// A writer whose connection is set up.
fn connected_writer() -> SegmentWriter {
    let mut writer = SegmentWriter::new(segment());
    let id = writer.writer_id();
    let result = SegmentReactor::run_once(&mut writer, reply(Replies::AppendSetup { writer_id: id, last_event_number: i64::MIN }));
    assert!(result.is_ok());
    assert!(writer.is_connected());
    writer
}

fn write_once(writer: &mut SegmentWriter, size: usize, handle: u64) -> Vec<(i64, Vec<u8>)> {
    match SegmentReactor::run_once(writer, Incoming::AppendEvent(event(size, handle))) {
        Ok(ReactorAction::Send(sent)) => sent,
        other => panic!("unexpected step {:?}", other),
    }
}

#[test]
fn test_segment_reactor_happy_run() {
    let mut segment_writer = connected_writer();
    let id = segment_writer.writer_id();

    // write data once and reactor should ack
    let sent = write_once(&mut segment_writer, 512, 7);
    assert_eq!(sent, vec![(0, vec![1; 512])]);
    let result = SegmentReactor::run_once(&mut segment_writer, reply(Replies::DataAppended { writer_id: id, event_number: 0 }));
    assert!(result.is_ok());
    assert_eq!(segment_writer.pending_append_num(), 0);
    assert_eq!(segment_writer.inflight_append_num(), 0);

    // shut down reactor: nothing waits, so the writer can close at once
    let close = segment_writer.try_close();
    assert_eq!(close, true);
    let seg = segment();
    let result = SegmentReactor::run_once(&mut segment_writer, Incoming::CloseSegmentWriter { segment: seg, close_reactor: true });
    assert!(result.is_err());
}

#[test]
fn test_segment_reactor_wrong_host() {
    let mut segment_writer = connected_writer();

    // write data once, should get wrong host reply and writer should retry
    write_once(&mut segment_writer, 512, 7);
    let result = SegmentReactor::run_once(&mut segment_writer, reply(Replies::WrongHost { segment: "testScope/testStream/0.#epoch.0".to_string() }));
    assert!(result.is_ok());
    assert_eq!(segment_writer.pending_append_num(), 0);
    assert_eq!(segment_writer.inflight_append_num(), 1);
}

#[test]
fn test_segment_reactor_segment_is_sealed() {
    let mut segment_writer = connected_writer();

    // write data once, should get segment sealed reply and returns error
    write_once(&mut segment_writer, 512, 7);
    let result = SegmentReactor::run_once(&mut segment_writer, reply(Replies::SegmentIsSealed { segment: "testScope/testStream/0.#epoch.0".to_string() }));
    assert!(result.is_err());
}

#[test]
fn wrong_host_recovery() {
    let mut writer = connected_writer();
    let id = writer.writer_id();
    write_once(&mut writer, 512, 7);
    let mut reconnects = 0;
    match SegmentReactor::run_once(&mut writer, reply(Replies::WrongHost { segment: String::new() })) {
        Ok(ReactorAction::Reconnect) => reconnects += 1,
        other => panic!("unexpected step {:?}", other),
    }
    assert!(!writer.is_connected());
    // the reconnection sets appends up again; the server had not stored the event
    match SegmentReactor::run_once(&mut writer, reply(Replies::AppendSetup { writer_id: id, last_event_number: i64::MIN })) {
        Ok(ReactorAction::Complete { acked, send }) => {
            assert!(acked.is_empty());
            assert_eq!(send, vec![(0, vec![1; 512])]);
        },
        other => panic!("unexpected step {:?}", other),
    }
    match SegmentReactor::run_once(&mut writer, reply(Replies::DataAppended { writer_id: id, event_number: 0 })) {
        Ok(ReactorAction::Complete { acked, send }) => {
            assert_eq!(acked, vec![7]);
            assert!(send.is_empty());
        },
        other => panic!("unexpected step {:?}", other),
    }
    assert_eq!(reconnects, 1);
    assert_eq!(writer.pending_append_num(), 0);
    assert_eq!(writer.inflight_append_num(), 0);
}

#[test]
fn events_wait_until_setup_and_keep_their_order() {
    let mut writer = SegmentWriter::new(segment());
    let id = writer.writer_id();
    assert!(write_once(&mut writer, 1, 10).is_empty());
    assert!(write_once(&mut writer, 2, 11).is_empty());
    assert!(write_once(&mut writer, 3, 12).is_empty());
    assert_eq!(writer.pending_append_num(), 3);
    assert_eq!(writer.next_event_number(), 3);
    match SegmentReactor::run_once(&mut writer, reply(Replies::AppendSetup { writer_id: id, last_event_number: -1 })) {
        Ok(ReactorAction::Complete { acked, send }) => {
            assert!(acked.is_empty());
            assert_eq!(send, vec![(0, vec![1]), (1, vec![1, 1]), (2, vec![1, 1, 1])]);
        },
        other => panic!("unexpected step {:?}", other),
    }
    assert_eq!(writer.pending_append_num(), 0);
    assert_eq!(writer.inflight_append_num(), 3);
    let acked = writer.ack(1);
    assert_eq!(acked, vec![10, 11]);
    assert_eq!(writer.inflight_append_num(), 1);
    // a setup that reports the last event as stored acknowledges it
    writer.disconnect();
    let (acked, sent) = writer.append_setup(2);
    assert_eq!(acked, vec![12]);
    assert!(sent.is_empty());
    assert_eq!(writer.inflight_append_num(), 0);
}

#[test]
fn close_reactor_waits_for_drain() {
    let mut writer = connected_writer();
    let id = writer.writer_id();
    write_once(&mut writer, 4, 1);
    assert!(matches!(SegmentReactor::run_once(&mut writer, Incoming::CloseReactor), Ok(ReactorAction::Idle)));
    // the acknowledgement that drains the closing writer ends the reactor
    match SegmentReactor::run_once(&mut writer, reply(Replies::DataAppended { writer_id: id, event_number: 0 })) {
        Ok(ReactorAction::CompleteAndClose { acked }) => assert_eq!(acked, vec![1]),
        other => panic!("unexpected step {:?}", other),
    }
    assert_eq!(SegmentReactor::run_once(&mut writer, Incoming::CloseReactor).map(|_| ()), Err(ReactorError::Closed));
}

#[test]
fn reactor_errors() {
    let mut writer = connected_writer();
    assert_eq!(
        SegmentReactor::run_once(&mut writer, reply(Replies::NoSuchSegment { segment: String::new() })).map(|_| ()),
        Err(ReactorError::NoSuchSegment)
    );
    assert_eq!(
        SegmentReactor::run_once(&mut writer, reply(Replies::SegmentIsSealed { segment: String::new() })).map(|_| ()),
        Err(ReactorError::SegmentIsSealed)
    );
    assert_eq!(SegmentReactor::run_once(&mut writer, reply(Replies::Other)).map(|_| ()), Err(ReactorError::UnexpectedReply));
    assert!(matches!(
        SegmentReactor::run_once(&mut writer, Incoming::CloseSegmentWriter { segment: segment(), close_reactor: false }),
        Ok(ReactorAction::Idle)
    ));
}

#[test]
fn drain_fails_every_queued_event() {
    let remaining = vec![
        Incoming::AppendEvent(event(1, 4)),
        Incoming::CloseReactor,
        Incoming::AppendEvent(event(1, 5)),
        reply(Replies::Other),
    ];
    assert_eq!(drain_recevier(&remaining), vec![4, 5]);
}

#[test]
fn oversized_event_is_refused() {
    assert!(PendingEvent::without_header(None, vec![0; 8 * 1024 * 1024 + 1], 1).is_none());
    assert!(PendingEvent::without_header(None, vec![0; 8 * 1024 * 1024], 1).is_some());
}

fn stream_segment(number: i64, min: f64, max: f64) -> SegmentWithRange {
    SegmentWithRange {
        scoped_segment: ScopedSegment {
            scope: "testScope".to_string(),
            stream: "testStream".to_string(),
            segment: Segment { number, tx_id: None },
        },
        min_key: min.to_bits(),
        max_key: max.to_bits(),
    }
}

fn stream_reply(number: i64, reply: Replies) -> Incoming {
    Incoming::ServerReply(ServerReply { segment: stream_segment(number, 0.0, 1.0).scoped_segment, reply })
}

/// A selector over one segment covering the whole key space, set up and
/// holding one event of 512 bytes in flight.
fn selector_with_one_event() -> (SegmentSelector, u128) {
    let mut selector = SegmentSelector::new();
    selector.initialize(&vec![stream_segment(0, 0.0, 1.0)]);
    assert_eq!(selector.writer_count(), 1);
    let id = 0u128;
    StreamReactor::run_once(&mut selector, stream_reply(0, Replies::AppendSetup { writer_id: id, last_event_number: i64::MIN }), 0)
        .expect("setup");
    let step = StreamReactor::run_once(&mut selector, Incoming::AppendEvent(event(512, 3)), 0.5f64.to_bits()).expect("write data");
    assert_eq!(step.segment, Some(stream_segment(0, 0.0, 1.0).scoped_segment));
    assert!(matches!(step.action, ReactorAction::Send(ref v) if v.len() == 1));
    (selector, id)
}

#[test]
fn test_stream_reactor_happy_run() {
    let (mut selector, id) = selector_with_one_event();

    // the server acknowledges the event
    let result = StreamReactor::run_once(&mut selector, stream_reply(0, Replies::DataAppended { writer_id: id, event_number: 0 }), 0);
    assert!(result.is_ok());

    // nothing waits, so the writers can close at once
    let close = selector.try_close();
    assert_eq!(close, true);
    let seg = stream_segment(0, 0.0, 1.0).scoped_segment;
    let result = StreamReactor::run_once(&mut selector, Incoming::CloseSegmentWriter { segment: seg, close_reactor: true }, 0);
    assert!(result.is_err());
}

#[test]
fn test_stream_reactor_wrong_host() {
    let (mut selector, _) = selector_with_one_event();

    // wrong host: the writer reconnects and the reactor goes on
    let result = StreamReactor::run_once(&mut selector, stream_reply(0, Replies::WrongHost { segment: String::new() }), 0);
    assert!(result.is_ok());
    assert!(matches!(result.unwrap().action, ReactorAction::Reconnect));
}

#[test]
fn test_stream_reactor_stream_is_sealed() {
    let (mut selector, _) = selector_with_one_event();

    // segment sealed: the controller reports no successor, so the stream is sealed
    let step = StreamReactor::run_once(&mut selector, stream_reply(0, Replies::SegmentIsSealed { segment: String::new() }), 0)
        .expect("sealed segment");
    assert!(matches!(step.action, ReactorAction::FetchSuccessors));
    let sealed = stream_segment(0, 0.0, 1.0).scoped_segment;
    let result = StreamReactor::segment_sealed(&mut selector, &sealed, &vec![]);
    assert!(result.is_err());
}

#[test]
fn successors_take_over_a_sealed_segment() {
    let (mut selector, _) = selector_with_one_event();
    let sealed = stream_segment(0, 0.0, 1.0).scoped_segment;
    let successors = vec![stream_segment(1, 0.0, 0.5), stream_segment(2, 0.5, 1.0)];
    let events = StreamReactor::segment_sealed(&mut selector, &sealed, &successors).expect("successors");
    assert_eq!(events.len(), 1);
    assert_eq!(events[0].handle, 3);
    assert_eq!(events[0].data, vec![1; 512]);
    assert_eq!(selector.writer_count(), 2);
    assert_eq!(selector.get_segment_for_position(0.25f64.to_bits()), Some(stream_segment(1, 0.0, 0.5).scoped_segment));
    assert_eq!(selector.get_segment_for_position(0.75f64.to_bits()), Some(stream_segment(2, 0.5, 1.0).scoped_segment));
    assert_eq!(selector.get_segment_for_position(1.5f64.to_bits()), None);
    // the event goes again, to the successor that holds its position; it waits
    // there until that writer is set up
    let routed: Vec<(PendingEvent, u64)> = events.into_iter().map(|e| (e, 0.75f64.to_bits())).collect();
    let steps = StreamReactor::resend(&mut selector, routed);
    assert_eq!(steps.len(), 1);
    assert_eq!(steps[0].segment, Some(stream_segment(2, 0.5, 1.0).scoped_segment));
    assert!(matches!(steps[0].action, ReactorAction::Send(ref v) if v.is_empty()));
}

#[test]
fn stream_reactor_closes_once_every_writer_drained() {
    let mut selector = SegmentSelector::new();
    selector.initialize(&vec![stream_segment(1, 0.0, 0.5), stream_segment(2, 0.5, 1.0)]);
    for number in [1, 2] {
        StreamReactor::run_once(&mut selector, stream_reply(number, Replies::AppendSetup { writer_id: 0, last_event_number: i64::MIN }), 0)
            .expect("setup");
    }
    StreamReactor::run_once(&mut selector, Incoming::AppendEvent(event(4, 1)), 0.25f64.to_bits()).expect("write");
    StreamReactor::run_once(&mut selector, Incoming::AppendEvent(event(4, 2)), 0.75f64.to_bits()).expect("write");
    assert!(matches!(StreamReactor::run_once(&mut selector, Incoming::CloseReactor, 0).map(|s| s.action), Ok(ReactorAction::Idle)));
    // one writer drains; the other still waits, so the reactor goes on
    match StreamReactor::run_once(&mut selector, stream_reply(1, Replies::DataAppended { writer_id: 0, event_number: 0 }), 0) {
        Ok(step) => assert!(matches!(step.action, ReactorAction::Complete { ref acked, .. } if *acked == vec![1])),
        other => panic!("unexpected step {:?}", other),
    }
    // the last one drains: the reactor ends
    match StreamReactor::run_once(&mut selector, stream_reply(2, Replies::DataAppended { writer_id: 0, event_number: 0 }), 0) {
        Ok(step) => assert!(matches!(step.action, ReactorAction::CompleteAndClose { ref acked } if *acked == vec![2])),
        other => panic!("unexpected step {:?}", other),
    }
}
