use pravega_core::reader_group_state::{ReaderGroupConfigVersioned, ReaderGroupState, ReaderGroupStateError};
use pravega_core::shared::{Offset, Reader, ScopedSegment, ScopedStream, Segment, SegmentWithRange};

fn reader() -> Reader {
    Reader { name: "test".to_string() }
}

fn scoped(number: i64) -> ScopedSegment {
    ScopedSegment {
        scope: "scope".to_string(),
        stream: "scope".to_string(),
        segment: Segment { number, tx_id: None },
    }
}

fn with_range(number: i64, min: f64, max: f64) -> SegmentWithRange {
    SegmentWithRange { scoped_segment: scoped(number), min_key: min.to_bits(), max_key: max.to_bits() }
}

fn segment_with_range() -> SegmentWithRange {
    with_range(0, 0.0, 1.0)
}

fn stream() -> ScopedStream {
    ScopedStream { scope: "scope".to_string(), stream: "synchronizer".to_string() }
}

fn config() -> ReaderGroupConfigVersioned {
    ReaderGroupConfigVersioned { version: 0, config: vec![1, 2, 3] }
}

fn set_up() -> ReaderGroupState {
    ReaderGroupState::new(stream(), config(), vec![(segment_with_range(), Offset::new(0, 0))])
}

fn offset_of(list: &[(SegmentWithRange, Offset)], segment: &SegmentWithRange) -> Option<Offset> {
    list.iter().find(|(s, _)| s == segment).map(|(_, o)| *o)
}

fn contains(list: &[(SegmentWithRange, Offset)], segment: &SegmentWithRange) -> bool {
    offset_of(list, segment).is_some()
}

#[test]
fn test_reader_group_state() {
    let mut state = set_up();

    // add a reader
    state.add_reader(&reader()).expect("add reader");

    // get online readers
    let mut readers = state.get_online_readers();
    assert_eq!(readers.pop().expect("get reader"), reader(), "should have online reader added");
    assert!(readers.is_empty(), "should have only one reader");

    // assign a segment to a reader
    state.assign_segment_to_reader(&reader()).expect("assign segment to reader");
    let segments = state.get_reader_positions(&reader()).expect("get reader positions");
    assert_eq!(segments.len(), 1, "should have assigned one segment the reader");
    assert_eq!(
        offset_of(&segments, &segment_with_range()).expect("get segment"),
        Offset { read: 0, processed: 0 },
        "added segment should be as expected"
    );

    // update reader position
    let new_offset = Offset { read: 10, processed: 0 };
    let update = vec![(segment_with_range(), new_offset)];
    state.update_reader_positions(&reader(), &update).expect("update reader position");
    let segments = state.get_reader_positions(&reader()).expect("get reader positions");
    assert_eq!(segments.len(), 1, "reader should contain one owned segment");
    assert_eq!(
        offset_of(&segments, &segment_with_range()).expect("get segment"),
        new_offset,
        "the offset of owned segment should be updated"
    );

    // segment completed
    let successor0 = with_range(1, 0.0, 0.5);
    let successor1 = with_range(2, 0.5, 1.0);
    let successors = vec![(successor0.clone(), vec![0]), (successor1.clone(), vec![0])];
    state
        .segment_completed(&reader(), &segment_with_range(), &successors)
        .expect("reader segment completed");
    let unassigned = state.get_unassigned_segments();
    assert!(contains(&unassigned, &successor0));
    assert!(contains(&unassigned, &successor1));

    state.assign_segment_to_reader(&reader()).expect("assign segment to reader");
    state.assign_segment_to_reader(&reader()).expect("assign segment to reader");

    // release segment from reader
    let new_offset = Offset { read: 10, processed: 10 };
    state
        .release_segment(&reader(), &successor0.scoped_segment, &new_offset)
        .expect("release segment");
    let segments = state.get_reader_positions(&reader()).expect("get reader positions");
    assert_eq!(segments.len(), 1, "reader should contain 1 segment since the other one is released");

    // reader offline
    let owned = vec![
        (successor0.scoped_segment.clone(), Offset { read: 0, processed: 0 }),
        (successor1.scoped_segment.clone(), Offset { read: 0, processed: 0 }),
    ];
    state.remove_reader(&reader(), &owned).expect("remove online reader");
    assert_eq!(state.get_unassigned_segments().len(), 2);
}

#[test]
fn reader_group_promotion() {
    let s0 = segment_with_range();
    let s1 = with_range(1, 0.0, 0.5);
    let s2 = with_range(2, 0.5, 1.0);
    let mut state = set_up();
    state.add_reader(&reader()).expect("add reader");
    let assigned = state.assign_segment_to_reader(&reader()).expect("assign");
    assert_eq!(assigned, Some(scoped(0)));
    let owned = state.get_reader_positions(&reader()).expect("positions");
    assert_eq!(owned.len(), 1);
    assert_eq!(offset_of(&owned, &s0), Some(Offset::new(0, 0)));

    let successors = vec![(s1.clone(), vec![0]), (s2.clone(), vec![0])];
    state.segment_completed(&reader(), &s0, &successors).expect("completed");

    let unassigned = state.get_unassigned_segments();
    assert_eq!(unassigned.len(), 2);
    assert_eq!(offset_of(&unassigned, &s1), Some(Offset::new(0, 0)));
    assert_eq!(offset_of(&unassigned, &s2), Some(Offset::new(0, 0)));
    assert!(!contains(&unassigned, &s0));
    assert!(state.get_future_segments().is_empty());
    assert!(state.get_reader_positions(&reader()).expect("positions").is_empty());
    assert!(state.get_segments_for_reader(&reader()).expect("segments").is_empty());
}

#[test]
fn successor_waits_for_every_predecessor() {
    let s0 = with_range(0, 0.0, 0.5);
    let s1 = with_range(1, 0.5, 1.0);
    let s2 = with_range(2, 0.0, 1.0);
    let mut state = ReaderGroupState::new(stream(), config(), vec![(s0.clone(), Offset::new(0, 0)), (s1.clone(), Offset::new(0, 0))]);
    state.add_reader(&reader()).expect("add reader");
    state.assign_segment_to_reader(&reader()).expect("assign");
    state.assign_segment_to_reader(&reader()).expect("assign");

    let successors = vec![(s2.clone(), vec![0, 1])];
    state.segment_completed(&reader(), &s0, &successors).expect("first predecessor");
    let future = state.get_future_segments();
    assert_eq!(future.len(), 1);
    assert_eq!(future[0].0, s2);
    assert_eq!(future[0].1, vec![1]);
    assert!(state.get_unassigned_segments().is_empty());

    state.segment_completed(&reader(), &s1, &successors).expect("second predecessor");
    assert!(state.get_future_segments().is_empty());
    assert_eq!(offset_of(&state.get_unassigned_segments(), &s2), Some(Offset::new(0, 0)));
}

#[test]
fn add_remove_add_reader() {
    let mut state = set_up();
    state.add_reader(&reader()).expect("add reader");
    state.remove_reader(&reader(), &vec![]).expect("remove reader");
    state.add_reader(&reader()).expect("add reader again");
    assert_eq!(state.get_online_readers().len(), 1);
}

#[test]
fn segment_completed_twice_fails() {
    let s0 = segment_with_range();
    let mut state = set_up();
    state.add_reader(&reader()).expect("add reader");
    state.assign_segment_to_reader(&reader()).expect("assign");
    let successors = vec![(with_range(1, 0.0, 1.0), vec![0])];
    state.segment_completed(&reader(), &s0, &successors).expect("completed");
    let unassigned_before = state.get_unassigned_segments().len();
    let err = state.segment_completed(&reader(), &s0, &successors);
    assert_eq!(err, Err(ReaderGroupStateError::SegmentNotAssigned));
    assert_eq!(state.get_unassigned_segments().len(), unassigned_before);
    assert!(state.get_reader_positions(&reader()).expect("positions").is_empty());
}

#[test]
fn each_segment_stands_in_one_place() {
    let s0 = with_range(0, 0.0, 0.5);
    let s1 = with_range(1, 0.5, 1.0);
    let s2 = with_range(2, 0.0, 1.0);
    let other = Reader { name: "other".to_string() };
    let mut state = ReaderGroupState::new(stream(), config(), vec![(s0.clone(), Offset::new(0, 0)), (s1.clone(), Offset::new(0, 0))]);
    state.add_reader(&reader()).expect("add");
    state.add_reader(&other).expect("add");
    state.assign_segment_to_reader(&reader()).expect("assign");
    state.assign_segment_to_reader(&other).expect("assign");
    let mine = state.get_reader_positions(&reader()).expect("mine");
    let theirs = state.get_reader_positions(&other).expect("theirs");
    assert_eq!(mine.len(), 1);
    assert_eq!(theirs.len(), 1);
    assert_ne!(mine[0].0, theirs[0].0);
    assert!(state.get_unassigned_segments().is_empty());

    let completed = mine[0].0.clone();
    state.segment_completed(&reader(), &completed, &vec![(s2.clone(), vec![0, 1])]).expect("completed");
    assert_eq!(state.get_future_segments().len(), 1);
    assert!(!contains(&state.get_unassigned_segments(), &s2));
    assert_eq!(state.get_segments().len(), 1);
}

#[test]
fn errors_of_the_reader_group() {
    let mut state = set_up();
    assert_eq!(state.add_reader(&reader()), Ok(()));
    assert_eq!(state.add_reader(&reader()), Err(ReaderGroupStateError::ReaderAlreadyOnline));
    let stranger = Reader { name: "stranger".to_string() };
    assert_eq!(state.assign_segment_to_reader(&stranger).map(|_| ()), Err(ReaderGroupStateError::ReaderNotOnline));
    assert_eq!(state.get_reader_positions(&stranger).map(|_| ()), Err(ReaderGroupStateError::ReaderNotOnline));
    assert_eq!(state.remove_reader(&stranger, &vec![]), Err(ReaderGroupStateError::ReaderNotOnline));
    assert_eq!(
        state.release_segment(&reader(), &scoped(0), &Offset::new(1, 1)),
        Err(ReaderGroupStateError::SegmentNotAssigned)
    );
    assert_eq!(
        state.segment_completed(&reader(), &segment_with_range(), &vec![]),
        Err(ReaderGroupStateError::SegmentNotAssigned)
    );

    // a successor that the reader already owns is promoted straight to the
    // unassigned segments, so releasing it finds it there
    let s1 = with_range(1, 0.0, 1.0);
    let mut other = ReaderGroupState::new(stream(), config(), vec![(segment_with_range(), Offset::new(0, 0)), (s1.clone(), Offset::new(0, 0))]);
    other.add_reader(&reader()).expect("add");
    other.assign_segment_to_reader(&reader()).expect("assign");
    other.assign_segment_to_reader(&reader()).expect("assign");
    other.segment_completed(&reader(), &segment_with_range(), &vec![(s1.clone(), vec![])]).expect("completed");
    assert_eq!(
        other.release_segment(&reader(), &s1.scoped_segment, &Offset::new(3, 3)),
        Err(ReaderGroupStateError::SegmentAlreadyUnassigned)
    );
}

#[test]
fn assign_with_nothing_unassigned() {
    let mut state = ReaderGroupState::new(stream(), config(), vec![]);
    state.add_reader(&reader()).expect("add");
    assert_eq!(state.assign_segment_to_reader(&reader()), Ok(None));
}

#[test]
fn remove_reader_keeps_given_offsets() {
    let mut state = set_up();
    state.add_reader(&reader()).expect("add");
    state.assign_segment_to_reader(&reader()).expect("assign");
    state
        .update_reader_positions(&reader(), &vec![(segment_with_range(), Offset::new(7, 5))])
        .expect("update");
    state.remove_reader(&reader(), &vec![]).expect("remove");
    assert_eq!(offset_of(&state.get_unassigned_segments(), &segment_with_range()), Some(Offset::new(7, 5)));

    state.add_reader(&reader()).expect("add");
    state.assign_segment_to_reader(&reader()).expect("assign");
    state.remove_reader(&reader(), &vec![(scoped(0), Offset::new(9, 9))]).expect("remove");
    assert_eq!(offset_of(&state.get_unassigned_segments(), &segment_with_range()), Some(Offset::new(9, 9)));
    assert!(state.get_online_readers().is_empty());
}

#[test]
fn update_ignores_segments_not_owned() {
    let mut state = set_up();
    state.add_reader(&reader()).expect("add");
    state.assign_segment_to_reader(&reader()).expect("assign");
    let update = vec![(with_range(5, 0.0, 1.0), Offset::new(4, 4))];
    state.update_reader_positions(&reader(), &update).expect("update");
    let owned = state.get_reader_positions(&reader()).expect("positions");
    assert_eq!(owned.len(), 1);
    assert_eq!(offset_of(&owned, &segment_with_range()), Some(Offset::new(0, 0)));
}

#[test]
fn initialize_writes_only_an_empty_state() {
    let mut state = ReaderGroupState::empty();
    assert!(state.scoped_synchronizer_stream().is_none());
    assert!(state.config().is_none());
    assert!(state.initialize(stream(), config(), vec![(segment_with_range(), Offset::new(0, 0))]));
    assert_eq!(state.scoped_synchronizer_stream().map(|s| s.stream.clone()), Some("synchronizer".to_string()));
    assert_eq!(state.config().map(|c| c.config.clone()), Some(vec![1, 2, 3]));
    // a second initialization finds the state written and changes nothing
    let other = ScopedStream { scope: "other".to_string(), stream: "other".to_string() };
    let other_config = ReaderGroupConfigVersioned { version: 1, config: vec![9] };
    assert!(!state.initialize(other, other_config, vec![(with_range(7, 0.0, 1.0), Offset::new(5, 5))]));
    assert_eq!(state.scoped_synchronizer_stream().map(|s| s.scope.clone()), Some("scope".to_string()));
    assert_eq!(state.config().map(|c| c.version), Some(0));
    let unassigned = state.get_unassigned_segments();
    assert_eq!(unassigned.len(), 1);
    assert_eq!(offset_of(&unassigned, &segment_with_range()), Some(Offset::new(0, 0)));
}
