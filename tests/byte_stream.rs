use pravega_core::byte_stream::{ByteStreamError, ByteStreamReader, ByteStreamWriter, SeekFrom, MAX_WRITE_SIZE};
use pravega_core::in_memory_segment::{InMemorySegment, ReaderError, SegmentError};

fn write(writer: &mut ByteStreamWriter, segment: &mut InMemorySegment, buf: &[u8]) -> usize {
    for payload in writer.write(buf).expect("write") {
        segment.append(&payload).expect("append");
    }
    buf.len()
}

fn read(reader: &mut ByteStreamReader, segment: &InMemorySegment, buf: &mut [u8]) -> Result<usize, ByteStreamError> {
    let reply = segment.read(reader.current_offset(), buf.len());
    reader.read(buf, reply)
}

fn seek(reader: &mut ByteStreamReader, segment: &InMemorySegment, pos: SeekFrom) -> Result<u64, ByteStreamError> {
    reader.seek(pos, segment.length())
}

/// A segment holding `[1, 1, 1, 1, 2, 2, 2, 2]`, and a reader that read it.
fn scenario_one() -> (ByteStreamWriter, ByteStreamReader, InMemorySegment) {
    let mut writer = ByteStreamWriter::new();
    let mut reader = ByteStreamReader::new();
    let mut segment = InMemorySegment::new();
    assert_eq!(write(&mut writer, &mut segment, &[1, 1, 1, 1]), 4);
    assert_eq!(write(&mut writer, &mut segment, &[2, 2, 2, 2]), 4);
    seek(&mut reader, &segment, SeekFrom::Start(0)).expect("seek to start");
    let mut buf = vec![0u8; 8];
    assert_eq!(read(&mut reader, &segment, &mut buf), Ok(8));
    assert_eq!(buf, vec![1, 1, 1, 1, 2, 2, 2, 2]);
    (writer, reader, segment)
}

#[test]
fn test_byte_stream_seek() {
    let mut writer = ByteStreamWriter::new();
    let mut reader = ByteStreamReader::new();
    let mut segment = InMemorySegment::new();

    // write 200 bytes
    let payload = vec![1; 200];
    write(&mut writer, &mut segment, &payload);

    // read 200 bytes from beginning
    let mut buf = vec![0; 200];
    read(&mut reader, &segment, &mut buf).expect("read");
    assert_eq!(buf, vec![1; 200]);

    // seek to head
    seek(&mut reader, &segment, SeekFrom::Start(0)).expect("seek to head");
    assert_eq!(reader.current_offset(), 0);

    // seek to head with positive offset
    seek(&mut reader, &segment, SeekFrom::Start(100)).expect("seek to head");
    assert_eq!(reader.current_offset(), 100);

    // seek to current with invalid positive offset
    assert!(seek(&mut reader, &segment, SeekFrom::Start(300)).is_err());

    // seek to current with positive offset
    assert_eq!(reader.current_offset(), 100);
    seek(&mut reader, &segment, SeekFrom::Current(100)).expect("seek to current");
    assert_eq!(reader.current_offset(), 200);

    // seek to current with invalid positive offset
    assert!(seek(&mut reader, &segment, SeekFrom::Current(200)).is_err());

    // seek to current with negative offset
    seek(&mut reader, &segment, SeekFrom::Current(-100)).expect("seek to current");
    assert_eq!(reader.current_offset(), 100);

    // seek to current invalid negative offset
    assert!(seek(&mut reader, &segment, SeekFrom::Current(-200)).is_err());

    // seek to end
    seek(&mut reader, &segment, SeekFrom::End(0)).expect("seek to end");
    assert_eq!(reader.current_offset(), 200);

    // seek to end with positive offset
    assert!(seek(&mut reader, &segment, SeekFrom::End(1)).is_err());

    // seek to end to negative offset
    seek(&mut reader, &segment, SeekFrom::End(-100)).expect("seek to end");
    assert_eq!(reader.current_offset(), 100);

    // seek to end with negative offset
    seek(&mut reader, &segment, SeekFrom::End(-100)).expect("seek to end");
    assert_eq!(reader.current_offset(), 100);

    // seek to end with invalid negative offset
    assert!(seek(&mut reader, &segment, SeekFrom::End(-300)).is_err());
}

#[test]
fn test_byte_stream_truncate() {
    let mut writer = ByteStreamWriter::new();
    let mut reader = ByteStreamReader::new();
    let mut segment = InMemorySegment::new();

    // write 200 bytes
    let payload = vec![1; 200];
    write(&mut writer, &mut segment, &payload);

    // truncate to offset 100
    segment.truncate(100).expect("truncate");

    // read truncated offset
    seek(&mut reader, &segment, SeekFrom::Start(0)).expect("seek to head");
    let mut buf = vec![0; 100];
    assert!(read(&mut reader, &segment, &mut buf).is_err());

    // read from current head
    let offset = segment.head() as u64;
    seek(&mut reader, &segment, SeekFrom::Start(offset)).expect("seek to new head");
    let mut buf = vec![0; 100];
    assert!(read(&mut reader, &segment, &mut buf).is_ok());
    assert_eq!(buf, vec![1; 100]);
}

#[test]
fn write_and_read_scenario() {
    let (_, reader, _) = scenario_one();
    assert_eq!(reader.current_offset(), 8);
}

#[test]
fn seek_scenario() {
    let (_, mut reader, segment) = scenario_one();
    let mut buf = vec![0u8; 4];
    seek(&mut reader, &segment, SeekFrom::Start(0)).expect("seek");
    assert_eq!(read(&mut reader, &segment, &mut buf), Ok(4));
    assert_eq!(buf, vec![1, 1, 1, 1]);
    seek(&mut reader, &segment, SeekFrom::Current(-4)).expect("seek");
    assert_eq!(read(&mut reader, &segment, &mut buf), Ok(4));
    assert_eq!(buf, vec![1, 1, 1, 1]);
    seek(&mut reader, &segment, SeekFrom::End(-4)).expect("seek");
    assert_eq!(read(&mut reader, &segment, &mut buf), Ok(4));
    assert_eq!(buf, vec![2, 2, 2, 2]);
}

#[test]
fn truncation_scenario() {
    let (_, mut reader, mut segment) = scenario_one();
    segment.truncate(4).expect("truncate");
    let mut buf = vec![0u8; 4];
    seek(&mut reader, &segment, SeekFrom::Start(0)).expect("seek");
    assert_eq!(read(&mut reader, &segment, &mut buf), Err(ByteStreamError::NoSuchSegment));
    assert_eq!(segment.head(), 4);
    seek(&mut reader, &segment, SeekFrom::Start(4)).expect("seek");
    assert_eq!(read(&mut reader, &segment, &mut buf), Ok(4));
    assert_eq!(buf, vec![2, 2, 2, 2]);
    // the head never moves back
    segment.truncate(2).expect("truncate");
    assert_eq!(segment.head(), 4);
}

#[test]
fn seal_scenario() {
    let (mut writer, mut reader, mut segment) = scenario_one();
    segment.truncate(4).expect("truncate");
    assert_eq!(write(&mut writer, &mut segment, &[3, 3, 3, 3]), 4);
    writer.seal();
    segment.seal();
    seek(&mut reader, &segment, SeekFrom::Start(4)).expect("seek");
    let mut buf = vec![0u8; 4];
    assert_eq!(read(&mut reader, &segment, &mut buf), Ok(4));
    assert_eq!(buf, vec![2, 2, 2, 2]);
    let mut buf = vec![0u8; 8];
    assert_eq!(read(&mut reader, &segment, &mut buf), Err(ByteStreamError::SegmentIsSealed));
    assert_eq!(reader.current_offset(), 8);
    assert_eq!(writer.write(&[4]), Err(ByteStreamError::WriterSealed));
    assert_eq!(segment.append(&[4]), Err(SegmentError::SegmentIsSealed));
}

#[test]
fn write_then_read_gives_concatenation() {
    let mut writer = ByteStreamWriter::new();
    let mut reader = ByteStreamReader::new();
    let mut segment = InMemorySegment::new();
    write(&mut writer, &mut segment, &[5, 6]);
    write(&mut writer, &mut segment, &[]);
    write(&mut writer, &mut segment, &[7, 8, 9]);
    let mut buf = vec![0u8; 4];
    assert_eq!(read(&mut reader, &segment, &mut buf), Ok(4));
    assert_eq!(buf, vec![5, 6, 7, 8]);
    let mut buf = vec![0u8; 4];
    assert_eq!(read(&mut reader, &segment, &mut buf), Ok(1));
    assert_eq!(buf, vec![9, 0, 0, 0]);
}

#[test]
fn seeks_to_the_same_offset_read_the_same() {
    let (_, mut reader, segment) = scenario_one();
    seek(&mut reader, &segment, SeekFrom::Start(2)).expect("seek");
    let mut first = vec![0u8; 3];
    read(&mut reader, &segment, &mut first).expect("read");
    seek(&mut reader, &segment, SeekFrom::End(-6)).expect("seek");
    let mut second = vec![0u8; 3];
    read(&mut reader, &segment, &mut second).expect("read");
    assert_eq!(first, second);
    assert_eq!(first, vec![1, 1, 2]);
}

#[test]
fn seek_errors() {
    let (_, mut reader, segment) = scenario_one();
    assert_eq!(seek(&mut reader, &segment, SeekFrom::Start(9)), Err(ByteStreamError::SeekBeyondTail));
    assert_eq!(seek(&mut reader, &segment, SeekFrom::Current(-9)), Err(ByteStreamError::SeekNegative));
    assert_eq!(seek(&mut reader, &segment, SeekFrom::Current(1)), Err(ByteStreamError::SeekBeyondTail));
    assert_eq!(seek(&mut reader, &segment, SeekFrom::End(1)), Err(ByteStreamError::SeekBeyondTail));
    assert_eq!(seek(&mut reader, &segment, SeekFrom::End(-9)), Err(ByteStreamError::SeekNegative));
    assert_eq!(seek(&mut reader, &segment, SeekFrom::Current(i64::MAX)), Err(ByteStreamError::SeekBeyondTail));
    assert_eq!(seek(&mut reader, &segment, SeekFrom::End(i64::MIN)), Err(ByteStreamError::SeekNegative));
    assert_eq!(reader.current_offset(), 8);
    assert_eq!(seek(&mut reader, &segment, SeekFrom::End(-3)), Ok(5));
}

#[test]
fn writes_are_cut_into_appends() {
    let mut writer = ByteStreamWriter::new();
    let empty = writer.write(&[]).expect("write");
    assert_eq!(empty, vec![Vec::<u8>::new()]);
    let big = vec![7u8; MAX_WRITE_SIZE + 3];
    let pieces = writer.write(&big).expect("write");
    assert_eq!(pieces.len(), 2);
    assert_eq!(pieces[0].len(), MAX_WRITE_SIZE);
    assert_eq!(pieces[1], vec![7u8; 3]);
    let exact = vec![1u8; MAX_WRITE_SIZE];
    assert_eq!(writer.write(&exact).expect("write").len(), 1);
    assert_eq!(MAX_WRITE_SIZE, 8 * 1024 * 1024);
}

#[test]
fn segment_errors() {
    let mut segment = InMemorySegment::new();
    segment.append(&[1, 2, 3]).expect("append");
    assert_eq!(segment.truncate(4), Err(SegmentError::InvalidOffset));
    assert_eq!(segment.truncate(-1), Err(SegmentError::InvalidOffset));
    assert_eq!(segment.read(0, 2).map(|r| r.data), Ok(vec![1, 2]));
    segment.truncate(1).expect("truncate");
    assert_eq!(segment.read(0, 2).map(|r| r.data), Err(ReaderError::NoSuchSegment));
    let past = segment.read(3, 2).expect("read at the tail");
    assert!(past.data.is_empty());
    assert!(!past.end_of_segment);
    segment.seal();
    assert!(segment.read(2, 2).expect("read").end_of_segment);
    assert_eq!(segment.read(1, 2).map(|r| r.data), Ok(vec![2, 3]));
    assert_eq!(segment.length(), 3);
}

#[test]
fn fresh_ids_differ() {
    assert_ne!(ByteStreamWriter::new().writer_id(), ByteStreamWriter::new().writer_id());
}
