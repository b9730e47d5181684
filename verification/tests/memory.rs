use cat::memory::{MemorySink, MemorySource, SinkFull, SourceFailure};
use cat::stream::{ByteSink, ByteSource};

#[test]
fn source_delivers_front_to_back() {
    let mut source = MemorySource::new(b"abcdefgh".to_vec());
    let mut buf = [0u8; 3];
    assert_eq!(source.read(&mut buf), Ok(3));
    assert_eq!(&buf, b"abc");
    assert_eq!(source.read(&mut buf), Ok(3));
    assert_eq!(&buf, b"def");
    assert_eq!(source.read(&mut buf), Ok(2));
    assert_eq!(&buf[..2], b"gh");
    assert_eq!(source.consumed(), 8);
    assert_eq!(source.read(&mut buf), Ok(0));
    assert_eq!(source.read(&mut buf), Ok(0));
    assert_eq!(source.consumed(), 8);
}

#[test]
fn source_leaves_the_rest_of_the_buffer_alone() {
    let mut source = MemorySource::new(b"ab".to_vec());
    let mut buf = [b'.'; 4];
    assert_eq!(source.read(&mut buf), Ok(2));
    assert_eq!(&buf, b"ab..");
}

#[test]
fn source_honours_its_read_limit() {
    let mut source = MemorySource::with_max_read(b"abcdefgh".to_vec(), 5);
    let mut buf = [0u8; 16];
    assert_eq!(source.read(&mut buf), Ok(5));
    assert_eq!(&buf[..5], b"abcde");
    assert_eq!(source.read(&mut buf), Ok(3));
    assert_eq!(&buf[..3], b"fgh");
    assert_eq!(source.read(&mut buf), Ok(0));
}

#[test]
fn source_with_no_read_limit_left_reports_the_end() {
    let mut source = MemorySource::with_max_read(b"abc".to_vec(), 0);
    let mut buf = [0u8; 16];
    assert_eq!(source.read(&mut buf), Ok(0));
    assert_eq!(source.consumed(), 0);
}

#[test]
fn source_with_an_empty_buffer_delivers_nothing() {
    let mut source = MemorySource::new(b"abc".to_vec());
    let mut buf = [0u8; 0];
    assert_eq!(source.read(&mut buf), Ok(0));
    assert_eq!(source.consumed(), 0);
}

#[test]
fn cut_source_fails_at_its_end() {
    let mut source = MemorySource::new(b"abc".to_vec()).failing_at_end();
    let mut buf = [0u8; 2];
    assert_eq!(source.read(&mut buf), Ok(2));
    assert_eq!(source.read(&mut buf), Ok(1));
    assert_eq!(source.read(&mut buf), Err(SourceFailure { offset: 3 }));
    assert_eq!(source.read(&mut buf), Err(SourceFailure { offset: 3 }));
    assert_eq!(source.consumed(), 3);
}

#[test]
fn sink_keeps_each_write() {
    let mut sink = MemorySink::new();
    assert_eq!(sink.write_all(b"ab"), Ok(()));
    assert_eq!(sink.write_all(b""), Ok(()));
    assert_eq!(sink.write_all(b"cde"), Ok(()));
    assert_eq!(sink.chunks(), &vec![b"ab".to_vec(), Vec::new(), b"cde".to_vec()]);
    assert_eq!(sink.bytes(), b"abcde".to_vec());
}

#[test]
fn sink_refuses_what_does_not_fit() {
    let mut sink = MemorySink::with_room(4);
    assert_eq!(sink.write_all(b"abc"), Ok(()));
    assert_eq!(sink.write_all(b"de"), Err(SinkFull { refused: 2 }));
    assert_eq!(sink.write_all(b"f"), Ok(()));
    assert_eq!(sink.write_all(b"g"), Err(SinkFull { refused: 1 }));
    assert_eq!(sink.write_all(b""), Ok(()));
    assert_eq!(sink.bytes(), b"abcf".to_vec());
}

#[test]
fn sink_counts_its_room() {
    let mut sink = MemorySink::with_room(10);
    assert_eq!(sink.room_left(), 10);
    assert_eq!(sink.write_all(b"abcd"), Ok(()));
    assert_eq!(sink.room_left(), 6);
    assert_eq!(sink.write_all(b"0123456"), Err(SinkFull { refused: 7 }));
    assert_eq!(sink.room_left(), 6);
    assert_eq!(sink.write_all(b"012345"), Ok(()));
    assert_eq!(sink.room_left(), 0);
    assert_eq!(MemorySink::new().room_left(), usize::MAX);
}
