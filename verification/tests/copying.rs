use cat::memory::{copy_bytes, MemorySink, MemorySource, SinkFull, SourceFailure};
use cat::{copy_reader, CopyError};

fn pattern(len: usize) -> Vec<u8> {
    (0..len).map(|i| (i % 251) as u8).collect()
}

fn lengths(sink: &MemorySink) -> Vec<usize> {
    sink.chunks().iter().map(|c| c.len()).collect()
}

#[test]
fn buffered_copy_keeps_every_byte() {
    for len in [1usize, 2, 511, 512, 513, 1023, 1024, 1025, 1300, 5000] {
        let data = pattern(len);
        let mut source = MemorySource::new(data.clone());
        let mut sink = MemorySink::new();
        assert_eq!(copy_reader(&mut source, &mut sink, false), Ok(()));
        assert_eq!(sink.bytes(), data);
        assert_eq!(source.consumed(), len);
    }
}

#[test]
fn unbuffered_copy_keeps_every_byte() {
    for len in [1usize, 2, 511, 512, 513, 1023, 1024, 1025, 1300, 5000] {
        let data = pattern(len);
        let mut source = MemorySource::new(data.clone());
        let mut sink = MemorySink::new();
        assert_eq!(copy_reader(&mut source, &mut sink, true), Ok(()));
        assert_eq!(sink.bytes(), data);
        assert_eq!(source.consumed(), len);
    }
}

#[test]
fn short_reads_keep_every_byte_in_both_modes() {
    for max_read in [1usize, 7, 100, 255, 256, 511, 512, 513, 4096] {
        for unbuffered in [false, true] {
            let data = pattern(2000);
            let mut source = MemorySource::with_max_read(data.clone(), max_read);
            let mut sink = MemorySink::new();
            assert_eq!(copy_reader(&mut source, &mut sink, unbuffered), Ok(()));
            assert_eq!(sink.bytes(), data);
        }
    }
}

#[test]
fn reads_take_at_most_one_block() {
    let mut source = MemorySource::new(pattern(1300));
    let mut sink = MemorySink::new();
    assert_eq!(copy_reader(&mut source, &mut sink, true), Ok(()));
    assert_eq!(lengths(&sink), vec![512, 512, 276]);
}

#[test]
fn unbuffered_writes_once_per_read() {
    let data = pattern(1300);
    let mut source = MemorySource::with_max_read(data.clone(), 100);
    let mut sink = MemorySink::new();
    assert_eq!(copy_reader(&mut source, &mut sink, true), Ok(()));
    assert_eq!(sink.chunks().len(), 13);
    for (i, chunk) in sink.chunks().iter().enumerate() {
        assert_eq!(chunk.as_slice(), &data[i * 100..(i + 1) * 100]);
    }
}

#[test]
fn unbuffered_writes_follow_uneven_reads() {
    let data = pattern(1000);
    let mut source = MemorySource::with_max_read(data.clone(), 300);
    let mut sink = MemorySink::new();
    assert_eq!(copy_reader(&mut source, &mut sink, true), Ok(()));
    assert_eq!(lengths(&sink), vec![300, 300, 300, 100]);
    assert_eq!(sink.bytes(), data);
}

#[test]
fn buffered_writes_full_blocks_then_the_rest() {
    let data = pattern(1300);
    let mut source = MemorySource::with_max_read(data.clone(), 100);
    let mut sink = MemorySink::new();
    assert_eq!(copy_reader(&mut source, &mut sink, false), Ok(()));
    assert_eq!(lengths(&sink), vec![600, 600, 100]);
    assert_eq!(sink.chunks()[0].as_slice(), &data[..600]);
    assert_eq!(sink.chunks()[1].as_slice(), &data[600..1200]);
    assert_eq!(sink.chunks()[2].as_slice(), &data[1200..]);
}

#[test]
fn buffered_write_comes_when_the_block_is_reached() {
    let mut source = MemorySource::with_max_read(pattern(1024), 256);
    let mut sink = MemorySink::new();
    assert_eq!(copy_reader(&mut source, &mut sink, false), Ok(()));
    assert_eq!(lengths(&sink), vec![512, 512]);

    let mut source = MemorySource::with_max_read(pattern(1533), 511);
    let mut sink = MemorySink::new();
    assert_eq!(copy_reader(&mut source, &mut sink, false), Ok(()));
    assert_eq!(lengths(&sink), vec![1022, 511]);
}

#[test]
fn buffered_copy_at_the_block_boundary() {
    let mut source = MemorySource::new(pattern(511));
    let mut sink = MemorySink::new();
    assert_eq!(copy_reader(&mut source, &mut sink, false), Ok(()));
    assert_eq!(lengths(&sink), vec![511]);

    let mut source = MemorySource::new(pattern(512));
    let mut sink = MemorySink::new();
    assert_eq!(copy_reader(&mut source, &mut sink, false), Ok(()));
    assert_eq!(lengths(&sink), vec![512]);

    let mut source = MemorySource::new(pattern(513));
    let mut sink = MemorySink::new();
    assert_eq!(copy_reader(&mut source, &mut sink, false), Ok(()));
    assert_eq!(lengths(&sink), vec![512, 1]);
}

#[test]
fn empty_input_gives_empty_output() {
    for unbuffered in [false, true] {
        let mut source = MemorySource::new(Vec::new());
        let mut sink = MemorySink::new();
        assert_eq!(copy_reader(&mut source, &mut sink, unbuffered), Ok(()));
        assert!(sink.chunks().is_empty());
        assert!(sink.bytes().is_empty());
    }
}

#[test]
fn inputs_are_concatenated_in_order() {
    for unbuffered in [false, true] {
        let first = pattern(700);
        let second: Vec<u8> = pattern(300).into_iter().rev().collect();
        let third = vec![b'\n'; 5];
        let mut sink = MemorySink::new();
        for data in [&first, &second, &third] {
            let mut source = MemorySource::new(data.clone());
            assert_eq!(copy_reader(&mut source, &mut sink, unbuffered), Ok(()));
        }
        let mut expected = first.clone();
        expected.extend_from_slice(&second);
        expected.extend_from_slice(&third);
        assert_eq!(sink.bytes(), expected);
    }
}

#[test]
fn each_input_is_flushed_before_the_next() {
    let mut sink = MemorySink::new();
    for len in [100usize, 100, 600] {
        let mut source = MemorySource::new(pattern(len));
        assert_eq!(copy_reader(&mut source, &mut sink, false), Ok(()));
    }
    assert_eq!(lengths(&sink), vec![100, 100, 512, 88]);
}

#[test]
fn read_failure_ends_the_copy() {
    let data = pattern(700);
    let mut source = MemorySource::new(data.clone()).failing_at_end();
    let mut sink = MemorySink::new();
    let result = copy_reader(&mut source, &mut sink, true);
    assert_eq!(result, Err(CopyError::Read(SourceFailure { offset: 700 })));
    assert_eq!(sink.bytes(), data);
}

#[test]
fn read_failure_leaves_held_bytes_unwritten() {
    let data = pattern(700);
    let mut source = MemorySource::new(data.clone()).failing_at_end();
    let mut sink = MemorySink::new();
    let result = copy_reader(&mut source, &mut sink, false);
    assert_eq!(result, Err(CopyError::Read(SourceFailure { offset: 700 })));
    assert_eq!(sink.bytes(), &data[..512]);
}

#[test]
fn read_failure_on_the_first_read() {
    for unbuffered in [false, true] {
        let mut source = MemorySource::new(Vec::new()).failing_at_end();
        let mut sink = MemorySink::new();
        let result = copy_reader(&mut source, &mut sink, unbuffered);
        assert_eq!(result, Err(CopyError::Read(SourceFailure { offset: 0 })));
        assert!(sink.chunks().is_empty());
    }
}

#[test]
fn write_failure_ends_the_copy() {
    let data = pattern(1300);
    let mut source = MemorySource::new(data.clone());
    let mut sink = MemorySink::with_room(600);
    let result = copy_reader(&mut source, &mut sink, true);
    assert_eq!(result, Err(CopyError::Write(SinkFull { refused: 512 })));
    assert_eq!(sink.bytes(), &data[..512]);
    assert_eq!(source.consumed(), 1024);
}

#[test]
fn write_failure_in_a_buffered_copy() {
    let data = pattern(1300);
    let mut source = MemorySource::with_max_read(data.clone(), 100);
    let mut sink = MemorySink::with_room(1000);
    let result = copy_reader(&mut source, &mut sink, false);
    assert_eq!(result, Err(CopyError::Write(SinkFull { refused: 600 })));
    assert_eq!(sink.bytes(), &data[..600]);
    assert_eq!(source.consumed(), 1200);
}

#[test]
fn write_failure_at_the_final_flush() {
    let data = pattern(700);
    let mut source = MemorySource::new(data.clone());
    let mut sink = MemorySink::with_room(600);
    let result = copy_reader(&mut source, &mut sink, false);
    assert_eq!(result, Err(CopyError::Write(SinkFull { refused: 188 })));
    assert_eq!(sink.bytes(), &data[..512]);
    assert_eq!(source.consumed(), 700);
}

#[test]
fn copy_goes_on_where_the_source_stands() {
    let data = pattern(1000);
    let mut source = MemorySource::new(data.clone());
    let mut full = MemorySink::with_room(0);
    let result = copy_reader(&mut source, &mut full, true);
    assert_eq!(result, Err(CopyError::Write(SinkFull { refused: 512 })));
    let mut sink = MemorySink::new();
    assert_eq!(copy_reader(&mut source, &mut sink, true), Ok(()));
    assert_eq!(sink.bytes(), &data[512..]);
}

#[test]
fn copy_bytes_returns_its_input() {
    for unbuffered in [false, true] {
        for len in [0usize, 1, 511, 512, 513, 1024, 4097] {
            let data = pattern(len);
            assert_eq!(copy_bytes(data.clone(), unbuffered), data);
        }
    }
}

#[test]
fn short_reads_of_a_cut_source() {
    let data = pattern(700);
    let mut source = MemorySource::with_max_read(data.clone(), 300).failing_at_end();
    let mut sink = MemorySink::new();
    let result = copy_reader(&mut source, &mut sink, false);
    assert_eq!(result, Err(CopyError::Read(SourceFailure { offset: 700 })));
    assert_eq!(lengths(&sink), vec![600]);
    assert_eq!(sink.bytes(), &data[..600]);
}
