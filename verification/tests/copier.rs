use cat::{Action, StreamCopier, BLOCK_SIZE};

#[test]
fn block_size_is_512() {
    assert_eq!(BLOCK_SIZE, 512);
}

#[test]
fn unbuffered_copier_hands_each_chunk_on() {
    let mut copier = StreamCopier::new(true);
    assert_eq!(copier.step(b"abc"), Action::WriteThenRead(b"abc".to_vec()));
    assert_eq!(copier.step(b"d"), Action::WriteThenRead(b"d".to_vec()));
    assert_eq!(copier.step(&[7u8; 512]), Action::WriteThenRead(vec![7u8; 512]));
    assert_eq!(copier.step(b""), Action::Stop);
}

#[test]
fn buffered_copier_holds_back_until_a_block_is_full() {
    let mut copier = StreamCopier::new(false);
    assert_eq!(copier.step(&[1u8; 300]), Action::ReadMore);
    assert_eq!(copier.step(&[2u8; 211]), Action::ReadMore);
    let mut block = vec![1u8; 300];
    block.extend_from_slice(&[2u8; 211]);
    block.push(3);
    assert_eq!(copier.step(&[3u8]), Action::WriteThenRead(block));
    assert_eq!(copier.step(b""), Action::Stop);
}

#[test]
fn buffered_copier_writes_more_than_a_block_at_once() {
    let mut copier = StreamCopier::new(false);
    assert_eq!(copier.step(&[1u8; 511]), Action::ReadMore);
    let mut block = vec![1u8; 511];
    block.extend_from_slice(&[2u8; 512]);
    assert_eq!(copier.step(&[2u8; 512]), Action::WriteThenRead(block));
}

#[test]
fn buffered_copier_flushes_at_the_end() {
    let mut copier = StreamCopier::new(false);
    assert_eq!(copier.step(b"hello "), Action::ReadMore);
    assert_eq!(copier.step(b"world"), Action::ReadMore);
    assert_eq!(copier.step(b""), Action::WriteThenStop(b"hello world".to_vec()));
    assert_eq!(copier.step(b""), Action::Stop);
}

#[test]
fn buffered_copier_starts_afresh_after_a_block() {
    let mut copier = StreamCopier::new(false);
    assert_eq!(copier.step(&[9u8; 512]), Action::WriteThenRead(vec![9u8; 512]));
    assert_eq!(copier.step(b"x"), Action::ReadMore);
    assert_eq!(copier.step(b""), Action::WriteThenStop(b"x".to_vec()));
}

#[test]
fn copier_stops_at_once_on_an_empty_stream() {
    assert_eq!(StreamCopier::new(false).step(b""), Action::Stop);
    assert_eq!(StreamCopier::new(true).step(b""), Action::Stop);
}
