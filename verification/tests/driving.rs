use std::io::{Cursor, Read, Write};

use cat::{Action, StreamCopier, BLOCK_SIZE};

fn drive<R: Read, W: Write>(reader: &mut R, writer: &mut W, unbuffered: bool) -> std::io::Result<()> {
    let mut buf = [0u8; BLOCK_SIZE];
    let mut copier = StreamCopier::new(unbuffered);
    loop {
        let n = reader.read(&mut buf)?;
        match copier.step(&buf[..n]) {
            Action::ReadMore => {}
            Action::WriteThenRead(bytes) => writer.write_all(&bytes)?,
            Action::WriteThenStop(bytes) => {
                writer.write_all(&bytes)?;
                return Ok(());
            }
            Action::Stop => return Ok(()),
        }
    }
}

struct CountingWriter {
    bytes: Vec<u8>,
    calls: usize,
}

impl Write for CountingWriter {
    fn write(&mut self, data: &[u8]) -> std::io::Result<usize> {
        self.calls += 1;
        self.bytes.extend_from_slice(data);
        Ok(data.len())
    }

    fn flush(&mut self) -> std::io::Result<()> {
        Ok(())
    }
}

struct Trickle<'a> {
    data: &'a [u8],
    step: usize,
}

impl<'a> Read for Trickle<'a> {
    fn read(&mut self, buf: &mut [u8]) -> std::io::Result<usize> {
        let n = self.step.min(buf.len()).min(self.data.len());
        buf[..n].copy_from_slice(&self.data[..n]);
        self.data = &self.data[n..];
        Ok(n)
    }
}

fn text(len: usize) -> Vec<u8> {
    (0..len).map(|i| b'a' + (i % 26) as u8).collect()
}

#[test]
fn driven_copier_copies_a_cursor() {
    for unbuffered in [false, true] {
        for len in [0usize, 1, 511, 512, 513, 3000] {
            let data = text(len);
            let mut out = Vec::new();
            drive(&mut Cursor::new(data.clone()), &mut out, unbuffered).unwrap();
            assert_eq!(out, data);
        }
    }
}

#[test]
fn driven_copier_writes_once_per_read_when_unbuffered() {
    let data = text(1000);
    let mut reader = Trickle { data: &data, step: 10 };
    let mut writer = CountingWriter { bytes: Vec::new(), calls: 0 };
    drive(&mut reader, &mut writer, true).unwrap();
    assert_eq!(writer.calls, 100);
    assert_eq!(writer.bytes, data);
}

#[test]
fn driven_copier_batches_when_buffered() {
    let data = text(1000);
    let mut reader = Trickle { data: &data, step: 10 };
    let mut writer = CountingWriter { bytes: Vec::new(), calls: 0 };
    drive(&mut reader, &mut writer, false).unwrap();
    assert_eq!(writer.calls, 2);
    assert_eq!(writer.bytes, data);
}

#[test]
fn driven_copier_concatenates_streams() {
    let mut out = Vec::new();
    drive(&mut Cursor::new(b"one ".to_vec()), &mut out, false).unwrap();
    drive(&mut Cursor::new(Vec::new()), &mut out, false).unwrap();
    drive(&mut Cursor::new(b"two".to_vec()), &mut out, true).unwrap();
    assert_eq!(out, b"one two");
}
