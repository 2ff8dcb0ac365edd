//! Frames in files.
use lz4_rs::file::{Io, ReadFile, WriteFile};
use lz4_rs::frame::{Error, FrameInfo, Preferences};

/// A file in memory, which may give little at a time, or break.
struct Memory {
    bytes: Vec<u8>,
    at: usize,
    most: usize,
    broken: bool,
    writable: usize,
}

impl Memory {
    fn new(bytes: Vec<u8>, most: usize) -> Memory {
        Memory { bytes, at: 0, most, broken: false, writable: usize::MAX }
    }
}

impl Io for Memory {
    fn read(&mut self, buf: &mut [u8]) -> usize {
        if self.broken {
            return 0;
        }
        let n = buf.len().min(self.most).min(self.bytes.len() - self.at);
        buf[..n].copy_from_slice(&self.bytes[self.at..self.at + n]);
        self.at += n;
        n
    }

    fn write(&mut self, buf: &[u8]) -> usize {
        let n = buf.len().min(self.writable);
        self.bytes.extend_from_slice(&buf[..n]);
        self.writable -= n;
        n
    }

    fn error(&mut self) -> bool {
        self.broken
    }
}

fn text(n: usize, seed: u32) -> Vec<u8> {
    let words: [&[u8]; 8] = [b"alpha ", b"beta ", b"gamma ", b"delta ", b"the ", b"quick", b"\n", b"xy"];
    let mut x = seed.wrapping_mul(2).wrapping_add(1);
    let mut v = Vec::new();
    while v.len() < n {
        x = x.wrapping_mul(1664525).wrapping_add(1013904223);
        v.extend_from_slice(words[(x >> 29) as usize]);
    }
    v.truncate(n);
    v
}

fn written(data: &[u8], step: usize, p: Option<&Preferences>) -> Vec<u8> {
    let mut io = Memory::new(Vec::new(), usize::MAX);
    let mut w = WriteFile::open(&mut io, p).ok().unwrap();
    for piece in data.chunks(step) {
        assert_eq!(w.write(&mut io, piece), Ok(piece.len()));
    }
    assert_eq!(w.close(&mut io), Ok(()));
    io.bytes
}

#[test]
fn files_read_back_what_was_written() {
    for n in [0, 1, 5000, 65_536, 250_000] {
        let data = text(n, n as u32);
        for (mode, checksums) in [(0, false), (1, true), (0, true)] {
            let p = Preferences {
                frame_info: FrameInfo {
                    block_mode: mode,
                    content_checksum: checksums,
                    block_checksum: checksums,
                    ..FrameInfo::default()
                },
                ..Preferences::default()
            };
            let file = written(&data, 30_001, Some(&p));
            let mut io = Memory::new(file, usize::MAX);
            let mut r = ReadFile::open(&mut io).ok().unwrap();
            let mut out = Vec::new();
            loop {
                let mut buf = vec![0; 7777];
                let k = r.read(&mut io, &mut buf).unwrap();
                out.extend_from_slice(&buf[..k]);
                if k < buf.len() {
                    break;
                }
            }
            assert_eq!(out, data);
        }
    }
}

#[test]
fn files_that_come_in_small_pieces() {
    let data = text(100_000, 9);
    let file = written(&data, 100_000, None);
    // The first read has to give a header and more.
    let mut io = Memory::new(file, 19);
    let mut r = ReadFile::open(&mut io).ok().unwrap();
    let mut out = vec![0; 100_000];
    assert_eq!(r.read(&mut io, &mut out), Ok(100_000));
    assert_eq!(out, data);
    assert_eq!(r.read(&mut io, &mut out), Ok(0));
}

#[test]
fn the_header_is_written_at_once() {
    let mut io = Memory::new(Vec::new(), usize::MAX);
    let w = WriteFile::open(&mut io, None);
    assert!(w.is_ok());
    assert_eq!(io.bytes, [4, 0x22, 0x4D, 0x18, 0x40, 0x40, 0xC0]);
}

#[test]
fn refusals_on_opening() {
    let mut io = Memory::new(vec![4, 0x22, 0x4D, 0x18, 0x40, 0x40, 0xC0, 0, 0, 0], usize::MAX);
    assert_eq!(ReadFile::open(&mut io).err(), Some(Error::IoRead));
    let mut io = Memory::new(vec![1; 30], usize::MAX);
    assert_eq!(ReadFile::open(&mut io).err(), Some(Error::FrameTypeUnknown));
    let p = Preferences {
        frame_info: FrameInfo { block_size_id: 9, ..FrameInfo::default() },
        ..Preferences::default()
    };
    let mut io = Memory::new(Vec::new(), usize::MAX);
    assert_eq!(WriteFile::open(&mut io, Some(&p)).err(), Some(Error::MaxBlockSizeInvalid));
    io.writable = 3;
    assert_eq!(WriteFile::open(&mut io, None).err(), Some(Error::IoWrite));
}

#[test]
fn a_broken_stream_is_told_from_the_end() {
    let data = text(50_000, 4);
    let file = written(&data, 50_000, None);
    let mut io = Memory::new(file, 100);
    let mut r = ReadFile::open(&mut io).ok().unwrap();
    io.broken = true;
    let mut buf = vec![0; 50_000];
    assert_eq!(r.read(&mut io, &mut buf), Err(Error::IoRead));
}

#[test]
fn a_full_disk_is_reported_and_the_frame_left_open() {
    let data = text(200_000, 6);
    let mut io = Memory::new(Vec::new(), usize::MAX);
    let mut w = WriteFile::open(&mut io, None).ok().unwrap();
    io.writable = 100;
    assert_eq!(w.write(&mut io, &data), Err(Error::IoWrite));
    let n = io.bytes.len();
    io.writable = usize::MAX;
    assert_eq!(w.close(&mut io), Ok(()));
    assert_eq!(io.bytes.len(), n);
}

#[test]
fn a_corrupt_file_is_refused() {
    let data = text(5000, 6);
    let p = Preferences {
        frame_info: FrameInfo { content_checksum: true, ..FrameInfo::default() },
        ..Preferences::default()
    };
    let mut file = written(&data, 5000, Some(&p));
    let last = file.len() - 1;
    file[last] ^= 1;
    let mut io = Memory::new(file, usize::MAX);
    let mut r = ReadFile::open(&mut io).ok().unwrap();
    let mut buf = vec![0; 6000];
    assert_eq!(r.read(&mut io, &mut buf), Err(Error::ContentChecksumInvalid));
}

#[test]
fn reads_of_all_lengths_give_one_piece_after_the_other() {
    let data = text(90_000, 12);
    let file = written(&data, 4321, None);
    let mut io = Memory::new(file, 3000);
    let mut r = ReadFile::open(&mut io).ok().unwrap();
    let mut out = Vec::new();
    for room in [0, 1, 70_000, 17, 0, 5000, 9000, 50_000, 1] {
        let mut buf = vec![0; room];
        let n = r.read(&mut io, &mut buf).unwrap();
        assert_eq!(n, room.min(data.len() - out.len()));
        out.extend_from_slice(&buf[..n]);
    }
    assert_eq!(out, data);
}

#[test]
fn after_a_failed_write_closing_asks_nothing() {
    let data = text(200_000, 6);
    let mut io = Memory::new(Vec::new(), usize::MAX);
    let mut w = WriteFile::open(&mut io, None).ok().unwrap();
    io.writable = 100;
    assert_eq!(w.write(&mut io, &data), Err(Error::IoWrite));
    io.writable = usize::MAX;
    assert_eq!(w.write(&mut io, &data[..1000]), Ok(1000));
    let n = io.bytes.len();
    assert_eq!(w.close(&mut io), Ok(()));
    assert_eq!(io.bytes.len(), n);
}
