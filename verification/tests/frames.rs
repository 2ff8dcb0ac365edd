//! Frames: compressing, decoding in pieces, and what is refused.
use lz4_rs::frame::{
    compress_bound, compress_frame, compress_frame_bound, decompress, error_code, error_name,
    get_block_size, get_frame_info, header_size, heap_total, is_error, BlockCompressMode, CDict,
    Cctx, Dctx, Error, FrameInfo, Preferences,
};

fn text(n: usize, seed: u32) -> Vec<u8> {
    let words: [&[u8]; 8] = [b"alpha ", b"beta ", b"gamma ", b"delta ", b"the ", b"quick", b"\n", b"xy"];
    let mut x = seed.wrapping_mul(2).wrapping_add(1);
    let mut v = Vec::new();
    while v.len() < n {
        x = x.wrapping_mul(1664525).wrapping_add(1013904223);
        v.extend_from_slice(words[(x >> 29) as usize]);
    }
    v.truncate(n);
    v
}

fn noise(n: usize, seed: u32) -> Vec<u8> {
    let mut x = seed.wrapping_mul(2).wrapping_add(1);
    (0..n)
        .map(|_| {
            x = x.wrapping_mul(1664525).wrapping_add(1013904223);
            (x >> 24) as u8
        })
        .collect()
}

fn prefs(block_mode: i32, checksums: bool, sized: u64) -> Preferences {
    Preferences {
        frame_info: FrameInfo {
            block_mode,
            content_checksum: checksums,
            block_checksum: checksums,
            content_size: sized,
            ..FrameInfo::default()
        },
        ..Preferences::default()
    }
}

fn pack(data: &[u8], cdict: Option<&CDict>, p: Option<&Preferences>) -> Vec<u8> {
    let mut dst = vec![0; compress_frame_bound(data.len(), p)];
    let n = compress_frame(&mut Cctx::new(), &mut dst, data, cdict, p).unwrap();
    dst.truncate(n);
    dst
}

/// Decodes in pieces of `step` bytes of input and `room` bytes of output.
fn unpack(frame: &[u8], step: usize, room: usize, dict: Option<&[u8]>) -> Result<Vec<u8>, Error> {
    let mut d = Dctx::new();
    let mut out = Vec::new();
    let mut at = 0;
    loop {
        let end = (at + step).min(frame.len());
        let mut dst = vec![0; room];
        let p = decompress(&mut d, &mut dst, &frame[at..end], dict, false)?;
        out.extend_from_slice(&dst[..p.dst_written]);
        at += p.src_consumed;
        if p.hint == 0 || (p.src_consumed == 0 && p.dst_written == 0) {
            return Ok(out);
        }
    }
}

#[test]
fn known_headers() {
    let mut dst = vec![0; 19];
    assert_eq!(Cctx::new().begin(&mut dst, None, None, None), Ok(7));
    assert_eq!(dst[..7], [4, 0x22, 0x4D, 0x18, 0x40, 0x40, 0xC0]);
    // A frame of one block has nothing to link.
    assert_eq!(pack(b"", None, None)[..7], [4, 0x22, 0x4D, 0x18, 0x60, 0x40, 0x82]);
    assert_eq!(pack(b"", None, Some(&prefs(1, false, 0)))[..7], [4, 0x22, 0x4D, 0x18, 0x60, 0x40, 0x82]);
    let p = Preferences {
        frame_info: FrameInfo { block_mode: 1, content_checksum: true, ..FrameInfo::default() },
        ..Preferences::default()
    };
    let f = pack(b"", None, Some(&p));
    assert_eq!(f[..7], [4, 0x22, 0x4D, 0x18, 0x64, 0x40, 0xA7]);
    // The end mark, and the checksum of nothing.
    assert_eq!(f[7..], [0, 0, 0, 0, 0x05, 0x5D, 0xCC, 0x02]);
}

#[test]
fn frames_round_trip_in_pieces() {
    for n in [0, 1, 500, 65_536, 70_000, 200_000] {
        for data in [text(n, 3), noise(n, 4)] {
            for mode in [0, 1] {
                for checksums in [false, true] {
                    let p = prefs(mode, checksums, if checksums { n as u64 } else { 0 });
                    let f = pack(&data, None, Some(&p));
                    for (step, room) in [(usize::MAX / 2, n), (1, 40_000), (7000, 999), (1000, 65_536)] {
                        if step == 1 && n > 70_000 {
                            continue;
                        }
                        if room == 0 {
                            continue;
                        }
                        assert_eq!(unpack(&f, step, room, None).unwrap(), data);
                    }
                }
            }
        }
    }
}

#[test]
fn decoding_takes_the_frame_and_no_more() {
    let data = text(5000, 7);
    let mut f = pack(&data, None, Some(&prefs(0, true, 5000)));
    let n = f.len();
    f.extend_from_slice(b"trailing");
    let mut out = vec![0; 6000];
    let p = decompress(&mut Dctx::new(), &mut out, &f, None, false).unwrap();
    assert_eq!((p.src_consumed, p.dst_written, p.hint), (n, 5000, 0));
    assert_eq!(&out[..5000], &data[..]);
}

#[test]
fn input_in_pieces_with_and_without_flushing() {
    let data = text(300_000, 11);
    for auto_flush in [false, true] {
        for mode in [0, 1] {
            let p = Preferences { auto_flush, ..prefs(mode, true, 0) };
            let mut c = Cctx::new();
            let mut dst = vec![0; compress_bound(40_000, Some(&p)).max(1000)];
            let mut f = Vec::new();
            let n = c.begin(&mut dst, None, None, Some(&p)).unwrap();
            f.extend_from_slice(&dst[..n]);
            for (i, piece) in data.chunks(40_000).enumerate() {
                let n = c.update(&mut dst, piece, BlockCompressMode::Compressed).unwrap();
                f.extend_from_slice(&dst[..n]);
                if i == 2 {
                    let n = c.flush(&mut dst).unwrap();
                    f.extend_from_slice(&dst[..n]);
                }
            }
            let n = c.end(&mut dst).unwrap();
            f.extend_from_slice(&dst[..n]);
            assert_eq!(unpack(&f, 10_000, 10_000, None).unwrap(), data);
            assert!(c.heap_size() >= 65_536);
        }
    }
}

#[test]
fn uncompressed_blocks_among_compressed_ones() {
    let data = text(180_000, 19);
    let p = prefs(0, true, 0);
    let mut c = Cctx::new();
    let mut dst = vec![0; 400_000];
    let mut f = Vec::new();
    let n = c.begin(&mut dst, None, None, Some(&p)).unwrap();
    f.extend_from_slice(&dst[..n]);
    for (i, piece) in data.chunks(30_000).enumerate() {
        let mode = if i % 2 == 0 {
            BlockCompressMode::Compressed
        } else {
            BlockCompressMode::Uncompressed
        };
        let n = c.update(&mut dst, piece, mode).unwrap();
        f.extend_from_slice(&dst[..n]);
    }
    let n = c.end(&mut dst).unwrap();
    f.extend_from_slice(&dst[..n]);
    assert_eq!(unpack(&f, 5000, 70_000, None).unwrap(), data);
}

#[test]
fn dictionaries() {
    let dict = text(70_000, 23);
    let data = dict[30_000..50_000].to_vec();
    for mode in [0, 1] {
        let p = prefs(mode, true, 0);
        let f = pack(&data, Some(&CDict::new(&dict)), Some(&p));
        assert!(f.len() < 1000);
        assert_eq!(unpack(&f, 333, 7000, Some(&dict)).unwrap(), data);
        assert!(unpack(&f, f.len(), 20_000, None).is_err());
    }
}

#[test]
fn skippable_frames_are_skipped() {
    let mut f = vec![0x52, 0x2A, 0x4D, 0x18, 5, 0, 0, 0, 1, 2, 3, 4, 5];
    assert_eq!(header_size(&f), Ok(8));
    let mut d = Dctx::new();
    let p = decompress(&mut d, &mut [], &f, None, false).unwrap();
    assert_eq!((p.src_consumed, p.dst_written, p.hint), (13, 0, 0));
    let data = text(100, 1);
    f.extend_from_slice(&pack(&data, None, None));
    let mut out = vec![0; 100];
    let p = decompress(&mut d, &mut out, &f[13..], None, false).unwrap();
    assert_eq!(p.dst_written, 100);
    assert_eq!(out, data);
}

#[test]
fn frame_info_is_read_back() {
    let p = Preferences {
        frame_info: FrameInfo { dict_id: 77, block_size_id: 5, ..prefs(1, true, 1234).frame_info },
        ..Preferences::default()
    };
    let mut dst = vec![0; 19];
    let n = Cctx::new().begin(&mut dst, None, None, Some(&p)).unwrap();
    assert_eq!(n, 19);
    assert_eq!(header_size(&dst), Ok(19));
    let mut d = Dctx::new();
    let (info, taken, hint) = get_frame_info(&mut d, &dst).unwrap();
    assert_eq!(info, p.frame_info);
    assert_eq!((taken, hint), (19, 4));
}

#[test]
fn refusals_of_the_decoder() {
    let data = text(5000, 2);
    let good = pack(&data, None, Some(&prefs(1, true, 5000)));
    let run = |f: &[u8]| {
        let mut out = vec![0; 6000];
        decompress(&mut Dctx::new(), &mut out, f, None, false).map(|p| p.hint)
    };
    assert_eq!(run(&good), Ok(0));
    let with = |at: usize, b: u8| {
        let mut f = good.clone();
        f[at] = b;
        f
    };
    assert_eq!(run(&with(0, 5)), Err(Error::FrameTypeUnknown));
    assert_eq!(run(&with(4, 0x3C)), Err(Error::HeaderVersionWrong));
    assert_eq!(run(&with(4, good[4] | 2)), Err(Error::ReservedFlagSet));
    assert_eq!(run(&with(5, 0x30)), Err(Error::MaxBlockSizeInvalid));
    assert_eq!(run(&with(14, good[14] ^ 1)), Err(Error::HeaderChecksumInvalid));
    assert_eq!(run(&with(40, good[40] ^ 1)), Err(Error::BlockChecksumInvalid));
    let last = good.len() - 1;
    assert_eq!(run(&with(last, good[last] ^ 1)), Err(Error::ContentChecksumInvalid));
    assert_eq!(run(&with(17, 0xFF)), Err(Error::MaxBlockSizeInvalid));
    let mut out = vec![0; 6000];
    let p = decompress(&mut Dctx::new(), &mut out, &with(last, good[last] ^ 1), None, true).unwrap();
    assert_eq!((p.dst_written, p.hint), (5000, 0));
    assert_eq!(header_size(&good[..4]), Err(Error::FrameHeaderIncomplete));
}

#[test]
fn a_wrong_content_size_is_reported() {
    let mut c = Cctx::new();
    let mut dst = vec![0; 1000];
    c.begin(&mut dst, None, None, Some(&prefs(0, false, 50))).unwrap();
    c.update(&mut vec![0; 70_000], b"short", BlockCompressMode::Compressed).unwrap();
    assert_eq!(c.end(&mut dst), Err(Error::FrameSizeWrong));
}

#[test]
fn refusals_of_the_compressor() {
    let mut c = Cctx::new();
    let mut dst = vec![0; 200_000];
    assert_eq!(
        c.update(&mut dst, b"x", BlockCompressMode::Compressed),
        Err(Error::CompressionStateUninitialized)
    );
    assert_eq!(c.begin(&mut dst[..18], None, None, None), Err(Error::DstMaxSizeTooSmall));
    let p = Preferences {
        frame_info: FrameInfo { block_size_id: 3, ..FrameInfo::default() },
        ..Preferences::default()
    };
    assert_eq!(c.begin(&mut dst, None, None, Some(&p)), Err(Error::MaxBlockSizeInvalid));
    c.begin(&mut dst, None, None, None).unwrap();
    assert_eq!(
        c.update(&mut dst[..10], &[1; 70_000], BlockCompressMode::Compressed),
        Err(Error::DstMaxSizeTooSmall)
    );
}

#[test]
fn errors_have_numbers_and_names() {
    assert_eq!(Error::Generic.number(), 1);
    assert_eq!(Error::IoRead.number(), 23);
    assert_eq!(Error::Generic.to_code(), usize::MAX);
    assert!(is_error(Error::IoWrite.to_code()));
    assert_eq!(error_code(Error::IoWrite.to_code()), 22);
    assert!(!is_error(1_000_000));
    assert_eq!(error_code(5), 0);
    assert_eq!(error_name(0), "OK_NoError");
    assert_eq!(error_name(17), "ERROR_headerChecksum_invalid");
    assert_eq!(error_name(99), "ERROR_maxCode");
}

#[test]
fn sizes() {
    assert_eq!(get_block_size(0), Ok(65_536));
    assert_eq!(get_block_size(7), Ok(4_194_304));
    assert_eq!(get_block_size(3), Err(Error::MaxBlockSizeInvalid));
    // A whole frame takes the smallest blocks that hold it, up to those asked for.
    for (id, n, taken) in [(7, 70_000, 0x50), (4, 70_000, 0x40), (7, 100, 0x40), (9, 100, 0x40)] {
        let mut p = prefs(0, false, 0);
        p.frame_info.block_size_id = id;
        let mut dst = vec![0; 200_000];
        assert!(compress_frame(&mut Cctx::new(), &mut dst, &vec![1; n], None, Some(&p)).is_ok());
        assert_eq!(dst[5], taken);
    }
    assert_eq!(compress_frame_bound(0, Some(&prefs(0, false, 0))), 23);
    assert_eq!(compress_bound(0, None), 65_535 + 16);
}

#[test]
fn every_call_with_input_and_room_gets_on() {
    let data = text(100_000, 5);
    let f = pack(&data, None, Some(&prefs(0, true, 100_000)));
    let mut d = Dctx::new();
    let mut at = 0;
    let mut given = 0;
    let mut dst = [0u8; 1];
    while at + 8 < f.len() && given < 3000 {
        let p = decompress(&mut d, &mut dst, &f[at..at + 1], None, false).unwrap();
        assert!(p.src_consumed + p.dst_written > 0);
        if p.dst_written == 1 {
            assert_eq!(dst[0], data[given]);
        }
        at += p.src_consumed;
        given += p.dst_written;
    }
    d.reset();
    let mut out = vec![0; 100_000];
    let p = decompress(&mut d, &mut out, &f, None, false).unwrap();
    assert_eq!(p.hint, 0);
    assert_eq!(out, data);
}

#[test]
fn a_change_of_kind_writes_what_fits() {
    let plain = noise(60_000, 2);
    let same = vec![7; 65_536];
    for mode in [0, 1] {
        let p = prefs(mode, false, 0);
        let mut c = Cctx::new();
        let mut big = vec![0; 200_000];
        let mut f = Vec::new();
        let n = c.begin(&mut big, None, None, Some(&p)).unwrap();
        f.extend_from_slice(&big[..n]);
        assert_eq!(c.update(&mut big, &plain, BlockCompressMode::Uncompressed), Ok(0));
        // The waiting bytes leave too little room for a block that is stored.
        let mut dst = vec![0; 65_544];
        let n = c.update(&mut dst, &same, BlockCompressMode::Compressed).unwrap();
        assert!(60_004 < n && n < 61_000);
        f.extend_from_slice(&dst[..n]);
        let n = c.end(&mut big).unwrap();
        f.extend_from_slice(&big[..n]);
        assert_eq!(unpack(&f, 9000, 70_000, None).unwrap(), [plain.clone(), same.clone()].concat());

        c.begin(&mut big, None, None, Some(&p)).unwrap();
        assert_eq!(c.update(&mut big, &plain, BlockCompressMode::Uncompressed), Ok(0));
        let other = noise(65_536, 9);
        assert_eq!(
            c.update(&mut dst, &other, BlockCompressMode::Compressed),
            Err(Error::DstMaxSizeTooSmall)
        );
        assert_eq!(
            c.update(&mut big, &other, BlockCompressMode::Compressed),
            Err(Error::CompressionStateUninitialized)
        );
    }
}

#[test]
fn refusals_before_writing_leave_the_output_alone() {
    let mut c = Cctx::new();
    let mut head = [0; 19];
    let mut dst = vec![3; 70_000];
    assert!(c.update(&mut dst, b"x", BlockCompressMode::Compressed).is_err());
    assert_eq!(c.flush(&mut dst), Ok(0));
    c.begin(&mut head, None, None, Some(&prefs(0, false, 0))).unwrap();
    assert!(c.update(&mut dst[..100], &[1; 70_000], BlockCompressMode::Compressed).is_err());
    assert_eq!(c.update(&mut dst, b"waiting", BlockCompressMode::Compressed), Ok(0));
    assert_eq!(c.flush(&mut dst[..14]), Err(Error::DstMaxSizeTooSmall));
    assert_eq!(
        c.update(&mut dst[..14], b"y", BlockCompressMode::Uncompressed),
        Err(Error::DstMaxSizeTooSmall)
    );
    assert!(dst.iter().all(|b| *b == 3));
    assert_eq!(c.flush(&mut dst), Ok(11));
}

#[test]
fn ending_writes_as_far_as_there_is_room() {
    for room in 0..9 {
        let mut c = Cctx::new();
        let mut head = [0; 19];
        c.begin(&mut head, None, None, Some(&prefs(0, true, 0))).unwrap();
        let mut dst = vec![9; room];
        let r = c.end(&mut dst);
        if room < 4 {
            assert_eq!(r, Err(Error::DstMaxSizeTooSmall));
            assert_eq!(dst, vec![9; room]);
        } else if room < 8 {
            assert_eq!(r, Err(Error::DstMaxSizeTooSmall));
            assert_eq!(dst[..4], [0; 4]);
        } else {
            assert_eq!(r, Ok(8));
            assert_eq!(dst[..8], [0, 0, 0, 0, 0x05, 0x5D, 0xCC, 0x02]);
        }
    }
}

#[test]
fn a_frame_of_the_wrong_size_is_written_all_the_same() {
    let mut c = Cctx::new();
    let mut head = [0; 19];
    c.begin(&mut head, None, None, Some(&prefs(0, false, 50))).unwrap();
    c.update(&mut vec![0; 70_000], b"short", BlockCompressMode::Compressed).unwrap();
    let mut dst = vec![9; 20];
    assert_eq!(c.end(&mut dst), Err(Error::FrameSizeWrong));
    assert_eq!(dst[..9], [5, 0, 0, 0x80, b's', b'h', b'o', b'r', b't']);
    assert_eq!(dst[9..13], [0; 4]);
}

#[test]
fn the_cut_of_the_input_does_not_matter() {
    let data = text(200_000, 3);
    for mode in [0, 1] {
        let p = prefs(mode, true, 0);
        let mut frames = Vec::new();
        for step in [200_000, 70_001, 999] {
            let mut c = Cctx::new();
            let mut dst = vec![0; 400_000];
            let mut f = Vec::new();
            let n = c.begin(&mut dst, None, None, Some(&p)).unwrap();
            f.extend_from_slice(&dst[..n]);
            for piece in data.chunks(step) {
                let n = c.update(&mut dst, piece, BlockCompressMode::Compressed).unwrap();
                f.extend_from_slice(&dst[..n]);
            }
            let n = c.end(&mut dst).unwrap();
            f.extend_from_slice(&dst[..n]);
            frames.push(f);
        }
        assert_eq!(frames[0], frames[1]);
        assert_eq!(frames[0], frames[2]);
    }
}

#[test]
fn a_whole_frame_asks_for_its_bound() {
    for n in [0, 1, 65_536, 65_537, 300_000] {
        for id in [0, 4, 5, 7] {
            let mut p = prefs(0, true, 0);
            p.frame_info.block_size_id = id;
            let bound = compress_frame_bound(n, Some(&p));
            let data = text(n, 1);
            let mut dst = vec![0; bound];
            assert_eq!(
                compress_frame(&mut Cctx::new(), &mut dst[..bound - 1], &data, None, Some(&p)),
                Err(Error::DstMaxSizeTooSmall)
            );
            assert!(compress_frame(&mut Cctx::new(), &mut dst, &data, None, Some(&p)).is_ok());
        }
    }
}

#[test]
fn headers_of_every_kind_read_back() {
    for id in [0, 4, 6] {
        for size in [0, 99] {
            for dict_id in [0, 5] {
                let mut p = prefs(1, false, size);
                p.frame_info.block_size_id = id;
                p.frame_info.dict_id = dict_id;
                let mut dst = vec![0; 30];
                let n = Cctx::new().begin(&mut dst, None, None, Some(&p)).unwrap();
                let extra = if size > 0 { 8 } else { 0 } + if dict_id > 0 { 4 } else { 0 };
                assert_eq!(n, 7 + extra);
                assert_eq!(header_size(&dst), Ok(n));
                let (info, taken, hint) = get_frame_info(&mut Dctx::new(), &dst).unwrap();
                p.frame_info.block_size_id = id.max(4);
                assert_eq!(info, p.frame_info);
                assert_eq!((taken, hint), (n, 4));
            }
        }
    }
}

#[test]
fn sizes_add_up_to_the_largest() {
    assert_eq!(heap_total(1, 2, 3), 6);
    assert_eq!(heap_total(usize::MAX, 2, 3), usize::MAX);
}

#[test]
fn contexts_tell_what_they_hold() {
    let mut c = Cctx::new();
    c.begin(&mut [0; 19], None, None, None).unwrap();
    assert!(c.heap_size() >= 65_536);
    assert!(c.heap_size() < 10_000_000);
    assert!(Dctx::new().heap_size() < 10_000_000);
}

/// A frame of one stored block, with checksums of the block and of the content.
fn stored_frame(data: &[u8]) -> Vec<u8> {
    let mut c = Cctx::new();
    let mut dst = vec![0; 70_000];
    let mut f = Vec::new();
    let n = c.begin(&mut dst, None, None, Some(&prefs(0, true, 0))).unwrap();
    f.extend_from_slice(&dst[..n]);
    let n = c.update(&mut dst, data, BlockCompressMode::Uncompressed).unwrap();
    f.extend_from_slice(&dst[..n]);
    let n = c.end(&mut dst).unwrap();
    f.extend_from_slice(&dst[..n]);
    f
}

#[test]
fn a_checksum_that_was_there_as_a_whole_is_not_kept() {
    let data = b"0123456789";
    let good = stored_frame(data);
    assert_eq!(good.len(), 7 + 4 + 10 + 4 + 4 + 4);
    let mut bad = good.clone();
    bad[21] ^= 1;
    let mut d = Dctx::new();
    let mut dst = [0; 20];
    assert_eq!(
        decompress(&mut d, &mut dst, &bad, None, false).err(),
        Some(Error::BlockChecksumInvalid)
    );
    assert_eq!(&dst[..10], data);
    assert_eq!(d.tmp_in_size, 0);
    // The next call reads another checksum.
    let p = decompress(&mut d, &mut dst, &good[21..], None, false).unwrap();
    assert_eq!((p.src_consumed, p.dst_written, p.hint), (12, 0, 0));
}

#[test]
fn a_checksum_that_came_in_pieces_is_kept() {
    let mut bad = stored_frame(b"0123456789");
    bad[21] ^= 1;
    let mut d = Dctx::new();
    let mut dst = [0; 20];
    assert!(decompress(&mut d, &mut dst, &bad[..23], None, false).is_ok());
    for _ in 0..3 {
        assert_eq!(
            decompress(&mut d, &mut dst, &bad[23..25], None, false).err(),
            Some(Error::BlockChecksumInvalid)
        );
        assert_eq!(d.tmp_in_size, 4);
    }
    let p = decompress(&mut d, &mut dst, &bad[25..], None, true).unwrap();
    assert_eq!((p.src_consumed, p.hint), (8, 0));
}

#[test]
fn refused_headers_are_refused_again() {
    let mut d = Dctx::new();
    let header = [4, 0x22, 0x4D, 0x18, 0x40, 0x30, 0];
    for _ in 0..3 {
        assert_eq!(
            decompress(&mut d, &mut [], &header, None, false).err(),
            Some(Error::MaxBlockSizeInvalid)
        );
    }
    d.reset();
    let f = stored_frame(b"abc");
    assert_eq!(decompress(&mut d, &mut [0; 3], &f, None, false).unwrap().hint, 0);
}

#[test]
fn a_second_flush_has_nothing_to_do() {
    let mut c = Cctx::new();
    let mut dst = vec![3; 70_000];
    c.begin(&mut [0; 19], None, None, Some(&prefs(0, false, 0))).unwrap();
    c.update(&mut vec![0; 70_000], b"waiting", BlockCompressMode::Compressed).unwrap();
    assert_eq!(c.flush(&mut dst), Ok(11));
    let before = dst.clone();
    assert_eq!(c.flush(&mut dst), Ok(0));
    assert_eq!(c.flush(&mut []), Ok(0));
    assert_eq!(dst, before);
}

#[test]
fn an_ended_frame_takes_no_more_input() {
    for size in [0, 5, 6] {
        let mut c = Cctx::new();
        let mut dst = vec![0; 70_000];
        c.begin(&mut dst, None, None, Some(&prefs(0, true, size))).unwrap();
        c.update(&mut dst, b"he", BlockCompressMode::Uncompressed).unwrap();
        c.update(&mut dst, b"llo", BlockCompressMode::Compressed).unwrap();
        let r = c.end(&mut dst);
        assert_eq!(r.is_err(), size == 6);
        assert!(size != 6 || r == Err(Error::FrameSizeWrong));
        assert_eq!(
            c.update(&mut dst, b"x", BlockCompressMode::Compressed),
            Err(Error::CompressionStateUninitialized)
        );
    }
}

#[test]
fn refused_beginnings_leave_a_frame_as_it_is() {
    let mut c = Cctx::new();
    let mut dst = vec![0; 70_000];
    c.begin(&mut dst, None, None, Some(&prefs(0, false, 0))).unwrap();
    c.update(&mut dst, b"waiting", BlockCompressMode::Compressed).unwrap();
    let mut p = prefs(1, true, 0);
    p.frame_info.block_size_id = 3;
    assert_eq!(
        compress_frame(&mut c, &mut dst, b"other", None, Some(&p)),
        Err(Error::MaxBlockSizeInvalid)
    );
    assert_eq!(
        compress_frame(&mut c, &mut dst[..5], b"other", None, None),
        Err(Error::DstMaxSizeTooSmall)
    );
    assert_eq!(c.prefs, Preferences { frame_info: FrameInfo { block_size_id: 4, ..c.prefs.frame_info }, ..prefs(0, false, 0) });
    assert_eq!((c.stage, c.tmp_in_size, c.total_in_size), (1, 7, 7));
    assert_eq!(c.begin(&mut dst, None, None, Some(&p)), Err(Error::MaxBlockSizeInvalid));
    assert_eq!(c.prefs, p);
    assert_eq!((c.stage, c.tmp_in_size, c.total_in_size), (1, 7, 7));
    assert_eq!(c.tmp[..7], *b"waiting");
}

#[test]
fn a_default_context_is_a_new_one() {
    let (a, b) = (Cctx::default(), Cctx::new());
    assert_eq!((a.version, a.stage, a.prefs), (b.version, b.stage, b.prefs));
    assert_eq!((a.tmp_in_size, a.total_in_size, a.max_block_size), (0, 0, 0));
    assert!(a.dict.is_empty() && a.frame_dict.is_empty());
}
