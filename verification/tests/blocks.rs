//! Blocks of the fast compressor, and their decoders.
use lz4_rs::block::{
    compress_abi_continue, compress_abi_ext_state, compress_bound, compress_continue,
    compress_dest_size, compress_fast, decompress_dict, decompress_fast_with, decompress_generic,
    AbiStreamState, Error, Input, StreamState, ABI_STREAM_PADDING_WORDS, U32_ENTRIES,
};

/// Words from a small vocabulary, so that there is much to match.
fn text(n: usize, seed: u32) -> Vec<u8> {
    let words: [&[u8]; 8] = [b"alpha ", b"beta ", b"gamma ", b"delta ", b"the ", b"quick", b"\n", b"xy"];
    let mut x = seed.wrapping_mul(2).wrapping_add(1);
    let mut v = Vec::new();
    while v.len() < n {
        x = x.wrapping_mul(1664525).wrapping_add(1013904223);
        v.extend_from_slice(words[(x >> 29) as usize]);
    }
    v.truncate(n);
    v
}

/// Bytes without pattern.
fn noise(n: usize, seed: u32) -> Vec<u8> {
    let mut x = seed.wrapping_mul(2).wrapping_add(1);
    (0..n)
        .map(|_| {
            x = x.wrapping_mul(1664525).wrapping_add(1013904223);
            (x >> 24) as u8
        })
        .collect()
}

fn abi_state() -> AbiStreamState {
    AbiStreamState {
        hash_table: [0; U32_ENTRIES],
        dictionary: 0,
        dict_ctx: 0,
        current_offset: 0,
        table_type: 0,
        dict_size: 0,
        padding: [0; ABI_STREAM_PADDING_WORDS],
    }
}

fn pack(data: &[u8], acceleration: i32) -> Vec<u8> {
    let cap = compress_bound(data.len() as i32) as usize;
    let mut buf = vec![0; cap];
    let n = compress_fast(&mut buf, 0..cap, &Input::Separate(data), acceleration).unwrap();
    buf.truncate(n);
    buf
}

fn unpack(block: &[u8], cap: usize) -> Result<Vec<u8>, Error> {
    let mut buf = vec![0; cap];
    let n = decompress_generic(&mut buf, 0..cap, &Input::Separate(block), false, 0)?;
    buf.truncate(n);
    Ok(buf)
}

#[test]
fn bound_is_exact() {
    assert_eq!(compress_bound(0), 16);
    assert_eq!(compress_bound(1), 17);
    assert_eq!(compress_bound(255), 272);
    assert_eq!(compress_bound(1_000_000), 1_003_937);
    assert_eq!(compress_bound(0x7E00_0000), 0x7E00_0000 + 0x7E00_0000 / 255 + 16);
    assert_eq!(compress_bound(0x7E00_0001), 0);
    assert_eq!(compress_bound(-1), 0);
}

#[test]
fn known_blocks() {
    assert_eq!(pack(b"", 1), [0]);
    assert_eq!(pack(b"abc", 1), [0x30, b'a', b'b', b'c']);
    assert_eq!(
        pack(&[b'a'; 20], 1),
        [0x1A, b'a', 1, 0, 0x50, b'a', b'a', b'a', b'a', b'a']
    );
    assert_eq!(unpack(&[0x1A, b'a', 1, 0, 0x50, b'a', b'a', b'a', b'a', b'a'], 20).unwrap(), [b'a'; 20]);
}

#[test]
fn round_trips_of_many_sizes() {
    for n in (0..200).chain([1000, 65_535, 65_547, 70_000, 300_000]) {
        for data in [text(n, n as u32), noise(n, n as u32), vec![7; n]] {
            for acceleration in [-5, 1, 9, 1_000_000] {
                if n > 1000 && acceleration > 9 {
                    continue;
                }
                let block = pack(&data, acceleration);
                assert_eq!(unpack(&block, n).unwrap(), data);
            }
        }
    }
}

#[test]
fn output_too_small_by_one_is_refused() {
    let data = text(5000, 1);
    let block = pack(&data, 1);
    let mut buf = vec![0; 10_000];
    for cap in [1, 10, block.len() / 2] {
        let r = compress_fast(&mut buf, 0..cap, &Input::Separate(&data), 1);
        assert_eq!(r, Err(Error::OutputTooSmall));
    }
    assert!(unpack(&block, data.len() - 1).is_err());
}

#[test]
fn bytes_outside_the_output_stay() {
    let data = text(300, 9);
    let mut buf = vec![0xEE; 1000];
    let n = compress_fast(&mut buf, 100..900, &Input::Separate(&data), 1).unwrap();
    assert!(buf[..100].iter().all(|b| *b == 0xEE));
    assert!(buf[900..].iter().all(|b| *b == 0xEE));
    assert_eq!(unpack(&buf[100..100 + n], 300).unwrap(), data);
}

#[test]
fn input_within_the_output_buffer() {
    let data = text(2000, 4);
    let mut buf = vec![0; 6000];
    buf[4000..].copy_from_slice(&data);
    let n = compress_fast(&mut buf, 0..3000, &Input::Within(4000..6000), 1).unwrap();
    let block = buf[..n].to_vec();
    let mut out = vec![0; 6000];
    out[4000..4000 + n].copy_from_slice(&block);
    let m = decompress_generic(&mut out, 0..2000, &Input::Within(4000..4000 + n), false, 0).unwrap();
    assert_eq!(m, 2000);
    assert_eq!(&out[..2000], &data[..]);
}

#[test]
fn malformed_blocks_are_refused() {
    assert!(matches!(unpack(&[], 10), Err(Error::Malformed { .. })));
    // An offset that reaches before the output.
    assert!(unpack(&[0x10, 1, 9, 0, 0x50, 1, 2, 3, 4, 5], 100).is_err());
    // Literals that are cut off.
    assert!(unpack(&[0x50, 1, 2], 100).is_err());
    let block = pack(&text(400, 3), 1);
    for cut in 0..block.len() {
        assert!(unpack(&block[..cut], 400).map(|v| v.len()) != Ok(400));
    }
}

#[test]
fn an_offset_of_zero_repeats_nothing() {
    assert_eq!(
        unpack(&[0x10, 1, 0, 0, 0x50, 1, 2, 3, 4, 5], 100).unwrap(),
        [1, 0, 0, 0, 0, 1, 2, 3, 4, 5]
    );
}

#[test]
fn partial_decoding_gives_a_prefix() {
    let data = text(3000, 8);
    let block = pack(&data, 1);
    for want in [0, 1, 7, 100, 1500, 2999, 3000] {
        let mut buf = vec![0; want];
        let n = decompress_generic(&mut buf, 0..want, &Input::Separate(&block), true, want).unwrap();
        assert_eq!(n, want);
        assert_eq!(buf, &data[..want]);
    }
}

#[test]
fn filling_a_destination() {
    let data = text(5000, 2);
    for room in [1, 5, 17, 100, 700, 3000, 6000] {
        let mut buf = vec![0; room];
        let (n, k) = compress_dest_size(&mut buf, 0..room, &Input::Separate(&data), 1).unwrap();
        assert!(n <= room && k <= data.len());
        assert_eq!(unpack(&buf[..n], k).unwrap(), &data[..k]);
        if room == 6000 {
            assert_eq!(k, data.len());
        }
    }
    assert_eq!(
        compress_dest_size(&mut [], 0..0, &Input::Separate(&data), 1),
        Err(Error::OutputTooSmall)
    );
}

#[test]
fn blocks_of_a_stream_refer_to_earlier_ones() {
    let data = text(40_000, 6);
    let mut state = StreamState::new();
    let mut out = vec![0; data.len()];
    let mut at = 0;
    let mut total = 0;
    while at < data.len() {
        let end = (at + 3000).min(data.len());
        let mut buf = vec![0; 4000];
        let n = compress_continue(
            &mut buf,
            0..4000,
            &Input::Separate(&data[at..end]),
            &mut state,
            &data[..at],
            true,
            None,
            1,
        )
        .unwrap();
        total += n;
        let m = decompress_dict(&mut out, at..end, &Input::Separate(&buf[..n]), false, 0, &[], at).unwrap();
        assert_eq!(m, end - at);
        at = end;
    }
    assert_eq!(out, data);
    let mut alone = 0;
    for piece in data.chunks(3000) {
        alone += pack(piece, 1).len();
    }
    assert!(total < alone);
}

#[test]
fn a_loaded_dictionary_helps() {
    let dict = noise(5000, 5);
    let data = dict[1000..2000].to_vec();
    for slow in [false, true] {
        let mut state = StreamState::new();
        assert_eq!(state.load_dict(&dict, slow), 5000);
        let mut buf = vec![0; 1100];
        let n = compress_continue(
            &mut buf,
            0..1100,
            &Input::Separate(&data),
            &mut state,
            &dict,
            false,
            None,
            1,
        )
        .unwrap();
        assert!(n < 100);
        let mut out = vec![0; 1000];
        let m = decompress_dict(&mut out, 0..1000, &Input::Separate(&buf[..n]), false, 0, &dict, 0).unwrap();
        assert_eq!(m, 1000);
        assert_eq!(out, data);
    }
}

#[test]
fn caller_owned_states_compress_as_well() {
    let data = text(9000, 12);
    let mut state = abi_state();
    let mut buf = vec![0; 10_000];
    let n = compress_abi_ext_state(&mut buf, 0..10_000, &Input::Separate(&data), &mut state, 1, false).unwrap();
    assert_eq!(&buf[..n], &pack(&data, 1)[..]);
    assert_eq!(state.table_type, 3);
    assert_eq!(state.current_offset, 9000);

    let mut state = abi_state();
    assert_eq!(state.load_dict(&data[..4000], false), 4000);
    let n = compress_abi_continue(
        &mut buf,
        0..10_000,
        &Input::Separate(&data[4000..]),
        &mut state,
        &data[..4000],
        true,
        None,
        1,
    )
    .unwrap();
    let mut out = data[..4000].to_vec();
    out.resize(9000, 0);
    let m = decompress_dict(&mut out, 4000..9000, &Input::Separate(&buf[..n]), false, 0, &[], 4000).unwrap();
    assert_eq!(m, 5000);
    assert_eq!(out, data);
}

#[test]
fn short_table_entries_lie_in_the_byte_order_of_the_host() {
    let data = noise(100, 77);
    let mut state = abi_state();
    let mut buf = vec![0; 200];
    compress_abi_ext_state(&mut buf, 0..200, &Input::Separate(&data), &mut state, 1, false).unwrap();
    let mut entries = Vec::new();
    for word in state.hash_table {
        let b = word.to_ne_bytes();
        entries.push(u16::from_ne_bytes([b[0], b[1]]));
        entries.push(u16::from_ne_bytes([b[2], b[3]]));
    }
    for at in [1usize, 2, 3] {
        let w = u32::from_ne_bytes([data[at], data[at + 1], data[at + 2], data[at + 3]]);
        let h = w.wrapping_mul(2654435761) >> 19;
        assert_eq!(entries[h as usize] as usize, at);
    }
}

#[test]
fn decoding_without_the_length_of_the_source() {
    let data = text(1200, 31);
    let block = pack(&data, 1);
    let mut out = vec![0; data.len()];
    let n = decompress_fast_with(|i| block[i], &mut out, &[], &[]).unwrap();
    assert_eq!(n, block.len());
    assert_eq!(out, data);
    let mut out = vec![0; 100];
    let bad = [0x10u8, 1, 0, 0, 0x50, 1, 2, 3, 4, 5];
    assert!(decompress_fast_with(|i| *bad.get(i).unwrap_or(&0), &mut out, &[], &[]).is_err());
}

#[test]
fn history_for_decoding_without_the_length_of_the_source() {
    let dict = text(900, 15);
    let data = dict[100..700].to_vec();
    let mut state = StreamState::new();
    state.load_dict(&dict, false);
    let mut buf = vec![0; 1000];
    let n = compress_continue(&mut buf, 0..1000, &Input::Separate(&data), &mut state, &dict, false, None, 1).unwrap();
    let mut out = vec![0; 600];
    buf.truncate(n);
    let m = decompress_fast_with(|i| buf[i], &mut out, &dict[..400], &dict[400..]).unwrap();
    assert_eq!(m, n);
    assert_eq!(out, data);
}

#[test]
fn more_history_in_front_changes_nothing() {
    let dict = noise(600, 2);
    let data = dict[50..450].to_vec();
    let mut state = StreamState::new();
    state.load_dict(&dict, true);
    let mut buf = vec![0; 600];
    let n = compress_continue(&mut buf, 0..600, &Input::Separate(&data), &mut state, &dict, false, None, 1).unwrap();
    let mut longer = noise(1000, 3);
    longer.extend_from_slice(&dict);
    for history in [&dict, &longer] {
        let mut out = vec![0; 400];
        let m = decompress_dict(&mut out, 0..400, &Input::Separate(&buf[..n]), false, 0, history, 0).unwrap();
        assert_eq!(m, 400);
        assert_eq!(out, data);
    }
}

#[test]
fn compressing_in_place() {
    for data in [text(66_560, 3), noise(66_560, 4), vec![1; 200_000], noise(200_000, 5)] {
        let n = data.len();
        let most = compress_bound(n as i32) as usize;
        let len = most + 65_535 + 32;
        let mut buf = vec![0; len];
        buf[len - n..].copy_from_slice(&data);
        let k = compress_fast(&mut buf, 0..most, &Input::Within(len - n..len), 1).unwrap();
        assert_eq!(&buf[..k], &pack(&data, 1)[..]);
    }
}

#[test]
fn decompressing_in_place() {
    for data in [text(70_000, 6), noise(70_000, 7), vec![2; 70_000], text(40, 8), noise(3, 9)] {
        let n = data.len();
        let block = pack(&data, 1);
        let k = block.len();
        let len = n + k / 256 + 32;
        let mut buf = vec![0; len];
        buf[len - k..].copy_from_slice(&block);
        let m = decompress_generic(&mut buf, 0..n, &Input::Within(len - k..len), false, 0).unwrap();
        assert_eq!(m, n);
        assert_eq!(&buf[..n], &data[..]);
    }
}

#[test]
fn no_output_is_touched_without_input_or_room() {
    let mut buf = vec![7; 20];
    assert!(decompress_generic(&mut buf, 5..15, &Input::Separate(&[]), false, 0).is_err());
    assert_eq!(buf, [7; 20]);
    assert_eq!(decompress_generic(&mut buf, 5..5, &Input::Separate(&[0]), false, 0), Ok(0));
    assert_eq!(decompress_generic(&mut buf, 5..15, &Input::Separate(&[0x10, 1]), true, 0), Ok(0));
    assert_eq!(buf, [7; 20]);
}

#[test]
fn partial_decoding_stops_at_every_length() {
    let mut data = text(300, 8);
    data.extend_from_slice(&[5; 100]);
    data.extend_from_slice(&noise(40, 3));
    let block = pack(&data, 1);
    for target in 0..=450 {
        let mut buf = vec![0; 460];
        let n = decompress_generic(&mut buf, 0..460, &Input::Separate(&block), true, target).unwrap();
        assert_eq!(n, target.min(data.len()));
        assert_eq!(buf[..n], data[..n]);
    }
}

#[test]
fn entries_of_a_loaded_dictionary() {
    let dict = noise(1000, 6);
    let mut quick = abi_state();
    let mut slow = abi_state();
    assert_eq!(quick.load_dict(&dict, false), 1000);
    assert_eq!(slow.load_dict(&dict, true), 1000);
    let first = 65_536 - 1000;
    for (a, b) in quick.hash_table.iter().zip(slow.hash_table.iter()) {
        assert!(*a == 0 || (first <= *a && *a <= 65_536 - 8));
        assert!(*b == 0 || (first <= *b && *b <= 65_536 - 8));
        assert!(*a == 0 || a == b);
    }
    assert!(quick.hash_table.iter().filter(|x| **x != 0).count() > 200);
    assert!(slow.hash_table.iter().filter(|x| **x != 0).count() > 600);
}

#[test]
fn what_precedes_a_match_without_distance_is_kept() {
    let block = [0x40, b'a', b'b', b'c', b'd', 0, 0, 0x50, 1, 2, 3, 4, 5];
    let mut buf = vec![9; 12];
    let n = decompress_generic(&mut buf, 0..12, &Input::Separate(&block), true, 10).unwrap();
    assert_eq!(n, 10);
    assert_eq!(buf[..4], *b"abcd");
    assert_eq!(buf[10..], [9, 9]);
}

#[test]
fn a_full_reset_clears_the_padding() {
    let data = text(200, 4);
    for fast in [false, true] {
        let mut state = abi_state();
        state.padding = [7; ABI_STREAM_PADDING_WORDS];
        let mut buf = vec![0; 400];
        let n = compress_abi_ext_state(&mut buf, 0..400, &Input::Separate(&data), &mut state, 1, fast);
        assert_eq!(unpack(&buf[..n.unwrap()], 200).unwrap(), data);
        assert!(state.padding.iter().all(|w| *w == if fast { 7 } else { 0 }));
    }
}
