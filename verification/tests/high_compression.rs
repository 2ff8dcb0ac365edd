//! Blocks of the high-compression compressor.
use lz4_rs::block::{decompress_dict, decompress_generic, Input};
use lz4_rs::hc::{
    clamp_level, compress_bound, compress_generic_internal, compress_mid, fill_chain_table, mid_fill_htable,
    mid_hash4, mid_hash7, read_u32_le, read_u64_le, HcState, Limit, MidDictCtx, SrcView,
    LZ4MID_HASHTABLESIZE,
};

fn text(n: usize, seed: u32) -> Vec<u8> {
    let words: [&[u8]; 8] = [b"alpha ", b"beta ", b"gamma ", b"delta ", b"the ", b"quick", b"\n", b"xy"];
    let mut x = seed.wrapping_mul(2).wrapping_add(1);
    let mut v = Vec::new();
    while v.len() < n {
        x = x.wrapping_mul(1664525).wrapping_add(1013904223);
        v.extend_from_slice(words[(x >> 29) as usize]);
    }
    v.truncate(n);
    v
}

fn noise(n: usize, seed: u32) -> Vec<u8> {
    let mut x = seed.wrapping_mul(2).wrapping_add(1);
    (0..n)
        .map(|_| {
            x = x.wrapping_mul(1664525).wrapping_add(1013904223);
            (x >> 24) as u8
        })
        .collect()
}

fn fresh(level: i32) -> HcState {
    let mut s = HcState {
        hash_table: Vec::new(),
        chain_table: Vec::new(),
        end: 0,
        prefix_start: 0,
        dict_start: 0,
        dict_limit: 0,
        low_limit: 0,
        next_to_update: 0,
        compression_level: 0,
        favor_dec_speed: 0,
        dirty: 0,
        dict_ctx: 0,
    };
    s.reset_stream(level);
    s.init_internal(0);
    s
}

fn pack(data: &[u8], level: i32, limit: Limit, room: usize, state: &mut HcState) -> (Vec<u8>, usize) {
    let v = SrcView {
        base: data,
        src_off: 0,
        prefix_idx: state.dict_limit,
        dict: &[],
        dict_idx: state.low_limit,
    };
    let mut dst = vec![0; room];
    let (n, k) = compress_generic_internal(state, &v, &mut dst, level, limit, None);
    dst.truncate(n);
    (dst, k)
}

fn unpack(block: &[u8], n: usize) -> Vec<u8> {
    let mut out = vec![0; n];
    let m = decompress_generic(&mut out, 0..n, &Input::Separate(block), false, 0).unwrap();
    out.truncate(m);
    out
}

#[test]
fn every_level_round_trips() {
    for level in -1..=13 {
        for n in [0, 1, 12, 13, 14, 20, 64, 300, 5000, 30_000] {
            for data in [text(n, n as u32), noise(n, n as u32), vec![9; n], b"abcab".repeat(n / 5 + 1)] {
                let room = compress_bound(data.len() as i32) as usize;
                let mut s = fresh(level);
                let (block, k) = pack(&data, level, Limit::NotLimited, room, &mut s);
                assert_eq!(k, data.len());
                assert_eq!(unpack(&block, data.len()), data);
                assert_eq!(s.dirty, 0);
            }
        }
    }
}

#[test]
fn a_known_block() {
    for level in 1..=12 {
        let mut s = fresh(level);
        let (block, k) = pack(&[b'a'; 20], level, Limit::LimitedOutput, 40, &mut s);
        assert_eq!(k, 20);
        assert_eq!(unpack(&block, 20), [b'a'; 20]);
        if level >= 3 {
            assert_eq!(block, [0x1A, b'a', 1, 0, 0x50, b'a', b'a', b'a', b'a', b'a']);
        }
    }
}

#[test]
fn an_empty_block_is_one_zero() {
    let mut s = fresh(9);
    assert_eq!(pack(&[], 9, Limit::LimitedOutput, 1, &mut s), (vec![0], 0));
    assert_eq!(pack(&[1], 9, Limit::LimitedOutput, 0, &mut s), (vec![], 0));
    assert_eq!(s.dirty, 0);
}

#[test]
fn too_little_room_marks_the_state() {
    let data = noise(2000, 3);
    for level in [1, 4, 9, 10, 12] {
        let mut s = fresh(level);
        let (block, k) = pack(&data, level, Limit::LimitedOutput, 500, &mut s);
        assert!(block.is_empty());
        assert_eq!(k, 0);
        assert_eq!(s.dirty, 1);
        s.reset_stream_fast(level);
        assert_eq!(s.dirty, 0);
    }
}

#[test]
fn filling_the_room_gives_a_prefix() {
    let data = text(20_000, 44);
    for level in [1, 2, 3, 9, 10, 11, 12] {
        for room in [1, 6, 20, 21, 22, 23, 100, 555, 3000, 25_000] {
            let mut s = fresh(level);
            let (block, k) = pack(&data, level, Limit::FillOutput, room, &mut s);
            assert!(block.len() <= room && k <= data.len());
            if !block.is_empty() {
                assert_eq!(unpack(&block, k), &data[..k]);
            }
            if room == 25_000 {
                assert_eq!(k, data.len());
            }
        }
    }
}

#[test]
fn higher_levels_pack_text_tighter() {
    let data = text(50_000, 21);
    let room = compress_bound(data.len() as i32) as usize;
    let sizes: Vec<usize> = [1, 4, 9, 12]
        .iter()
        .map(|l| pack(&data, *l, Limit::NotLimited, room, &mut fresh(*l)).0.len())
        .collect();
    assert!(sizes[3] <= sizes[2] && sizes[2] <= sizes[1]);
}

#[test]
fn history_and_dictionary_are_used() {
    let all = text(9000, 5);
    for level in [1, 2, 5, 9, 11, 12] {
        // The dictionary holds the first bytes, the history the next ones.
        let mut s = fresh(level);
        s.dict_limit = s.low_limit + 3000;
        s.next_to_update = s.dict_limit;
        let v = SrcView {
            base: &all[3000..],
            src_off: 3000,
            prefix_idx: s.dict_limit,
            dict: &all[..3000],
            dict_idx: s.low_limit,
        };
        let mut dst = vec![0; 4000];
        let (n, k) = compress_generic_internal(&mut s, &v, &mut dst, level, Limit::LimitedOutput, None);
        assert_eq!(k, 3000);
        let mut out = all[3000..6000].to_vec();
        out.resize(6000, 0);
        let m = decompress_dict(&mut out, 3000..6000, &Input::Separate(&dst[..n]), false, 0, &all[..3000], 3000)
            .unwrap();
        assert_eq!(m, 3000);
        assert_eq!(out, &all[3000..]);
    }
}

#[test]
fn an_attached_dictionary_is_used() {
    let dict = text(8000, 90);
    let mut data = dict[2000..5000].to_vec();
    data.extend_from_slice(&text(500, 91));
    for level in [1, 2, 3, 6, 9, 10, 12] {
        let mut d = fresh(level);
        if level < 3 {
            let (four, eight) = d.hash_table.split_at_mut(LZ4MID_HASHTABLESIZE);
            let mut next = d.next_to_update;
            mid_fill_htable(four, eight, &dict, d.dict_limit, &mut next);
            d.next_to_update = next;
        } else {
            fill_chain_table(&mut d, &dict, dict.len() - 3);
        }
        let ctx = MidDictCtx {
            hash_table: &d.hash_table,
            chain_table: &d.chain_table,
            end: 8000,
            prefix_start: 0,
            dict_start: 0,
            dict_limit: d.dict_limit,
            low_limit: d.low_limit,
            next_to_update: d.next_to_update,
            compression_level: level as i16,
            favor_dec_speed: 0,
            dirty: 0,
            dict_ctx: 0,
            prefix: &dict,
        };
        assert_eq!(ctx.l_dict_end_index(), d.dict_limit + 8000);
        let mut s = fresh(level);
        let v = SrcView {
            base: &data,
            src_off: 0,
            prefix_idx: s.dict_limit,
            dict: &[],
            dict_idx: s.low_limit,
        };
        let mut dst = vec![0; 5000];
        let (n, k) = compress_generic_internal(&mut s, &v, &mut dst, level, Limit::LimitedOutput, Some(&ctx));
        assert_eq!(k, data.len());
        assert!(n < 1000);
        let mut out = vec![0; data.len()];
        let m = decompress_dict(&mut out, 0..k, &Input::Separate(&dst[..n]), false, 0, &dict, 0).unwrap();
        assert_eq!(m, k);
        assert_eq!(out, data);
    }
}

#[test]
fn the_lower_levels_work_on_two_tables() {
    let data = text(4000, 8);
    let mut four = vec![0u32; LZ4MID_HASHTABLESIZE];
    let mut eight = vec![0u32; LZ4MID_HASHTABLESIZE];
    let v = SrcView { base: &data, src_off: 0, prefix_idx: 65_536, dict: &[], dict_idx: 65_536 };
    let mut dst = vec![0; 4100];
    let (n, k) = compress_mid(&mut four, &mut eight, &v, &mut dst, Limit::LimitedOutput, None);
    assert_eq!(k, 4000);
    assert_eq!(unpack(&dst[..n], 4000), data);
    assert!(four.iter().any(|e| *e >= 65_536));
}

#[test]
fn favouring_decompression_still_round_trips() {
    let data = text(12_000, 17);
    let mut s = fresh(12);
    s.set_favor_dec_speed(true);
    let room = compress_bound(12_000) as usize;
    let (block, k) = pack(&data, 12, Limit::NotLimited, room, &mut s);
    assert_eq!(k, data.len());
    assert_eq!(unpack(&block, k), data);
}

#[test]
fn clamping_a_level_twice_changes_nothing() {
    for level in -20..40 {
        let once = clamp_level(level);
        assert!((1..=12).contains(&once));
        assert_eq!(clamp_level(once), once);
    }
}

#[test]
fn small_functions() {
    assert_eq!(read_u32_le(&[0, 1, 2, 3, 4], 1), 0x0403_0201);
    assert_eq!(read_u64_le(&[1, 2, 3, 4, 5, 6, 7, 8], 0), 0x0807_0605_0403_0201);
    assert_eq!(mid_hash4(1), (2654435761u32 >> 18) as usize);
    assert_eq!(mid_hash7(1), ((58295818150454627u64 << 8) >> 50) as usize);
    assert_eq!(compress_bound(-4), 0);
}
