//! Which sources fill an output of a given size: only those that start with a
//! block.
use vstd::prelude::*;
use crate::format::accepted::{grounded, spelled, spells, unrolled, unrolled_by};
use crate::format::{enc_seq, enc_seqs, len_ext, token, Sq, MINMATCH};
use super::unbounded::{extension, fill_from, full_length, match_from, source_bytes, Filled};

verus! {

/// A length extension that was read is the one that is written.
proof fn lemma_extension_spelled(src: spec_fn(int) -> u8, ip: int, acc: int)
    requires
        0 <= ip,
    ensures
        extension(src, ip, acc) matches (Some(v), e) ==> {
            &&& ip < e <= usize::MAX
            &&& v >= acc
            &&& source_bytes(src, ip, e - ip) == len_ext(15 + v - acc)
        },
    decreases usize::MAX - ip,
{
    if ip < usize::MAX {
        if src(ip) == 255 {
            lemma_extension_spelled(src, ip + 1, acc + 255);
            if let (Some(v), e) = extension(src, ip, acc) {
                assert(source_bytes(src, ip, e - ip) =~= seq![255u8] + source_bytes(
                    src,
                    ip + 1,
                    e - ip - 1,
                ));
                assert(len_ext(15 + v - acc) =~= seq![255u8] + len_ext(15 + v - acc - 255));
            }
        } else {
            assert(source_bytes(src, ip, 1) =~= len_ext(15 + src(ip) as int));
        }
    }
}

/// A length that was read is the one that is written.
proof fn lemma_length_spelled(src: spec_fn(int) -> u8, code: int, ip: int)
    requires
        0 <= ip <= usize::MAX,
        0 <= code <= 15,
    ensures
        full_length(src, code, ip) matches (Some(v), e) ==> {
            &&& ip <= e <= usize::MAX
            &&& v >= code
            &&& v < 15 ==> v == code
            &&& v >= 15 ==> code == 15
            &&& source_bytes(src, ip, e - ip) == len_ext(v)
        },
{
    if code == 15 {
        lemma_extension_spelled(src, ip, 15);
    } else {
        assert(source_bytes(src, ip, 0) =~= len_ext(code));
    }
}

/// A sequence that was read is the one that is written.
#[verifier::rlimit(40)]
proof fn lemma_sequence_spelled(src: spec_fn(int) -> u8, hist: Seq<u8>, cap: int, ip: int, at: int, ll: int, out: Seq<u8>) -> (s: Sq)
    requires
        0 <= ip < at,
        0 <= ll,
        at + ll <= usize::MAX,
        (if ll < 15 {
            ll
        } else {
            15
        }) == src(ip) as int / 16,
        source_bytes(src, ip + 1, at - ip - 1) == len_ext(ll),
    ensures
        ({
            let lits = source_bytes(src, at, ll);
            match_from(src, hist, cap, src(ip) as int % 16, at + ll, out + lits) matches Ok((ip2, out2))
                ==> {
                &&& ip < ip2 <= usize::MAX
                &&& s.lits == lits
                &&& 0 <= s.off <= 65535
                &&& s.off <= hist.len() + out.len() + lits.len()
                &&& s.mlen >= MINMATCH
                &&& source_bytes(src, ip, ip2 - ip) == enc_seq(s)
                &&& out2 == unrolled_by(hist, out, s)
            }
        }),
{
    let code = src(ip) as int % 16;
    let lits = source_bytes(src, at, ll);
    if at + ll + 2 <= usize::MAX {
        lemma_length_spelled(src, code, at + ll + 2);
        let off = src(at + ll) + 256 * src(at + ll + 1);
        match full_length(src, code, at + ll + 2) {
            (Some(n), e) => {
                let s = Sq { lits, off, mlen: n + MINMATCH };
                assert(token(ll, n) == src(ip));
                let two = seq![(off % 256) as u8, (off / 256) as u8];
                assert(source_bytes(src, at + ll, 2) =~= two);
                assert(source_bytes(src, ip, e - ip) =~= seq![src(ip)] + source_bytes(
                    src,
                    ip + 1,
                    at - ip - 1,
                ) + lits + source_bytes(src, at + ll, 2) + source_bytes(
                    src,
                    at + ll + 2,
                    e - (at + ll + 2),
                ));
                s
            },
            _ => arbitrary(),
        }
    } else {
        arbitrary()
    }
}

proof fn lemma_fill_spells(src: spec_fn(int) -> u8, hist: Seq<u8>, cap: int, ip: int, out: Seq<u8>, seqs: Seq<Sq>)
    requires
        0 <= ip <= usize::MAX,
        source_bytes(src, 0, ip) == enc_seqs(seqs),
        out == unrolled(hist, seqs),
        grounded(hist, seqs),
    ensures
        fill_from(src, hist, cap, ip, out) matches Filled::Done { out: r, consumed } ==> {
            &&& r.len() == cap
            &&& spells(hist, source_bytes(src, 0, consumed), r)
        },
    decreases usize::MAX - ip,
{
    if ip < usize::MAX {
        lemma_length_spelled(src, src(ip) as int / 16, ip + 1);
        if let (Some(n), at) = full_length(src, src(ip) as int / 16, ip + 1) {
            if !(cap - out.len() < n || at + n > usize::MAX) {
                let lits = source_bytes(src, at, n);
                let code = src(ip) as int % 16;
                if cap - (out + lits).len() < 12 {
                    assert(token(n, code) == src(ip));
                    assert(source_bytes(src, 0, at + n) =~= source_bytes(src, 0, ip) + (seq![src(
                        ip,
                    )] + source_bytes(src, ip + 1, at - ip - 1) + lits));
                    assert(source_bytes(src, 0, at + n) == enc_seqs(seqs) + spelled(lits, code));
                } else {
                    let s = lemma_sequence_spelled(src, hist, cap, ip, at, n, out);
                    if let Ok((ip2, out2)) = match_from(src, hist, cap, code, at + n, out + lits) {
                        let more = seqs.push(s);
                        assert(more.drop_last() =~= seqs);
                        assert(source_bytes(src, 0, ip2) =~= source_bytes(src, 0, ip)
                            + source_bytes(src, ip, ip2 - ip));
                        lemma_fill_spells(src, hist, cap, ip2, out2, more);
                    }
                }
            }
        }
    }
}

/// Only a source that starts with a block fills an output: what was read of it
/// is written as sequences and literals, every byte accounted for, and the
/// output is what these are read as.
pub proof fn law_fill_only_blocks(src: spec_fn(int) -> u8, hist: Seq<u8>, cap: int)
    ensures
        fill_from(src, hist, cap, 0, Seq::empty()) matches Filled::Done { out, consumed } ==> {
            &&& out.len() == cap
            &&& spells(hist, source_bytes(src, 0, consumed), out)
        },
{
    let none = Seq::<Sq>::empty();
    assert(source_bytes(src, 0, 0) =~= enc_seqs(none));
    lemma_fill_spells(src, hist, cap, 0, Seq::empty(), none);
}

} // verus!
