//! Decompression driven by the size of the output: the length of the source is
//! not known beforehand, and bytes are asked for one at a time.
use vstd::prelude::*;
use crate::bytes::fill;
use crate::format::{
    content, enc_block, enc_last, enc_seq, enc_seqs, encodes, end_ok, lemma_lz_copy,
    lemma_prefix_facts, lemma_seq_layout, len_ext, lz_copy, seq_ok, seqs_ok, token, with_match,
    zeros, Sq, LASTLITERALS, MFLIMIT, MINMATCH, RUN_MASK,
};
use super::Error;

verus! {

/// Whether every answer of `byte` is the byte of `src` at that position.
pub open spec fn reads_from<F: Fn(usize) -> u8>(byte: F, src: spec_fn(int) -> u8) -> bool {
    forall|i: usize, b: u8| #[trigger] call_ensures(byte, (i,), b) ==> b == src(i as int)
}

/// How output-driven decoding ends.
#[verifier::ext_equal]
pub enum Filled {
    /// `out` fills the room; `consumed` source bytes were read.
    Done { out: Seq<u8>, consumed: int },
    /// The source does not decode to that much, found after `consumed` bytes.
    Malformed { consumed: int },
}

/// The length extension at `ip`, and where it ends. A source ends at the last
/// position a `usize` can name.
pub open spec fn extension(src: spec_fn(int) -> u8, ip: int, acc: int) -> (Option<int>, int)
    decreases usize::MAX - ip,
{
    if ip >= usize::MAX {
        (None, ip)
    } else if src(ip) != 255 {
        (Some(acc + src(ip)), ip + 1)
    } else {
        extension(src, ip + 1, acc + 255)
    }
}

/// A length code from a token, with its extension.
pub open spec fn full_length(src: spec_fn(int) -> u8, code: int, ip: int) -> (Option<int>, int) {
    if code == 15 {
        extension(src, ip, 15)
    } else {
        (Some(code), ip)
    }
}

/// `n` source bytes from `ip` on.
pub open spec fn source_bytes(src: spec_fn(int) -> u8, ip: int, n: int) -> Seq<u8> {
    Seq::new(n as nat, |i: int| src(ip + i))
}

/// The match half of a sequence whose distance is at `ip`: where it ends and
/// the output with it, or the position at which it fails.
pub open spec fn match_from(src: spec_fn(int) -> u8, hist: Seq<u8>, cap: int, code: int, ip: int, out: Seq<u8>) -> Result<(int, Seq<u8>), int> {
    if ip + 2 > usize::MAX {
        Err(ip)
    } else {
        let off = src(ip) + 256 * src(ip + 1);
        let (n, at) = full_length(src, code, ip + 2);
        match n {
            None => Err(at),
            Some(n) => {
                let len = n + MINMATCH;
                if cap - out.len() < len || off > hist.len() + out.len() {
                    Err(at)
                } else if cap - out.len() - len < LASTLITERALS {
                    Err(at)
                } else if off == 0 {
                    Ok((at, out + zeros(len as nat)))
                } else {
                    Ok((at, with_match(hist, out, off, len)))
                }
            },
        }
    }
}

/// Decoding `cap` bytes from the sequence at `ip` on.
pub open spec fn fill_from(src: spec_fn(int) -> u8, hist: Seq<u8>, cap: int, ip: int, out: Seq<u8>) -> Filled
    decreases usize::MAX - ip,
{
    if ip >= usize::MAX {
        Filled::Malformed { consumed: ip }
    } else {
        let (ll, at) = full_length(src, src(ip) as int / 16, ip + 1);
        match ll {
            None => Filled::Malformed { consumed: at },
            Some(n) => if cap - out.len() < n || at + n > usize::MAX {
                Filled::Malformed { consumed: at }
            } else {
                let out1 = out + source_bytes(src, at, n);
                if cap - out1.len() < MFLIMIT {
                    if out1.len() == cap {
                        Filled::Done { out: out1, consumed: at + n }
                    } else {
                        Filled::Malformed { consumed: at + n }
                    }
                } else {
                    match match_from(src, hist, cap, src(ip) as int % 16, at + n, out1) {
                        Err(consumed) => Filled::Malformed { consumed },
                        Ok((ip2, out2)) => if ip < ip2 <= usize::MAX {
                            fill_from(src, hist, cap, ip2, out2)
                        } else {
                            Filled::Malformed { consumed: ip2 }
                        },
                    }
                }
            },
        }
    }
}

/// One past the last source position that is read in decoding `cap` bytes.
/// Positions are read in order, each no sooner than those before it have told
/// that it is part of the block.
pub open spec fn extent(src: spec_fn(int) -> u8, hist: Seq<u8>, cap: int) -> int {
    read_upto(fill_from(src, hist, cap, 0, Seq::empty()))
}

/// Where reading has come to at the end.
pub open spec fn read_upto(f: Filled) -> int {
    match f {
        Filled::Done { out: _, consumed } => consumed,
        Filled::Malformed { consumed } => consumed,
    }
}

/// Whether `byte` answers at every position before `end`.
pub open spec fn answers<F: Fn(usize) -> u8>(byte: F, end: int) -> bool {
    forall|i: usize| i < end ==> #[trigger] call_requires(byte, (i,))
}

/// Whether `byte` answers wherever decoding `cap` bytes asks it: at every
/// position, or as far as the source that it reads makes the decoder read.
pub open spec fn answers_for<F: Fn(usize) -> u8>(byte: F, hist: Seq<u8>, cap: int) -> bool {
    ||| forall|i: usize| #[trigger] call_requires(byte, (i,))
    ||| exists|src: spec_fn(int) -> u8| #[trigger]
        reads_from(byte, src) && answers(byte, extent(src, hist, cap))
}

proof fn lemma_extension(src: spec_fn(int) -> u8, ip: int, acc: int)
    ensures
        extension(src, ip, acc).1 >= ip,
        ip < usize::MAX ==> extension(src, ip, acc).1 > ip,
        ip <= usize::MAX ==> extension(src, ip, acc).1 <= usize::MAX,
        extension(src, ip, acc).0 matches Some(n) ==> n >= acc,
    decreases usize::MAX - ip,
{
    if ip < usize::MAX && src(ip) == 255 {
        lemma_extension(src, ip + 1, acc + 255);
    }
}

/// Reading never goes back.
proof fn lemma_read_on(src: spec_fn(int) -> u8, hist: Seq<u8>, cap: int, ip: int, out: Seq<u8>)
    ensures
        read_upto(fill_from(src, hist, cap, ip, out)) >= ip,
    decreases usize::MAX - ip,
{
    if ip < usize::MAX {
        let (ll, at) = full_length(src, src(ip) as int / 16, ip + 1);
        lemma_extension(src, ip + 1, 15);
        if let Some(n) = ll {
            let out1 = out + source_bytes(src, at, n);
            lemma_extension(src, at + n + 2, 15);
            if let Ok((ip2, out2)) = match_from(src, hist, cap, src(ip) as int % 16, at + n, out1) {
                if ip < ip2 <= usize::MAX {
                    lemma_read_on(src, hist, cap, ip2, out2);
                }
            }
        }
    }
}

/// How far decoding from `ip` on reads at least: the token and its length,
/// then the literals, then the distance and the length of the match.
proof fn lemma_reads(src: spec_fn(int) -> u8, hist: Seq<u8>, cap: int, ip: int, out: Seq<u8>)
    requires
        0 <= ip < usize::MAX,
    ensures
        ({
            let end = read_upto(fill_from(src, hist, cap, ip, out));
            let (ll, at) = full_length(src, src(ip) as int / 16, ip + 1);
            &&& ip < at <= end
            &&& ll matches Some(n) ==> 0 <= n && (cap - out.len() >= n && at + n <= usize::MAX ==> {
                &&& at + n <= end
                &&& cap - out.len() - n >= MFLIMIT && at + n + 2 <= usize::MAX ==> at + n + 2
                    <= full_length(src, src(ip) as int % 16, at + n + 2).1 <= end
            })
        }),
{
    let (ll, at) = full_length(src, src(ip) as int / 16, ip + 1);
    lemma_extension(src, ip + 1, 15);
    if let Some(n) = ll {
        let out1 = out + source_bytes(src, at, n);
        lemma_extension(src, at + n + 2, 15);
        if cap - out.len() >= n && at + n <= usize::MAX {
            assert(out1.len() == out.len() + n);
            if let Ok((ip2, out2)) = match_from(src, hist, cap, src(ip) as int % 16, at + n, out1) {
                lemma_read_on(src, hist, cap, ip2, out2);
            }
        }
    }
}

/// Reads the length that starts with the code `code`, saturating at
/// `usize::MAX`. `Err` holds the position at which the source ends.
fn read_length<F: Fn(usize) -> u8>(byte: &F, code: usize, ip: usize, Ghost(src0): Ghost<spec_fn(int) -> u8>, Ghost(end): Ghost<int>) -> (r: Result<(usize, usize), usize>)
    requires
        answers(*byte, end),
        end > usize::MAX || reads_from(*byte, src0) && full_length(src0, code as int, ip as int).1
            <= end,
        code <= 15,
    ensures
        forall|src: spec_fn(int) -> u8| #[trigger]
            reads_from(*byte, src) ==> ({
                let (n, at) = full_length(src, code as int, ip as int);
                match r {
                    Ok((len, at2)) => n matches Some(v) && at2 == at && (len == v || len
                        == usize::MAX && v >= usize::MAX),
                    Err(at2) => n is None && at2 == at,
                }
            }),
        r matches Ok((_, at)) ==> at >= ip,
{
    if code != RUN_MASK {
        return Ok((code, ip));
    }
    let mut len: usize = code;
    let mut at = ip;
    let ghost mut acc: int = 15;
    loop
        invariant
            answers(*byte, end),
            end > usize::MAX || reads_from(*byte, src0) && extension(src0, at as int, acc).1 <= end,
            at >= ip,
            len == acc || len == usize::MAX && acc >= usize::MAX,
            code == 15,
            forall|src: spec_fn(int) -> u8| #[trigger]
                reads_from(*byte, src) ==> full_length(src, code as int, ip as int) == extension(
                    src,
                    at as int,
                    acc,
                ),
        decreases usize::MAX - at,
    {
        if at == usize::MAX {
            return Err(at);
        }
        proof {
            lemma_extension(src0, at as int, acc);
        }
        let b = byte(at);
        len = len.saturating_add(b as usize);
        proof {
            acc = acc + b;
        }
        at = at + 1;
        if b != 255 {
            return Ok((len, at));
        }
    }
}

/// Copies a match of `n` bytes at distance `offset`, counted back through the
/// output, `prefix` and `external`.
fn copy_back(output: &mut [u8], external: &[u8], prefix: &[u8], op: usize, offset: usize, n: usize)
    requires
        op + n <= old(output).len(),
        1 <= offset <= external@.len() + prefix@.len() + op,
    ensures
        final(output)@.len() == old(output)@.len(),
        final(output)@.subrange(0, op + n) == with_match(
            external@ + prefix@,
            old(output)@.subrange(0, op as int),
            offset as int,
            n as int,
        ),
{
    let ghost hist = external@ + prefix@;
    let ghost out = output@.subrange(0, op as int);
    let ghost w = hist + out;
    let mut i: usize = 0;
    assert(w =~= hist + output@.subrange(0, op as int));
    while i < n
        invariant
            0 <= i <= n,
            op + n <= output.len(),
            output@.len() == old(output)@.len(),
            hist == external@ + prefix@,
            w == hist + out,
            out.len() == op,
            1 <= offset <= external@.len() + prefix@.len() + op,
            hist + output@.subrange(0, op + i) == lz_copy(w, offset as int, i as nat),
        decreases n - i,
    {
        let at = op + i;
        let v = if offset <= at {
            output[at - offset]
        } else {
            let before = offset - at;
            if before <= prefix.len() {
                prefix[prefix.len() - before]
            } else {
                external[external.len() - (before - prefix.len())]
            }
        };
        let ghost p = hist + output@.subrange(0, op + i);
        assert(v == p[p.len() - offset]);
        output[at] = v;
        i = i + 1;
        assert(hist + output@.subrange(0, op + i) =~= p.push(v));
    }
    proof {
        lemma_lz_copy(w, offset as int, n as nat);
        assert(output@.subrange(0, op + n) =~= (hist + output@.subrange(0, op + n)).skip(
            hist.len() as int,
        ));
    }
}

/// Decodes exactly `output.len()` bytes from a source whose length is not
/// known, and returns how many source bytes that took. `byte` is asked for the
/// source byte at a position; the history is `external` followed by `prefix`.
#[verifier::rlimit(30)]
pub fn decompress_fast_with<F: Fn(usize) -> u8>(byte: F, output: &mut [u8], external: &[u8], prefix: &[u8]) -> (r: Result<usize, Error>)
    requires
        answers_for(byte, external@ + prefix@, old(output)@.len() as int),
    ensures
        final(output)@.len() == old(output)@.len(),
        forall|src: spec_fn(int) -> u8| #[trigger]
            reads_from(byte, src) ==> match fill_from(
                src,
                external@ + prefix@,
                old(output)@.len() as int,
                0,
                Seq::empty(),
            ) {
                Filled::Done { out, consumed } => r matches Ok(n) && n == consumed
                    && final(output)@ == out,
                Filled::Malformed { consumed } => r matches Err(Error::Malformed { consumed: c })
                    && c == consumed,
            },
{
    let ghost hist = external@ + prefix@;
    let cap = output.len();
    let ghost every = forall|i: usize| #[trigger] call_requires(byte, (i,));
    let ghost src0 = choose|src: spec_fn(int) -> u8| #[trigger]
        reads_from(byte, src) && answers(byte, extent(src, hist, cap as int));
    let ghost end = if every {
        usize::MAX + 1
    } else {
        extent(src0, hist, cap as int)
    };
    let mut ip: usize = 0;
    let mut op: usize = 0;
    assert(output@.subrange(0, 0) =~= Seq::<u8>::empty());
    loop
        invariant
            answers(byte, end),
            end > usize::MAX || reads_from(byte, src0) && end == read_upto(
                fill_from(src0, hist, cap as int, ip as int, output@.subrange(0, op as int)),
            ),
            cap == output.len(),
            output@.len() == old(output)@.len(),
            hist == external@ + prefix@,
            op <= cap,
            forall|src: spec_fn(int) -> u8| #[trigger]
                reads_from(byte, src) ==> fill_from(src, hist, cap as int, 0, Seq::empty())
                    == fill_from(src, hist, cap as int, ip as int, output@.subrange(0, op as int)),
        decreases usize::MAX - ip,
    {
        if ip == usize::MAX {
            return Err(Error::Malformed { consumed: ip });
        }
        let ghost ip0 = ip as int;
        let ghost out = output@.subrange(0, op as int);
        proof {
            lemma_reads(src0, hist, cap as int, ip0, out);
        }
        let token = byte(ip);
        let literal_length = match read_length(
            &byte,
            (token / 16) as usize,
            ip + 1,
            Ghost(src0),
            Ghost(end),
        ) {
            Ok((n, at)) => {
                ip = at;
                n
            },
            Err(at) => {
                return Err(Error::Malformed { consumed: at });
            },
        };
        if cap - op < literal_length || usize::MAX - ip < literal_length {
            return Err(Error::Malformed { consumed: ip });
        }
        let mut index: usize = 0;
        while index < literal_length
            invariant
                answers(byte, end),
                end > usize::MAX || ip + literal_length <= end,
                0 <= index <= literal_length,
                literal_length <= cap - op,
                op <= cap,
                literal_length <= usize::MAX - ip,
                cap == output.len(),
                output@.len() == old(output)@.len(),
                out.len() == op,
                forall|src: spec_fn(int) -> u8| #[trigger]
                    reads_from(byte, src) ==> output@.subrange(0, op + index) == out
                        + source_bytes(src, ip as int, index as int),
            decreases literal_length - index,
        {
            let ghost before = output@.subrange(0, op + index);
            let b = byte(ip + index);
            output[op + index] = b;
            index = index + 1;
            assert(output@.subrange(0, op + index) =~= before.push(b));
            assert forall|src: spec_fn(int) -> u8| #[trigger] reads_from(byte, src) implies output@.subrange(
                0,
                op + index,
            ) == out + source_bytes(src, ip as int, index as int) by {
                assert(out + source_bytes(src, ip as int, index as int) =~= (out + source_bytes(
                    src,
                    ip as int,
                    index - 1,
                )).push(src(ip + index - 1)));
            }
        }
        ip = ip + literal_length;
        op = op + literal_length;
        if cap - op < MFLIMIT {
            return if op == cap {
                assert(output@.subrange(0, cap as int) =~= output@);
                Ok(ip)
            } else {
                Err(Error::Malformed { consumed: ip })
            };
        }
        let ghost out1 = output@.subrange(0, op as int);
        if usize::MAX - ip < 2 {
            return Err(Error::Malformed { consumed: ip });
        }
        let offset = byte(ip) as usize + 256 * (byte(ip + 1) as usize);
        let match_length = match read_length(
            &byte,
            (token % 16) as usize,
            ip + 2,
            Ghost(src0),
            Ghost(end),
        ) {
            Ok((n, at)) => {
                ip = at;
                n
            },
            Err(at) => {
                return Err(Error::Malformed { consumed: at });
            },
        };
        let match_length = match_length.saturating_add(MINMATCH);
        if cap - op < match_length || offset > op && offset - op > prefix.len() && offset - op
            - prefix.len() > external.len() {
            return Err(Error::Malformed { consumed: ip });
        }
        if cap - op - match_length < LASTLITERALS {
            return Err(Error::Malformed { consumed: ip });
        }
        if offset == 0 {
            fill(output, op, op + match_length, 0);
            assert(output@.subrange(0, op + match_length) =~= out1 + zeros(match_length as nat));
        } else {
            copy_back(output, external, prefix, op, offset, match_length);
        }
        op = op + match_length;
    }
}

/// Whether a source starts with `block`.
pub open spec fn starts_with(src: spec_fn(int) -> u8, block: Seq<u8>) -> bool {
    forall|i: int| 0 <= i < block.len() ==> #[trigger] src(i) == block[i]
}

/// A length extension reads back as the length that it was made for.
proof fn lemma_extension_reads(src: spec_fn(int) -> u8, block: Seq<u8>, ip: int, n: int, j: int)
    requires
        starts_with(src, block),
        n >= 15,
        0 <= ip,
        ip + len_ext(n).len() <= block.len() <= usize::MAX,
        block.subrange(ip, ip + len_ext(n).len()) == len_ext(n),
        0 <= j <= (n - 15) / 255,
    ensures
        extension(src, ip + j, 15 + 255 * j) == (Some(n), ip + len_ext(n).len()),
    decreases (n - 15) / 255 - j,
{
    let e = len_ext(n);
    assert(src(ip + j) == e[j]) by {
        assert(block.subrange(ip, ip + e.len())[j] == block[ip + j]);
    }
    if j < (n - 15) / 255 {
        lemma_extension_reads(src, block, ip, n, j + 1);
        assert(15 + 255 * (j + 1) == 15 + 255 * j + 255);
    }
}

/// Decoding passes over a sequence.
proof fn lemma_fill_seq(src: spec_fn(int) -> u8, hist: Seq<u8>, cap: int, block: Seq<u8>, ip: int, out: Seq<u8>, s: Sq)
    requires
        starts_with(src, block),
        0 <= ip,
        ip + enc_seq(s).len() + 6 <= block.len() <= usize::MAX,
        block.subrange(ip, ip + enc_seq(s).len()) == enc_seq(s),
        seq_ok(hist, out, s),
        out.len() + s.lits.len() + MFLIMIT <= cap,
        out.len() + s.lits.len() + s.mlen + LASTLITERALS <= cap,
    ensures
        fill_from(src, hist, cap, ip, out) == fill_from(
            src,
            hist,
            cap,
            ip + enc_seq(s).len(),
            with_match(hist, out + s.lits, s.off, s.mlen),
        ),
{
    lemma_seq_layout(block, ip, s);
    let ll = s.lits.len() as int;
    let mc = s.mlen - MINMATCH;
    let at = ip + 1 + len_ext(ll).len();
    let mp = at + ll + 2;
    let out1 = out + s.lits;
    assert(src(ip) == token(ll, mc));
    assert(full_length(src, src(ip) as int / 16, ip + 1) == (Some(ll), at)) by {
        if ll >= 15 {
            lemma_extension_reads(src, block, ip + 1, ll, 0);
        }
    }
    assert(source_bytes(src, at, ll) =~= s.lits) by {
        assert forall|k: int| 0 <= k < ll implies src(at + k) == s.lits[k] by {
            assert(block.subrange(at, at + ll)[k] == block[at + k]);
        }
    }
    assert(full_length(src, src(ip) as int % 16, mp) == (Some(mc), ip + enc_seq(s).len())) by {
        if mc >= 15 {
            lemma_extension_reads(src, block, mp, mc, 0);
        }
    }
    assert(src(at + ll) + 256 * src(at + ll + 1) == s.off);
}

/// Decoding ends with the literals that end a block.
proof fn lemma_fill_last(src: spec_fn(int) -> u8, hist: Seq<u8>, cap: int, block: Seq<u8>, ip: int, out: Seq<u8>, last: Seq<u8>)
    requires
        starts_with(src, block),
        0 <= ip,
        ip + enc_last(last).len() == block.len() <= usize::MAX,
        block.subrange(ip, block.len() as int) == enc_last(last),
        out.len() + last.len() == cap,
    ensures
        fill_from(src, hist, cap, ip, out) == (Filled::Done {
            out: out + last,
            consumed: block.len() as int,
        }),
{
    let e = enc_last(last);
    let ll = last.len() as int;
    let le = len_ext(ll);
    let at = ip + 1 + le.len();
    assert forall|k: int| 0 <= k < e.len() implies src(ip + k) == #[trigger] e[k] by {
        assert(block.subrange(ip, block.len() as int)[k] == block[ip + k]);
    }
    assert(src(ip + 0) == e[0] && e[0] == token(ll, 0));
    assert(source_bytes(src, at, ll) =~= last) by {
        assert forall|k: int| 0 <= k < ll implies src(at + k) == last[k] by {
            assert(src(ip + (1 + le.len() + k)) == e[1 + le.len() + k]);
        }
    }
    if ll >= 15 {
        assert(block.subrange(ip + 1, ip + 1 + le.len()) =~= le) by {
            assert forall|k: int| 0 <= k < le.len() implies block[ip + 1 + k] == le[k] by {
                assert(block.subrange(ip, block.len() as int)[1 + k] == e[1 + k]);
            }
        }
        lemma_extension_reads(src, block, ip + 1, ll, 0);
    }
}

proof fn lemma_fill_seqs(src: spec_fn(int) -> u8, hist: Seq<u8>, cap: int, block: Seq<u8>, seqs: Seq<Sq>, last: Seq<u8>, i: int)
    requires
        starts_with(src, block),
        block == enc_block(seqs, last),
        block.len() <= usize::MAX,
        cap == content(hist, seqs).len() + last.len(),
        seqs_ok(hist, seqs),
        end_ok(seqs, last),
        0 <= i <= seqs.len(),
    ensures
        fill_from(src, hist, cap, 0, Seq::empty()) == fill_from(
            src,
            hist,
            cap,
            enc_seqs(seqs.take(i)).len() as int,
            content(hist, seqs.take(i)),
        ),
    decreases i,
{
    if i > 0 {
        lemma_fill_seqs(src, hist, cap, block, seqs, last, i - 1);
        lemma_prefix_facts(hist, seqs, last, i - 1);
        let a = seqs.take(i - 1);
        assert(seqs.take(i).drop_last() =~= a);
        assert(seqs.take(i).last() == seqs[i - 1]);
        lemma_fill_seq(
            src,
            hist,
            cap,
            block,
            enc_seqs(a).len() as int,
            content(hist, a),
            seqs[i - 1],
        );
    }
}

/// An encoding is decoded to its data from a source that starts with it: all
/// of it is read, and nothing behind it.
pub proof fn law_fill_round_trip(src: spec_fn(int) -> u8, hist: Seq<u8>, block: Seq<u8>, data: Seq<u8>)
    requires
        encodes(hist, block, data),
        starts_with(src, block),
        block.len() <= usize::MAX,
    ensures
        fill_from(src, hist, data.len() as int, 0, Seq::empty()) == (Filled::Done {
            out: data,
            consumed: block.len() as int,
        }),
        extent(src, hist, data.len() as int) == block.len(),
{
    let (seqs, last) = choose|seqs: Seq<Sq>, last: Seq<u8>|
        #![trigger enc_block(seqs, last)]
        {
            &&& block == enc_block(seqs, last)
            &&& data == content(hist, seqs) + last
            &&& seqs_ok(hist, seqs)
            &&& end_ok(seqs, last)
        };
    let n = seqs.len() as int;
    let cap = data.len() as int;
    assert(seqs.take(n) =~= seqs);
    lemma_fill_seqs(src, hist, cap, block, seqs, last, n);
    let ip = enc_seqs(seqs).len() as int;
    assert(block.subrange(ip, block.len() as int) =~= enc_last(last));
    lemma_fill_last(src, hist, cap, block, ip, content(hist, seqs), last);
}

} // verus!
