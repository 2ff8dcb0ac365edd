//! Decoding no more of a block than there is room for.
use vstd::prelude::*;
use super::{
    content, decode, decode_from, echoes, enc_block, enc_last, enc_seq, enc_seqs, encodes, end_ok,
    keeps_lead, leads_enough, lemma_lz_copy, lemma_lz_copy_unique, lemma_prefix_facts,
    lemma_rest_len, lemma_seq_layout, lemma_varlen_ext, len_ext, literal_step, long_step, lz_copy,
    match_step, min_int, place_match, seq_ok, seqs_ok, short_step, step, token, with_match,
    DecodeSetup, Decoded, Sq, Step, MINMATCH,
};

verus! {

/// The first bytes of a match are those of a shorter one.
proof fn lemma_shorter_match(hist: Seq<u8>, out: Seq<u8>, off: int, m: int, n: int)
    requires
        1 <= off <= hist.len() + out.len(),
        0 <= m <= n,
    ensures
        with_match(hist, out, off, n).len() == out.len() + n,
        with_match(hist, out, off, m) == with_match(hist, out, off, n).take(out.len() + m),
        with_match(hist, out, off, n).take(out.len() as int) == out,
{
    let w = hist + out;
    let long = lz_copy(w, off, n as nat);
    let short = long.take(w.len() + m);
    lemma_lz_copy(w, off, n as nat);
    assert forall|i: int| w.len() <= i < w.len() + m implies #[trigger] echoes(short, i, off) by {
        assert(echoes(long, i, off));
    }
    lemma_lz_copy_unique(w, off, m as nat, short);
    assert(short.skip(hist.len() as int) =~= long.skip(hist.len() as int).take(out.len() + m));
    assert(long.skip(hist.len() as int).take(out.len() as int) =~= out);
}

/// What the first sequences of a block stand for starts what all of them do.
proof fn lemma_content_starts(hist: Seq<u8>, seqs: Seq<Sq>, i: int)
    requires
        seqs_ok(hist, seqs),
        0 <= i <= seqs.len(),
    ensures
        content(hist, seqs.take(i)).len() <= content(hist, seqs).len(),
        content(hist, seqs.take(i)) == content(hist, seqs).take(
            content(hist, seqs.take(i)).len() as int,
        ),
    decreases seqs.len(),
{
    let a = content(hist, seqs.take(i));
    if i == seqs.len() {
        assert(seqs.take(i) =~= seqs);
        assert(a.take(a.len() as int) =~= a);
    } else {
        let z = seqs.drop_last();
        let s = seqs.last();
        let b = content(hist, z);
        lemma_content_starts(hist, z, i);
        assert(z.take(i) =~= seqs.take(i));
        lemma_shorter_match(hist, b + s.lits, s.off, 0, s.mlen);
        let c = content(hist, seqs);
        assert(c.take(a.len() as int) =~= (b + s.lits).take(a.len() as int)) by {
            assert(c.take((b + s.lits).len() as int).take(a.len() as int) =~= c.take(
                a.len() as int,
            ));
        }
        assert((b + s.lits).take(a.len() as int) =~= b.take(a.len() as int));
    }
}

/// Where a match comes to with the room that is left: decoding ends with the
/// part of it that fits, or goes on behind it.
spec fn cut_short(d: DecodeSetup, whole: Seq<u8>, ip: int, r: Step) -> bool {
    let n = min_int(whole.len() as int, d.cap);
    ||| r == (Step::Next { ip, out: whole.take(n), doubt: None })
    ||| whole.len() >= d.cap && r == Step::Stop(
        Decoded::Done { out: whole.take(d.cap), doubt: None },
    )
}

/// The match of an encoded sequence.
proof fn lemma_partial_match(d: DecodeSetup, src: Seq<u8>, mp: int, mlen: int, off: int, out: Seq<u8>)
    requires
        d.partial,
        0 <= d.prefix <= d.hist.len(),
        d.cap <= usize::MAX,
        0 <= mp,
        mlen >= MINMATCH,
        mlen - MINMATCH <= usize::MAX,
        mp + len_ext(mlen - MINMATCH).len() + 6 <= src.len(),
        src.subrange(mp, mp + len_ext(mlen - MINMATCH).len()) == len_ext(mlen - MINMATCH),
        1 <= off <= d.hist.len() + out.len(),
        out.len() < d.cap,
        keeps_lead(d, mp + len_ext(mlen - MINMATCH).len(), out.len() + mlen),
    ensures
        cut_short(
            d,
            with_match(d.hist, out, off, mlen),
            mp + len_ext(mlen - MINMATCH).len(),
            match_step(d, src, min_int(mlen - MINMATCH, 15), off, mp, out, None),
        ),
{
    let mc = mlen - MINMATCH;
    let whole = with_match(d.hist, out, off, mlen);
    let room = d.cap - out.len();
    lemma_shorter_match(d.hist, out, off, min_int(mlen, room), mlen);
    lemma_shorter_match(d.hist, out, off, mlen, mlen);
    assert(whole.take(whole.len() as int) =~= whole);
    reveal(match_step);
    reveal(place_match);
    if mc >= 15 {
        lemma_varlen_ext(src, mp, mc, src.len() - 6, 0);
    }
}

/// Decoding one encoded sequence with the room that is left.
#[verifier::rlimit(30)]
proof fn lemma_partial_seq(d: DecodeSetup, src: Seq<u8>, ip: int, out: Seq<u8>, s: Sq)
    requires
        d.partial,
        keeps_lead(
            d,
            ip + 1 + len_ext(s.lits.len() as int).len() + s.lits.len(),
            (out.len() + s.lits.len()) as int,
        ),
        keeps_lead(d, ip + enc_seq(s).len(), out.len() + s.lits.len() + s.mlen),
        0 <= d.prefix <= d.hist.len(),
        d.cap <= usize::MAX,
        0 <= ip,
        ip + enc_seq(s).len() + 6 <= src.len(),
        src.subrange(ip, ip + enc_seq(s).len()) == enc_seq(s),
        seq_ok(d.hist, out, s),
        s.lits.len() <= usize::MAX,
        s.mlen <= usize::MAX,
        out.len() <= d.cap,
    ensures
        cut_short(
            d,
            with_match(d.hist, out + s.lits, s.off, s.mlen),
            ip + enc_seq(s).len(),
            step(d, src, ip, out, None),
        ),
{
    lemma_seq_layout(src, ip, s);
    let ll = s.lits.len() as int;
    let mc = s.mlen - MINMATCH;
    let at = ip + 1 + len_ext(ll).len();
    let mp = at + ll + 2;
    let out1 = out + s.lits;
    let whole = with_match(d.hist, out1, s.off, s.mlen);
    lemma_shorter_match(d.hist, out1, s.off, s.mlen, s.mlen);
    if out1.len() < d.cap {
        lemma_partial_match(d, src, mp, s.mlen, s.off, out1);
    } else {
        assert(whole.take(d.cap) =~= whole.take(out1.len() as int).take(d.cap));
    }
    if src[ip] as int / 16 != 15 && ip + 1 + 16 < src.len() && out.len() + 32 <= d.cap {
        reveal(short_step);
        assert(whole.take(whole.len() as int) =~= whole);
    } else {
        assert(long_step(d, src, ip, out, None) == literal_step(
            d,
            src,
            ll,
            min_int(mc, 15),
            at,
            out,
            None,
        )) by {
            reveal(long_step);
            if ll >= 15 {
                lemma_varlen_ext(src, ip + 1, ll, src.len() - 15, 0);
            }
        }
        let room = d.cap - out.len();
        assert(cut_short(
            d,
            whole,
            ip + enc_seq(s).len(),
            literal_step(d, src, ll, min_int(mc, 15), at, out, None),
        )) by {
            reveal(literal_step);
            if room <= ll {
                assert(out + src.subrange(at, at + room) =~= out1.take(d.cap));
            }
        }
    }
}

/// Decoding the literals that end a block with the room that is left.
proof fn lemma_partial_last(d: DecodeSetup, src: Seq<u8>, ip: int, out: Seq<u8>, last: Seq<u8>)
    requires
        d.partial,
        d.cap <= usize::MAX,
        0 <= ip,
        ip + enc_last(last).len() == src.len(),
        src.subrange(ip, src.len() as int) == enc_last(last),
        last.len() <= usize::MAX,
        out.len() <= d.cap,
    ensures
        decode_from(d, src, ip, out, None) == (Decoded::Done {
            out: (out + last).take(min_int(d.cap, (out.len() + last.len()) as int)),
            doubt: None,
        }),
{
    reveal(short_step);
    reveal(long_step);
    reveal(literal_step);
    let e = enc_last(last);
    let ll = last.len() as int;
    let le = len_ext(ll);
    let at = ip + 1 + le.len();
    assert forall|k: int| 0 <= k < e.len() implies src[ip + k] == #[trigger] e[k] by {
        assert(src.subrange(ip, src.len() as int)[k] == src[ip + k]);
    }
    assert(src[ip] == e[0] && e[0] == token(ll, 0));
    assert(src.subrange(at, at + ll) =~= last) by {
        assert forall|k: int| 0 <= k < ll implies src[at + k] == last[k] by {
            assert(e[1 + le.len() + k] == last[k]);
        }
    }
    if ll >= 15 {
        assert(src.subrange(ip + 1, ip + 1 + le.len()) =~= le) by {
            assert forall|k: int| 0 <= k < le.len() implies src[ip + 1 + k] == le[k] by {
                assert(e[1 + k] == le[k]);
            }
        }
        lemma_varlen_ext(src, ip + 1, ll, src.len() - 15, 0);
    }
    let n = min_int(ll, d.cap - out.len());
    assert(out + src.subrange(at, at + n) =~= (out + last).take(out.len() + n));
}

/// Decoding from the sequence at `i` on, with what fits of the ones before.
#[verifier::rlimit(30)]
proof fn lemma_partial_from(d: DecodeSetup, src: Seq<u8>, seqs: Seq<Sq>, last: Seq<u8>, i: int)
    requires
        d.partial,
        leads_enough(d, src.len() as int, (content(d.hist, seqs).len() + last.len()) as int),
        0 <= d.prefix <= d.hist.len(),
        0 <= d.cap <= usize::MAX,
        content(d.hist, seqs).len() + last.len() <= usize::MAX,
        src == enc_block(seqs, last),
        seqs_ok(d.hist, seqs),
        end_ok(seqs, last),
        0 <= i <= seqs.len(),
        content(d.hist, seqs.take(i)).len() <= d.cap,
    ensures
        ({
            let data = content(d.hist, seqs) + last;
            decode_from(
                d,
                src,
                enc_seqs(seqs.take(i)).len() as int,
                content(d.hist, seqs.take(i)),
                None,
            ) == (Decoded::Done {
                out: data.take(min_int(d.cap, data.len() as int)),
                doubt: None,
            })
        }),
    decreases seqs.len() - i,
{
    let ip = enc_seqs(seqs.take(i)).len() as int;
    let out = content(d.hist, seqs.take(i));
    let data = content(d.hist, seqs) + last;
    if i == seqs.len() {
        assert(seqs.take(i) =~= seqs);
        assert(src.subrange(ip, src.len() as int) =~= enc_last(last));
        lemma_partial_last(d, src, ip, out, last);
    } else {
        let s = seqs[i];
        let b = seqs.take(i + 1);
        let whole = with_match(d.hist, out + s.lits, s.off, s.mlen);
        assert(b.drop_last() =~= seqs.take(i));
        assert(b.last() == s);
        lemma_prefix_facts(d.hist, seqs, last, i);
        lemma_rest_len(d.hist, seqs, last, i + 1);
        lemma_lz_copy(d.hist + (out + s.lits), s.off, s.mlen as nat);
        lemma_partial_seq(d, src, ip, out, s);
        lemma_content_starts(d.hist, seqs, i + 1);
        let n = min_int(whole.len() as int, d.cap);
        assert(whole.take(n) =~= data.take(n)) by {
            assert(content(d.hist, seqs).take(whole.len() as int).take(n) =~= data.take(n));
        }
        if whole.len() <= d.cap {
            assert(whole.take(n) =~= whole);
            lemma_partial_from(d, src, seqs, last, i + 1);
        } else if let Step::Next { ip: ip2, out: out2, doubt } = step(d, src, ip, out, None) {
            lemma_partial_full(d, src, seqs, last, i + 1, out2);
        }
    }
}

/// Decoding ends where there is no room left.
proof fn lemma_partial_full(d: DecodeSetup, src: Seq<u8>, seqs: Seq<Sq>, last: Seq<u8>, i: int, out: Seq<u8>)
    requires
        d.partial,
        d.cap <= usize::MAX,
        content(d.hist, seqs).len() + last.len() <= usize::MAX,
        src == enc_block(seqs, last),
        seqs_ok(d.hist, seqs),
        end_ok(seqs, last),
        0 <= i <= seqs.len(),
        out.len() == d.cap,
    ensures
        decode_from(d, src, enc_seqs(seqs.take(i)).len() as int, out, None) == (Decoded::Done {
            out,
            doubt: None,
        }),
{
    let ip = enc_seqs(seqs.take(i)).len() as int;
    if i == seqs.len() {
        assert(seqs.take(i) =~= seqs);
        assert(src.subrange(ip, src.len() as int) =~= enc_last(last));
        lemma_partial_last(d, src, ip, out, last);
        assert((out + last).take(out.len() as int) =~= out);
    } else {
        let s = seqs[i];
        let ll = s.lits.len() as int;
        lemma_prefix_facts(d.hist, seqs, last, i);
        lemma_seq_layout(src, ip, s);
        reveal(long_step);
        reveal(literal_step);
        if ll >= 15 {
            lemma_varlen_ext(src, ip + 1, ll, src.len() - 15, 0);
        }
        let at = ip + 1 + len_ext(ll).len();
        assert(out + src.subrange(at, at) =~= out);
    }
}

/// Decoding part of an encoding gives the start of the data: as much as there
/// is room for, or all of it.
pub proof fn law_partial_prefix(d: DecodeSetup, block: Seq<u8>, data: Seq<u8>)
    requires
        encodes(d.hist, block, data),
        d.partial,
        leads_enough(d, block.len() as int, data.len() as int),
        0 <= d.prefix <= d.hist.len(),
        0 <= d.cap <= usize::MAX,
        data.len() <= usize::MAX,
    ensures
        decode(d, block) == (Decoded::Done {
            out: data.take(min_int(d.cap, data.len() as int)),
            doubt: None,
        }),
{
    let (seqs, last) = choose|seqs: Seq<Sq>, last: Seq<u8>|
        #![trigger enc_block(seqs, last)]
        {
            &&& block == enc_block(seqs, last)
            &&& data == content(d.hist, seqs) + last
            &&& seqs_ok(d.hist, seqs)
            &&& end_ok(seqs, last)
        };
    assert(seqs.take(0) =~= Seq::empty());
    lemma_partial_from(d, block, seqs, last, 0);
    if d.cap == 0 {
        assert(data.take(0) =~= Seq::empty());
    }
}

} // verus!
