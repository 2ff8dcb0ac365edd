//! Blocks that the high-compression compressor makes are encodings of their
//! input, and the bound is room enough for them.
use vstd::prelude::*;
use crate::block::compress::{bound, LZ4_MAX_INPUT_SIZE};
use crate::block::encode::{lemma_ext_len, seq_len};
use crate::format::{
    content, decode, echoes, enc_block, law_round_trip, DecodeSetup, Decoded, encodes, end_ok,
    lemma_lz_copy_unique, len_ext, seqs_ok, Sq, LASTLITERALS, MFLIMIT, MINMATCH,
};
use super::chase::{Chains, Found};
use super::lazy::{suited, Lazy, LazyNext, Put, Spot};
use super::optimal::{Effort, Opt, OptNext, Plan, Step, OPT_ENTRIES, OPT_NUM};
use super::mid::{Mid, MidTables};
use super::output::{fill_run, out_end, Done, Draft};
use super::scene::Scene;
use super::{effort_of, generic_outcome, mid_tables, params_of, Limit, Strategy};

verus! {

impl Scene {
    /// Whether a block in the making stands for the input so far, and takes
    /// little more room than it.
    #[verifier::opaque]
    pub open spec fn sound(self, limit: Limit, room: int, d: Draft) -> bool {
        let n = d.anchor - self.start;
        &&& self.start <= d.anchor <= self.len()
        &&& content(self.hist(), d.seqs) == self.base.subrange(self.start, d.anchor)
        &&& seqs_ok(self.hist(), d.seqs)
        &&& d.seqs.len() > 0 ==> {
            &&& d.anchor <= self.matchlimit()
            &&& d.anchor - d.seqs.last().mlen <= self.mflimit()
            &&& d.seqs.last().mlen >= MINMATCH
            &&& limit == Limit::FillOutput ==> d.op() + 10 <= room
        }
        &&& d.op() <= n + n / 255
    }

    /// Whether what became of the block is an encoding of the input that it
    /// stands for: all of it, unless it was asked to fill its room. Then there
    /// is one, and where it leaves input over, its last literals could not be
    /// one byte longer. With as much room as the bound it comes to a whole block.
    pub open spec fn ended_well(self, limit: Limit, room: int, done: Done) -> bool {
        let n = self.len() - self.start;
        &&& done.block matches Some((seqs, last)) ==> {
            &&& 0 <= done.consumed <= n
            &&& limit != Limit::FillOutput ==> done.consumed == n
            &&& enc_block(seqs, last).len() <= room
            &&& done.consumed < n ==> enc_block(
                seqs,
                last.push(self.base[self.start + done.consumed]),
            ).len() > room
            &&& content(self.hist(), seqs) + last == self.base.subrange(
                self.start,
                self.start + done.consumed,
            )
            &&& encodes(
                self.hist(),
                enc_block(seqs, last),
                self.base.subrange(self.start, self.start + done.consumed),
            )
        }
        &&& limit == Limit::FillOutput && room > 0 ==> done.block is Some
        &&& room >= bound(n) ==> done.block is Some && done.consumed == n
    }

    /// A match that may be taken.
    pub open spec fn allows(self, d: Draft, at: int, n: int, off: int) -> bool {
        &&& d.anchor <= at <= self.mflimit()
        &&& MINMATCH <= n
        &&& at + n <= self.matchlimit()
        &&& self.repeats(at, off, n)
    }

    /// All bytes up to a position of the block are those before it, and the
    /// block up to there.
    proof fn lemma_upto(self, at: int)
        requires
            self.wf(),
            self.start <= at <= self.len(),
        ensures
            self.whole().take(self.lead() + at) == self.hist() + self.base.subrange(self.start, at),
            self.hist().len() == self.lead() + self.start,
    {
        assert(self.whole().take(self.lead() + at) =~= self.hist() + self.base.subrange(
            self.start,
            at,
        ));
    }

    /// What the sequences stand for grows with each.
    proof fn lemma_content_with(self, d: Draft, at: int, n: int, off: int)
        requires
            self.wf(),
            self.start <= d.anchor,
            content(self.hist(), d.seqs) == self.base.subrange(self.start, d.anchor),
            seqs_ok(self.hist(), d.seqs),
            self.allows(d, at, n, off),
        ensures
            content(self.hist(), d.with(self.base, at, n, off).seqs) == self.base.subrange(
                self.start,
                at + n,
            ),
            seqs_ok(self.hist(), d.with(self.base, at, n, off).seqs),
    {
        let h = self.hist();
        let e = d.with(self.base, at, n, off);
        let s = e.seqs.last();
        let out = self.base.subrange(self.start, d.anchor) + s.lits;
        assert(e.seqs.drop_last() =~= d.seqs);
        assert(out =~= self.base.subrange(self.start, at));
        self.lemma_upto(at);
        self.lemma_upto(at + n);
        let w = h + out;
        let r = self.whole().take(self.lead() + at + n);
        assert forall|i: int| w.len() <= i < w.len() + n implies #[trigger] echoes(r, i, off) by {
            let k = i - w.len();
            assert(self.base[at + k] == self.whole()[self.lead() + at - off + k]);
            assert(r[i] == self.base[at + k]);
        }
        assert(forall|i: int| 0 <= i < w.len() ==> r[i] == w[i]);
        lemma_lz_copy_unique(w, off, n as nat, r);
        assert(r.skip(h.len() as int) =~= self.base.subrange(self.start, at + n));
    }

    /// A sequence takes little more room than what it stands for.
    pub proof fn lemma_op_with(self, d: Draft, at: int, n: int, off: int)
        requires
            self.wf(),
            d.anchor <= at,
            n >= MINMATCH,
            self.start <= d.anchor,
            at + n <= self.len(),
            d.op() <= (d.anchor - self.start) + (d.anchor - self.start) / 255,
        ensures
            ({
                let e = d.with(self.base, at, n, off);
                let m = e.anchor - self.start;
                &&& e.op() == d.op() + seq_len(at - d.anchor, n - MINMATCH)
                &&& e.op() <= m + m / 255
            }),
    {
        let e = d.with(self.base, at, n, off);
        assert(e.seqs.drop_last() =~= d.seqs);
        lemma_ext_len(at - d.anchor);
        lemma_ext_len(n - MINMATCH);
    }

    /// Taking a match that fits.
    pub proof fn lemma_take(self, limit: Limit, room: int, d: Draft, at: int, n: int, off: int)
        requires
            self.wf(),
            self.sound(limit, room, d),
            self.allows(d, at, n, off),
            d.takes(limit, room, at, n),
        ensures
            self.sound(limit, room, d.with(self.base, at, n, off)),
    {
        reveal(Scene::sound);
        self.lemma_content_with(d, at, n, off);
        self.lemma_op_with(d, at, n, off);
        lemma_ext_len(at - d.anchor);
        lemma_ext_len(n - MINMATCH);
    }

    /// With as much room as the bound, every sequence fits.
    pub proof fn lemma_roomy(self, limit: Limit, room: int, d: Draft, at: int, n: int, off: int)
        requires
            self.wf(),
            self.sound(limit, room, d),
            self.allows(d, at, n, off),
            room >= bound(self.len() - self.start),
        ensures
            d.takes(limit, room, at, n),
    {
        reveal(Scene::sound);
        lemma_ext_len(at - d.anchor);
        lemma_ext_len(n - MINMATCH);
    }

    /// Ending a block that stands for the input so far.
    pub proof fn lemma_finish(self, limit: Limit, room: int, d: Draft)
        requires
            self.wf(),
            self.sound(limit, room, d),
            room >= 0,
        ensures
            self.ended_well(limit, room, d.finish(self.base, self.start, limit, room)),
    {
        reveal(Scene::sound);
        let run = self.len() - d.anchor;
        let n = self.len() - self.start;
        lemma_ext_len(run);
        assert(room >= bound(n) ==> d.op() + 1 + len_ext(run).len() + run <= room);
        let done = d.finish(self.base, self.start, limit, room);
        if let Some((seqs, last)) = done.block {
            lemma_ext_len(last.len() as int);
            if limit == Limit::FillOutput && d.op() < room {
                lemma_run(room - d.op(), run);
            }
            assert(content(self.hist(), seqs) + last =~= self.base.subrange(
                self.start,
                self.start + done.consumed,
            ));
            assert(enc_block(seqs, last).len() == d.op() + 1 + len_ext(last.len() as int).len()
                + last.len());
            assert(end_ok(seqs, last));
        }
    }

    /// Ending a block because a sequence does not fit.
    pub proof fn lemma_cut_short(self, limit: Limit, room: int, d: Draft, at: int, n: int, off: int)
        requires
            self.wf(),
            self.sound(limit, room, d),
            self.allows(d, at, n, off),
            !d.takes(limit, room, at, n),
            room >= 0,
        ensures
            self.ended_well(
                limit,
                room,
                d.cut_short(self.base, self.start, limit, room, at, n, off),
            ),
    {
        if room >= bound(self.len() - self.start) {
            self.lemma_roomy(limit, room, d, at, n, off);
        }
        let end = out_end(limit, room);
        let ll = at - d.anchor;
        let behind = d.op() + 1 + len_ext(ll).len() + ll;
        let left = end - 3 - behind;
        let most = MINMATCH + 14 + 255 * left;
        let m = if n < most {
            n
        } else {
            most
        };
        if limit == Limit::FillOutput && left >= 0 && end + LASTLITERALS - (behind + 2) - 1 + m
            >= 12 {
            assert(self.allows(d, at, m, off));
            self.lemma_finish_cut(limit, room, d, at, m, off);
        } else {
            self.lemma_finish(limit, room, d);
        }
    }

    /// Ending a block with a match that was cut to what fits.
    #[verifier::rlimit(30)]
    proof fn lemma_finish_cut(self, limit: Limit, room: int, d: Draft, at: int, m: int, off: int)
        requires
            self.wf(),
            self.sound(limit, room, d),
            self.allows(d, at, m, off),
            limit == Limit::FillOutput,
            room < bound(self.len() - self.start),
            ({
                let ll = at - d.anchor;
                let behind = d.op() + 1 + len_ext(ll).len() + ll;
                let left = out_end(limit, room) - 3 - behind;
                &&& left >= 0
                &&& m <= MINMATCH + 14 + 255 * left
                &&& out_end(limit, room) + LASTLITERALS - (behind + 2) - 1 + m >= 12
            }),
        ensures
            self.ended_well(
                limit,
                room,
                d.with(self.base, at, m, off).finish(self.base, self.start, limit, room),
            ),
    {
        reveal(Scene::sound);
        let e = d.with(self.base, at, m, off);
        self.lemma_content_with(d, at, m, off);
        self.lemma_op_with(d, at, m, off);
        let ll = at - d.anchor;
        lemma_ext_len(ll);
        lemma_ext_len(m - MINMATCH);
        let run = self.len() - e.anchor;
        lemma_ext_len(run);
        assert(e.op() + 6 <= room);
        let done = e.finish(self.base, self.start, limit, room);
        if let Some((seqs, last)) = done.block {
            lemma_ext_len(last.len() as int);
            lemma_run(room - e.op(), run);
            assert(content(self.hist(), seqs) + last =~= self.base.subrange(
                self.start,
                self.start + done.consumed,
            ));
            assert(enc_block(seqs, last).len() == e.op() + 1 + len_ext(last.len() as int).len()
                + last.len());
            assert(seqs.last().mlen == m);
            assert(end_ok(seqs, last));
        }
    }

    /// A block that has just begun.
    pub proof fn lemma_begin(self, limit: Limit, room: int)
        requires
            self.wf(),
        ensures
            self.sound(limit, room, Draft { seqs: Seq::empty(), anchor: self.start }),
    {
        reveal(Scene::sound);
        assert(self.base.subrange(self.start, self.start) =~= Seq::empty());
    }

    proof fn lemma_mid_run(self, limit: Limit, room: int, s: Mid)
        requires
            self.wf(),
            s.t.wf(),
            self.sound(limit, room, s.d),
            s.d.anchor <= s.ip,
            0 <= s.ip,
            room >= 0,
        ensures
            self.ended_well(limit, room, self.mid_run(limit, room, s).0),
        decreases
                if s.ip > self.mflimit() {
                    0
                } else {
                    self.mflimit() - s.ip + 1
                },
    {
        if s.ip > self.mflimit() {
            self.lemma_finish(limit, room, s.d);
        } else {
            reveal(Scene::mid_step);
            assert(s.d.anchor >= 0) by {
                reveal(Scene::sound);
            }
            self.lemma_pick(s.t, s.ip);
            match self.pick(s.t, s.ip) {
                (None, t) => {
                    let next = Mid { t, ip: s.ip + 1 + (s.ip - s.d.anchor) / 512, ..s };
                    self.lemma_mid_run(limit, room, next);
                },
                (Some(p), t) => {
                    self.lemma_caught(p, s.d.anchor);
                    let k = self.caught(p.ip, p.off, s.d.anchor);
                    let at = p.ip - k;
                    let n = p.mlen + k;
                    let t2 = self.opening(t, at, self.prefix + s.ip);
                    if s.d.takes(limit, room, at, n) {
                        self.lemma_take(limit, room, s.d, at, n, p.off);
                        let next = Mid {
                            t: self.closing(t2, at + n),
                            d: s.d.with(self.base, at, n, p.off),
                            ip: at + n,
                        };
                        self.lemma_tables(t, at, self.prefix + s.ip);
                        self.lemma_tables(t2, at + n, 0);
                        self.lemma_mid_run(limit, room, next);
                    } else {
                        self.lemma_cut_short(limit, room, s.d, at, n, p.off);
                    }
                },
            }
        }
    }

    /// A block that `compress_mid` makes encodes its input, and the bound is
    /// room enough for it.
    pub proof fn law_mid(self, t: MidTables, limit: Limit, room: int)
        requires
            self.wf(),
            t.wf(),
            room >= 0,
        ensures
            self.ended_well(limit, room, self.mid_outcome(t, limit, room).0),
    {
        let d = Draft { seqs: Seq::empty(), anchor: self.start };
        self.lemma_begin(limit, room);
        if self.len() - self.start < MFLIMIT + 1 {
            self.lemma_finish(limit, room, d);
        } else {
            self.lemma_mid_run(limit, room, Mid { t, d, ip: self.start });
        }
    }
}

impl Scene {
    /// Taking a match, if it is long enough to be one.
    pub proof fn lemma_put(self, limit: Limit, room: int, d: Draft, at: int, n: int, off: int)
        requires
            self.wf(),
            room >= 0,
            self.sound(limit, room, d),
            n >= MINMATCH ==> self.allows(d, at, n, off),
        ensures
            match self.put(limit, room, d, at, n, off) {
                Put::Over(done) => self.ended_well(limit, room, done),
                Put::On(e) => self.sound(limit, room, e),
            },
    {
        if n >= MINMATCH {
            if d.takes(limit, room, at, n) {
                self.lemma_take(limit, room, d, at, n, off);
            } else {
                self.lemma_cut_short(limit, room, d, at, n, off);
            }
        }
    }

    /// A shorter match.
    pub proof fn lemma_shorter(self, d: Draft, at: int, m: Found, n: int)
        requires
            self.stands_at(at, m),
            n <= m.len,
            d.anchor <= at,
        ensures
            n >= MINMATCH ==> self.allows(d, at, n, m.off),
    {
    }

    /// Whether a decision keeps the block sound, or ends it well.
    pub open spec fn lazy_good(self, limit: Limit, room: int, next: LazyNext) -> bool {
        match next {
            LazyNext::End(done, _) => self.ended_well(limit, room, done),
            LazyNext::Go(t) => self.sound(limit, room, t.d),
        }
    }

    proof fn lemma_take_both_good(self, limit: Limit, room: int, s: Lazy)
        requires
            self.wf(),
            room >= 0,
            self.lazy_ok(s),
            s.spot == Spot::Three,
            self.sound(limit, room, s.d),
        ensures
            self.lazy_good(limit, room, self.take_both(limit, room, s)),
    {
        reveal(Scene::take_both);
        let n = if s.start2 < s.ip + s.m1.len {
            s.start2 - s.ip
        } else {
            s.m1.len
        };
        self.lemma_shorter(s.d, s.ip, s.m1, n);
        self.lemma_put(limit, room, s.d, s.ip, n, s.m1.off);
        if let Put::On(d) = self.put(limit, room, s.d, s.ip, n, s.m1.off) {
            self.lemma_shorter(d, s.start2, s.m2, s.m2.len);
            self.lemma_put(limit, room, d, s.start2, s.m2.len, s.m2.off);
        }
    }

    pub proof fn lemma_lazy_three_good(self, limit: Limit, room: int, tries: usize, s0: Lazy)
        requires
            self.wf(),
            self.len() <= usize::MAX,
            room >= 0,
            self.lazy_ok(s0),
            s0.spot == Spot::Three,
            self.sound(limit, room, s0.d),
        ensures
            self.lazy_good(limit, room, self.lazy_three(limit, room, tries, s0)),
    {
        reveal(Scene::lazy_three);
        self.lemma_settled(s0);
        let s1 = self.settled(s0);
        self.lemma_overlap(s1.c, s1.start2, s1.m2.len, 3, tries);
        let (start3, m3, c) = self.overlap(s1.c, s1.start2, s1.m2.len, 3, tries);
        let s = Lazy { c, ..s1 };
        if m3.len <= s.m2.len {
            self.lemma_take_both_good(limit, room, s);
        } else if start3 >= s.ip + s.m1.len + 3 {
            reveal(Scene::take_next);
            let gap = s.start2 - s.ip;
            let n = if s.start2 >= s.ip + s.m1.len {
                s.m1.len
            } else if gap < super::lazy::OPTIMAL_ML {
                suited(gap, s.m1.len, s.m2.len)
            } else {
                gap
            };
            self.lemma_shorter(s.d, s.ip, s.m1, n);
            self.lemma_put(limit, room, s.d, s.ip, n, s.m1.off);
        } else if start3 >= s.ip + s.m1.len {
            reveal(Scene::take_first);
            self.lemma_shorter(s.d, s.ip, s.m1, s.m1.len);
            self.lemma_put(limit, room, s.d, s.ip, s.m1.len, s.m1.off);
        }
    }

    proof fn lemma_lazy_run(self, limit: Limit, room: int, tries: usize, s: Lazy)
        requires
            self.wf(),
            self.len() <= usize::MAX,
            room >= 0,
            self.lazy_ok(s),
            self.sound(limit, room, s.d),
        ensures
            self.ended_well(limit, room, self.lazy_run(limit, room, tries, s).0),
        decreases self.len() - s.edge(), s.rank(),
    {
        match s.spot {
            Spot::Main => {
                if s.ip > self.mflimit() {
                    self.lemma_finish(limit, room, s.d);
                } else {
                    self.lemma_lazy_main(tries, s);
                    assert(self.lazy_main(tries, s)->Go_0.d == s.d) by {
                        reveal(Scene::lazy_main);
                    }
                    self.lemma_lazy_run(limit, room, tries, self.lazy_main(tries, s)->Go_0);
                }
            },
            Spot::Two => {
                self.lemma_lazy_two(limit, room, tries, s);
                assert(self.lazy_good(limit, room, self.lazy_two(limit, room, tries, s))) by {
                    reveal(Scene::lazy_two);
                    self.lemma_shorter(s.d, s.ip, s.m1, s.m1.len);
                    self.lemma_put(limit, room, s.d, s.ip, s.m1.len, s.m1.off);
                }
                if let LazyNext::Go(t) = self.lazy_two(limit, room, tries, s) {
                    self.lemma_lazy_run(limit, room, tries, t);
                }
            },
            Spot::Three => {
                self.lemma_lazy_three(limit, room, tries, s);
                self.lemma_lazy_three_good(limit, room, tries, s);
                if let LazyNext::Go(t) = self.lazy_three(limit, room, tries, s) {
                    self.lemma_lazy_run(limit, room, tries, t);
                }
            },
        }
    }

    /// A block that the middle levels make encodes its input, and the bound is
    /// room enough for it.
    pub proof fn law_lazy(self, c: Chains, limit: Limit, room: int, tries: usize)
        requires
            self.wf(),
            self.len() <= usize::MAX,
            c.wf(),
            room >= 0,
        ensures
            self.ended_well(limit, room, self.lazy_outcome(c, limit, room, tries).0),
    {
        let d = Draft { seqs: Seq::empty(), anchor: self.start };
        self.lemma_begin(limit, room);
        if self.len() - self.start < MFLIMIT + 1 {
            self.lemma_finish(limit, room, d);
        } else {
            let none = super::lazy::nothing();
            self.lemma_lazy_run(
                limit,
                room,
                tries,
                Lazy {
                    spot: Spot::Main,
                    c,
                    d,
                    ip: self.start,
                    m1: none,
                    start0: 0,
                    m0: none,
                    start2: 0,
                    m2: none,
                },
            );
        }
    }
}

impl Scene {
    /// Writing the steps of a route keeps the block sound, or ends it well.
    pub proof fn lemma_follow_route(self, limit: Limit, room: int, d: Draft, ip: int, steps: Seq<Step>, k: int)
        requires
            self.wf(),
            room >= 0,
            0 <= ip,
            0 <= k <= steps.len(),
            self.sound(limit, room, d),
            self.route_ok(ip, steps),
            forall|j: int| k <= j < steps.len() ==> d.anchor <= ip + (#[trigger] steps[j]).at,
        ensures
            match self.follow_route(limit, room, d, ip, steps, k) {
                Put::Over(done) => self.ended_well(limit, room, done),
                Put::On(e) => {
                    &&& self.sound(limit, room, e)
                    &&& e.anchor == d.anchor || exists|j: int|
                        k <= j < steps.len() && e.anchor == ip + (#[trigger] steps[j]).at
                            + steps[j].len
                },
            },
        decreases steps.len() - k,
    {
        if k < steps.len() {
            let s = steps[k];
            if s.len == 1 {
                self.lemma_follow_route(limit, room, d, ip, steps, k + 1);
            } else {
                self.lemma_shorter(
                    d,
                    ip + s.at,
                    Found { len: s.len, off: s.off, back: 0 },
                    s.len,
                );
                self.lemma_put(limit, room, d, ip + s.at, s.len, s.off);
                if let Put::On(e) = self.put(limit, room, d, ip + s.at, s.len, s.off) {
                    assert(e.anchor == ip + steps[k].at + steps[k].len);
                    self.lemma_follow_route(limit, room, e, ip, steps, k + 1);
                }
            }
        }
    }

    /// What a position leads to.
    pub proof fn lemma_opt_step(self, limit: Limit, room: int, f: Effort, s: Opt)
        requires
            self.wf(),
            self.len() <= usize::MAX,
            self.len() - self.start <= 0x7E00_0000,
            room >= 0,
            f.enough < OPT_NUM,
            s.c.wf(),
            s.opt.len() == OPT_ENTRIES,
            self.sound(limit, room, s.d),
            s.d.anchor <= s.ip <= self.mflimit(),
        ensures
            match self.opt_step(limit, room, f, s) {
                OptNext::End(done, _) => self.ended_well(limit, room, done),
                OptNext::Go(t) => {
                    &&& self.sound(limit, room, t.d)
                    &&& t.c.wf()
                    &&& t.opt.len() == OPT_ENTRIES
                    &&& s.ip < t.ip <= self.len()
                    &&& t.d.anchor <= t.ip
                },
            },
    {
        reveal(Scene::opt_step);
        assert(self.start <= s.d.anchor) by {
            reveal(Scene::sound);
        }
        let ll = s.ip - s.d.anchor;
        self.lemma_longer(s.c, s.ip, MINMATCH - 1, f);
        let (m, c) = self.longer(s.c, s.ip, MINMATCH - 1, f);
        if m.len == 0 {
        } else if m.len > f.enough {
            self.lemma_shorter(s.d, s.ip, m, m.len);
            self.lemma_put(limit, room, s.d, s.ip, m.len, m.off);
        } else {
            self.lemma_seeded(s.ip, ll, s.opt, m, c);
            let p0 = Plan {
                opt: super::optimal::seeded(s.opt, ll, m),
                last: m.len,
                cur: 1,
                c,
            };
            self.lemma_explore(s.ip, ll, f, p0);
            let (p, end) = self.explore(s.ip, f, p0);
            self.lemma_route(s.ip, ll, p, end);
            let steps = self.route(p, end);
            self.lemma_follow_route(limit, room, s.d, s.ip, steps, 0);
            if let Put::On(e) = self.follow_route(limit, room, s.d, s.ip, steps, 0) {
                if e.anchor != s.d.anchor {
                    let j = choose|j: int|
                        0 <= j < steps.len() && e.anchor == s.ip + (#[trigger] steps[j]).at
                            + steps[j].len;
                    let n = steps.len() - 1;
                    if j < n {
                        assert(steps[j].at + steps[j].len <= steps[n].at);
                    }
                }
            }
        }
    }

    proof fn lemma_opt_run(self, limit: Limit, room: int, f: Effort, s: Opt)
        requires
            self.wf(),
            self.len() <= usize::MAX,
            self.len() - self.start <= 0x7E00_0000,
            room >= 0,
            f.enough < OPT_NUM,
            s.c.wf(),
            s.opt.len() == OPT_ENTRIES,
            self.sound(limit, room, s.d),
            s.d.anchor <= s.ip,
        ensures
            self.ended_well(limit, room, self.opt_run(limit, room, f, s).0),
        decreases self.len() - s.ip,
    {
        if s.ip > self.mflimit() {
            self.lemma_finish(limit, room, s.d);
        } else {
            self.lemma_opt_step(limit, room, f, s);
            if let OptNext::Go(t) = self.opt_step(limit, room, f, s) {
                self.lemma_opt_run(limit, room, f, t);
            }
        }
    }

    /// A block that the upper levels make encodes its input, and the bound is
    /// room enough for it.
    pub proof fn law_optimal(self, c: Chains, limit: Limit, room: int, f: Effort)
        requires
            self.wf(),
            self.len() <= usize::MAX,
            self.len() - self.start <= 0x7E00_0000,
            c.wf(),
            room >= 0,
            f.enough < OPT_NUM,
        ensures
            self.ended_well(limit, room, self.opt_outcome(c, limit, room, f).0),
    {
        let d = Draft { seqs: Seq::empty(), anchor: self.start };
        self.lemma_begin(limit, room);
        if self.len() - self.start < MFLIMIT + 1 {
            self.lemma_finish(limit, room, d);
        } else {
            let opt = Seq::new(OPT_ENTRIES as nat, |i: int| super::optimal::unpriced());
            self.lemma_opt_run(limit, room, f, Opt { c, d, ip: self.start, opt });
        }
    }

    /// A block of any level encodes its input, and the bound is room enough for
    /// it.
    pub proof fn law_any_level(self, c: Chains, level: i32, favor: bool, limit: Limit, room: int)
        requires
            self.wf(),
            self.len() <= usize::MAX,
            self.len() - self.start <= LZ4_MAX_INPUT_SIZE,
            c.wf(),
            room >= 0,
        ensures
            self.ended_well(
                limit,
                room,
                generic_outcome(self, c, level, favor, limit, room).0,
            ),
    {
        let n = self.len() - self.start;
        if room == 0 {
        } else if n == 0 {
            let none: Seq<Sq> = Seq::empty();
            let last: Seq<u8> = Seq::empty();
            assert(content(self.hist(), none) + last =~= self.base.subrange(
                self.start,
                self.start,
            ));
            assert(enc_block(none, last).len() == 1);
            assert(end_ok(none, last));
        } else {
            let p = params_of(level);
            match p.strategy {
                Strategy::Mid => {
                    let even = Scene { little: true, ..self };
                    even.law_mid(mid_tables(c), limit, room);
                },
                Strategy::HashChain => {
                    self.law_lazy(c, limit, room, p.searches);
                },
                Strategy::Optimal => {
                    self.law_optimal(c, limit, room, effort_of(level, favor));
                },
            }
        }
    }

    /// Whether a block, if there is one, decodes to the input that it stands for,
    /// after what preceded it and with `cap` bytes of room.
    pub open spec fn reads_back(self, done: Done, prefix: int, cap: int) -> bool {
        done.block matches Some((seqs, last)) ==> decode(
            DecodeSetup { hist: self.hist(), prefix, cap, partial: false, lead: None },
            enc_block(seqs, last),
        ) == (Decoded::Done {
            out: self.base.subrange(self.start, self.start + done.consumed),
            doubt: None,
        })
    }

    proof fn lemma_reads_back(self, limit: Limit, room: int, done: Done, prefix: int, cap: int)
        requires
            self.wf(),
            self.ended_well(limit, room, done),
            0 <= prefix <= self.hist().len(),
            self.len() - self.start <= cap <= usize::MAX,
        ensures
            self.reads_back(done, prefix, cap),
    {
        if let Some((seqs, last)) = done.block {
            law_round_trip(
                DecodeSetup { hist: self.hist(), prefix, cap, partial: false, lead: None },
                enc_block(seqs, last),
                self.base.subrange(self.start, self.start + done.consumed),
            );
        }
    }

    /// A block that the lower levels make reads back as its input. Unless it was
    /// to fill its room, it stands for all of it.
    pub proof fn law_mid_round_trip(self, t: MidTables, limit: Limit, room: int, prefix: int, cap: int)
        requires
            self.wf(),
            t.wf(),
            room >= 0,
            0 <= prefix <= self.hist().len(),
            self.len() - self.start <= cap <= usize::MAX,
        ensures
            ({
                let done = self.mid_outcome(t, limit, room).0;
                &&& self.reads_back(done, prefix, cap)
                &&& done.block is Some && limit != Limit::FillOutput ==> done.consumed == self.len()
                    - self.start
            }),
    {
        self.law_mid(t, limit, room);
        self.lemma_reads_back(limit, room, self.mid_outcome(t, limit, room).0, prefix, cap);
    }

    /// A block that the middle levels make reads back as its input. Unless it was
    /// to fill its room, it stands for all of it.
    pub proof fn law_lazy_round_trip(self, c: Chains, limit: Limit, room: int, tries: usize, prefix: int, cap: int)
        requires
            self.wf(),
            self.len() <= usize::MAX,
            c.wf(),
            room >= 0,
            0 <= prefix <= self.hist().len(),
            self.len() - self.start <= cap <= usize::MAX,
        ensures
            ({
                let done = self.lazy_outcome(c, limit, room, tries).0;
                &&& self.reads_back(done, prefix, cap)
                &&& done.block is Some && limit != Limit::FillOutput ==> done.consumed == self.len()
                    - self.start
            }),
    {
        self.law_lazy(c, limit, room, tries);
        self.lemma_reads_back(limit, room, self.lazy_outcome(c, limit, room, tries).0, prefix, cap);
    }

    /// A block that the upper levels make reads back as its input. Unless it was
    /// to fill its room, it stands for all of it.
    pub proof fn law_optimal_round_trip(self, c: Chains, limit: Limit, room: int, f: Effort, prefix: int, cap: int)
        requires
            self.wf(),
            self.len() <= usize::MAX,
            self.len() - self.start <= LZ4_MAX_INPUT_SIZE,
            c.wf(),
            room >= 0,
            f.enough < OPT_NUM,
            0 <= prefix <= self.hist().len(),
            self.len() - self.start <= cap <= usize::MAX,
        ensures
            ({
                let done = self.opt_outcome(c, limit, room, f).0;
                &&& self.reads_back(done, prefix, cap)
                &&& done.block is Some && limit != Limit::FillOutput ==> done.consumed == self.len()
                    - self.start
            }),
    {
        self.law_optimal(c, limit, room, f);
        self.lemma_reads_back(limit, room, self.opt_outcome(c, limit, room, f).0, prefix, cap);
    }

    /// Decoding a block of any level, after what preceded it, gives back the
    /// input that it stands for.
    pub proof fn law_round_trip(self, c: Chains, level: i32, favor: bool, limit: Limit, room: int, prefix: int, cap: int)
        requires
            self.wf(),
            self.len() <= usize::MAX,
            c.wf(),
            room >= 0,
            0 <= prefix <= self.hist().len(),
            self.len() - self.start <= cap <= usize::MAX,
        ensures
            self.reads_back(generic_outcome(self, c, level, favor, limit, room).0, prefix, cap),
    {
        let done = generic_outcome(self, c, level, favor, limit, room).0;
        if done.block is Some {
            self.law_any_level(c, level, favor, limit, room);
            self.lemma_reads_back(limit, room, done, prefix, cap);
        }
    }
}

/// How many literals are taken where all of them do not fit.
proof fn lemma_run(avail: int, run: int)
    requires
        avail >= 1,
        run >= 0,
    ensures
        fill_run(avail) >= 0,
        1 + len_ext(run).len() + run > avail ==> fill_run(avail) <= run,
        1 + len_ext(fill_run(avail)).len() + fill_run(avail) <= avail,
        1 + len_ext(fill_run(avail) + 1).len() + fill_run(avail) + 1 > avail,
        avail >= 6 ==> fill_run(avail) >= 5,
        avail >= 10 ==> fill_run(avail) >= 9,
        avail <= 15 ==> fill_run(avail) == avail - 1,
{
    lemma_ext_len(run);
    lemma_ext_len(fill_run(avail));
    lemma_ext_len(fill_run(avail) + 1);
}

} // verus!
