//! When a block of the high-compression levels is refused for want of room.
use vstd::prelude::*;
use crate::block::compress::{bound, LZ4_MAX_INPUT_SIZE};
use crate::block::encode::lemma_ext_len;
use crate::format::{enc_block, MFLIMIT, MINMATCH};
use super::chase::{Chains, Found};
use super::lazy::{nothing, suited, Lazy, LazyNext, Put, Spot};
use super::mid::Mid;
use super::optimal::{seeded, unpriced, Effort, Opt, OptNext, Plan, Step, OPT_ENTRIES, OPT_NUM};
use super::output::{Done, Draft};
use super::scene::Scene;
use super::{effort_of, generic_outcome, mid_tables, params_of, Limit, Strategy};

verus! {

/// Whether `e` goes on from `d`.
spec fn beyond(e: Draft, d: Draft) -> bool {
    e.op() >= d.op() && e.seqs.len() >= d.seqs.len()
}

/// The least that a block with these sequences takes.
spec fn least(d: Draft) -> int {
    if d.seqs.len() > 0 {
        d.op() + 6
    } else {
        d.op()
    }
}

/// Whether a block is lost in `room` bytes, while with room enough it goes on
/// as `e`.
spec fn lost(done: Done, e: Draft, room: int) -> bool {
    done.block is None && e.seqs.len() > 0 && e.op() + 6 > room
}

/// Whether putting a match in `room` bytes comes to the same as with room
/// enough, or does not fit.
spec fn same_put(narrow: Put, wide: Put, d: Draft, room: int) -> bool {
    wide matches Put::On(e) && beyond(e, d) && (narrow == wide || (
    narrow matches Put::Over(done) && lost(done, e, room)))
}

spec fn same_lazy(narrow: LazyNext, wide: LazyNext, s: Lazy, room: int) -> bool {
    wide matches LazyNext::Go(t) && beyond(t.d, s.d) && (narrow == wide || (
    narrow matches LazyNext::End(done, _) && lost(done, t.d, room)))
}

/// Whether `done` is the block that `wide` is, if that fits, and nothing
/// otherwise.
pub open spec fn exactly(done: Done, wide: Done, room: int) -> bool {
    wide.block matches Some((seqs, last)) && done.block == if enc_block(seqs, last).len() <= room {
        Some((seqs, last))
    } else {
        None
    }
}

/// The same of a parse that stands at `d`.
spec fn exactly_from(done: Done, wide: Done, room: int, d: Draft) -> bool {
    &&& exactly(done, wide, room)
    &&& wide.block matches Some((seqs, last)) ==> enc_block(seqs, last).len() >= least(d)
}

impl Scene {
    proof fn lemma_same_put(self, limit: Limit, room: int, ample: int, d: Draft, at: int, n: int, off: int)
        requires
            self.wf(),
            limit != Limit::FillOutput,
            ample >= bound(self.len() - self.start),
            self.sound(limit, ample, d),
            n >= MINMATCH ==> self.allows(d, at, n, off),
        ensures
            same_put(
                self.put(limit, room, d, at, n, off),
                self.put(limit, ample, d, at, n, off),
                d,
                room,
            ),
    {
        if n >= MINMATCH {
            self.lemma_roomy(limit, ample, d, at, n, off);
            assert(self.start <= d.anchor && d.op() <= (d.anchor - self.start) + (d.anchor
                - self.start) / 255) by {
                reveal(Scene::sound);
            }
            self.lemma_op_with(d, at, n, off);
            lemma_ext_len(at - d.anchor);
            lemma_ext_len(n - MINMATCH);
        }
    }

    proof fn lemma_same_finish(self, limit: Limit, room: int, ample: int, d: Draft)
        requires
            self.wf(),
            limit != Limit::FillOutput,
            ample >= bound(self.len() - self.start),
            self.sound(limit, ample, d),
        ensures
            exactly_from(
                d.finish(self.base, self.start, limit, room),
                d.finish(self.base, self.start, limit, ample),
                room,
                d,
            ),
    {
        self.lemma_finish(limit, ample, d);
        reveal(Scene::sound);
        lemma_ext_len(self.len() - d.anchor);
    }

    proof fn lemma_same_both(self, limit: Limit, room: int, ample: int, s: Lazy)
        requires
            self.wf(),
            limit != Limit::FillOutput,
            ample >= bound(self.len() - self.start),
            ample >= 0,
            self.lazy_ok(s),
            s.spot == Spot::Three,
            self.sound(limit, ample, s.d),
        ensures
            same_lazy(self.take_both(limit, room, s), self.take_both(limit, ample, s), s, room),
    {
        reveal(Scene::take_both);
        let n = if s.start2 < s.ip + s.m1.len {
            s.start2 - s.ip
        } else {
            s.m1.len
        };
        self.lemma_shorter(s.d, s.ip, s.m1, n);
        self.lemma_same_put(limit, room, ample, s.d, s.ip, n, s.m1.off);
        self.lemma_put(limit, ample, s.d, s.ip, n, s.m1.off);
        if let Put::On(d) = self.put(limit, ample, s.d, s.ip, n, s.m1.off) {
            self.lemma_shorter(d, s.start2, s.m2, s.m2.len);
            self.lemma_same_put(limit, room, ample, d, s.start2, s.m2.len, s.m2.off);
        }
    }

    proof fn lemma_same_three(self, limit: Limit, room: int, ample: int, tries: usize, s0: Lazy)
        requires
            self.wf(),
            self.len() <= usize::MAX,
            limit != Limit::FillOutput,
            ample >= bound(self.len() - self.start),
            ample >= 0,
            self.lazy_ok(s0),
            s0.spot == Spot::Three,
            self.sound(limit, ample, s0.d),
        ensures
            same_lazy(
                self.lazy_three(limit, room, tries, s0),
                self.lazy_three(limit, ample, tries, s0),
                s0,
                room,
            ),
    {
        reveal(Scene::lazy_three);
        self.lemma_settled(s0);
        let s1 = self.settled(s0);
        self.lemma_overlap(s1.c, s1.start2, s1.m2.len, 3, tries);
        let (start3, m3, c) = self.overlap(s1.c, s1.start2, s1.m2.len, 3, tries);
        let s = Lazy { c, ..s1 };
        if m3.len <= s.m2.len {
            self.lemma_same_both(limit, room, ample, s);
        } else if start3 >= s.ip + s.m1.len + 3 {
            reveal(Scene::take_next);
            let gap = s.start2 - s.ip;
            let n = if s.start2 >= s.ip + s.m1.len {
                s.m1.len
            } else if gap < super::lazy::OPTIMAL_ML {
                suited(gap, s.m1.len, s.m2.len)
            } else {
                gap
            };
            self.lemma_shorter(s.d, s.ip, s.m1, n);
            self.lemma_same_put(limit, room, ample, s.d, s.ip, n, s.m1.off);
        } else if start3 >= s.ip + s.m1.len {
            reveal(Scene::take_first);
            self.lemma_shorter(s.d, s.ip, s.m1, s.m1.len);
            self.lemma_same_put(limit, room, ample, s.d, s.ip, s.m1.len, s.m1.off);
        }
    }

    proof fn lemma_same_two(self, limit: Limit, room: int, ample: int, tries: usize, s: Lazy)
        requires
            self.wf(),
            self.len() <= usize::MAX,
            limit != Limit::FillOutput,
            ample >= bound(self.len() - self.start),
            ample >= 0,
            self.lazy_ok(s),
            s.spot == Spot::Two,
            self.sound(limit, ample, s.d),
        ensures
            same_lazy(
                self.lazy_two(limit, room, tries, s),
                self.lazy_two(limit, ample, tries, s),
                s,
                room,
            ),
            self.lazy_good(limit, ample, self.lazy_two(limit, ample, tries, s)),
    {
        reveal(Scene::lazy_two);
        self.lemma_shorter(s.d, s.ip, s.m1, s.m1.len);
        self.lemma_put(limit, ample, s.d, s.ip, s.m1.len, s.m1.off);
        self.lemma_same_put(limit, room, ample, s.d, s.ip, s.m1.len, s.m1.off);
    }

    proof fn lemma_same_lazy_run(self, limit: Limit, room: int, ample: int, tries: usize, s: Lazy)
        requires
            self.wf(),
            self.len() <= usize::MAX,
            limit != Limit::FillOutput,
            ample >= bound(self.len() - self.start),
            ample >= 0,
            self.lazy_ok(s),
            self.sound(limit, ample, s.d),
        ensures
            exactly_from(
                self.lazy_run(limit, room, tries, s).0,
                self.lazy_run(limit, ample, tries, s).0,
                room,
                s.d,
            ),
        decreases self.len() - s.edge(), s.rank(),
    {
        if s.spot == Spot::Main && s.ip > self.mflimit() {
            self.lemma_same_finish(limit, room, ample, s.d);
        } else {
            match s.spot {
                Spot::Main => {
                    self.lemma_lazy_main(tries, s);
                    let t = self.lazy_main(tries, s)->Go_0;
                    assert(t.d == s.d) by {
                        reveal(Scene::lazy_main);
                    }
                    self.lemma_same_lazy_run(limit, room, ample, tries, t);
                },
                Spot::Two => {
                    self.lemma_lazy_two(limit, ample, tries, s);
                    self.lemma_same_two(limit, room, ample, tries, s);
                    let t = self.lazy_two(limit, ample, tries, s)->Go_0;
                    self.lemma_same_lazy_run(limit, room, ample, tries, t);
                },
                Spot::Three => {
                    self.lemma_lazy_three(limit, ample, tries, s);
                    self.lemma_same_three(limit, room, ample, tries, s);
                    self.lemma_lazy_three_good(limit, ample, tries, s);
                    let t = self.lazy_three(limit, ample, tries, s)->Go_0;
                    self.lemma_same_lazy_run(limit, room, ample, tries, t);
                },
            }
        }
    }

    proof fn lemma_same_mid_run(self, limit: Limit, room: int, ample: int, s: Mid)
        requires
            self.wf(),
            s.t.wf(),
            limit != Limit::FillOutput,
            ample >= bound(self.len() - self.start),
            ample >= 0,
            self.sound(limit, ample, s.d),
            s.d.anchor <= s.ip,
            0 <= s.ip,
        ensures
            exactly_from(
                self.mid_run(limit, room, s).0,
                self.mid_run(limit, ample, s).0,
                room,
                s.d,
            ),
        decreases
                if s.ip > self.mflimit() {
                    0
                } else {
                    self.mflimit() - s.ip + 1
                },
    {
        if s.ip > self.mflimit() {
            self.lemma_same_finish(limit, room, ample, s.d);
        } else {
            reveal(Scene::mid_step);
            assert(s.d.anchor >= 0) by {
                reveal(Scene::sound);
            }
            self.lemma_pick(s.t, s.ip);
            match self.pick(s.t, s.ip) {
                (None, t) => {
                    let next = Mid { t, ip: s.ip + 1 + (s.ip - s.d.anchor) / 512, ..s };
                    self.lemma_same_mid_run(limit, room, ample, next);
                },
                (Some(p), t) => {
                    self.lemma_caught(p, s.d.anchor);
                    let k = self.caught(p.ip, p.off, s.d.anchor);
                    let at = p.ip - k;
                    let n = p.mlen + k;
                    let t2 = self.opening(t, at, self.prefix + s.ip);
                    self.lemma_same_put(limit, room, ample, s.d, at, n, p.off);
                    self.lemma_put(limit, ample, s.d, at, n, p.off);
                    let next = Mid {
                        t: self.closing(t2, at + n),
                        d: s.d.with(self.base, at, n, p.off),
                        ip: at + n,
                    };
                    self.lemma_tables(t, at, self.prefix + s.ip);
                    self.lemma_tables(t2, at + n, 0);
                    self.lemma_same_mid_run(limit, room, ample, next);
                },
            }
        }
    }

    proof fn lemma_same_route(self, limit: Limit, room: int, ample: int, d: Draft, ip: int, steps: Seq<Step>, k: int)
        requires
            self.wf(),
            limit != Limit::FillOutput,
            ample >= bound(self.len() - self.start),
            ample >= 0,
            0 <= ip,
            0 <= k <= steps.len(),
            self.sound(limit, ample, d),
            self.route_ok(ip, steps),
            forall|j: int| k <= j < steps.len() ==> d.anchor <= ip + (#[trigger] steps[j]).at,
        ensures
            same_put(
                self.follow_route(limit, room, d, ip, steps, k),
                self.follow_route(limit, ample, d, ip, steps, k),
                d,
                room,
            ),
        decreases steps.len() - k,
    {
        if k < steps.len() {
            let s = steps[k];
            if s.len == 1 {
                self.lemma_same_route(limit, room, ample, d, ip, steps, k + 1);
            } else {
                self.lemma_shorter(
                    d,
                    ip + s.at,
                    Found { len: s.len, off: s.off, back: 0 },
                    s.len,
                );
                self.lemma_put(limit, ample, d, ip + s.at, s.len, s.off);
                self.lemma_same_put(limit, room, ample, d, ip + s.at, s.len, s.off);
                if let Put::On(e) = self.put(limit, ample, d, ip + s.at, s.len, s.off) {
                    assert(e.anchor == ip + steps[k].at + steps[k].len);
                    self.lemma_same_route(limit, room, ample, e, ip, steps, k + 1);
                }
            }
        }
    }

    proof fn lemma_same_opt_step(self, limit: Limit, room: int, ample: int, f: Effort, s: Opt)
        requires
            self.wf(),
            self.len() <= usize::MAX,
            self.len() - self.start <= 0x7E00_0000,
            limit != Limit::FillOutput,
            ample >= bound(self.len() - self.start),
            ample >= 0,
            f.enough < OPT_NUM,
            s.c.wf(),
            s.opt.len() == OPT_ENTRIES,
            self.sound(limit, ample, s.d),
            s.d.anchor <= s.ip <= self.mflimit(),
        ensures
            self.opt_step(limit, ample, f, s) matches OptNext::Go(t) && beyond(t.d, s.d) && (
            self.opt_step(limit, room, f, s) == OptNext::Go(t) || (self.opt_step(
                limit,
                room,
                f,
                s,
            ) matches OptNext::End(done, _) && lost(done, t.d, room))),
    {
        reveal(Scene::opt_step);
        assert(self.start <= s.d.anchor) by {
            reveal(Scene::sound);
        }
        let ll = s.ip - s.d.anchor;
        self.lemma_longer(s.c, s.ip, MINMATCH - 1, f);
        let (m, c) = self.longer(s.c, s.ip, MINMATCH - 1, f);
        if m.len == 0 {
        } else if m.len > f.enough {
            self.lemma_shorter(s.d, s.ip, m, m.len);
            self.lemma_same_put(limit, room, ample, s.d, s.ip, m.len, m.off);
        } else {
            self.lemma_seeded(s.ip, ll, s.opt, m, c);
            let p0 = Plan { opt: seeded(s.opt, ll, m), last: m.len, cur: 1, c };
            self.lemma_explore(s.ip, ll, f, p0);
            let (p, end) = self.explore(s.ip, f, p0);
            self.lemma_route(s.ip, ll, p, end);
            let steps = self.route(p, end);
            self.lemma_same_route(limit, room, ample, s.d, s.ip, steps, 0);
        }
    }

    proof fn lemma_same_opt_run(self, limit: Limit, room: int, ample: int, f: Effort, s: Opt)
        requires
            self.wf(),
            self.len() <= usize::MAX,
            self.len() - self.start <= 0x7E00_0000,
            limit != Limit::FillOutput,
            ample >= bound(self.len() - self.start),
            ample >= 0,
            f.enough < OPT_NUM,
            s.c.wf(),
            s.opt.len() == OPT_ENTRIES,
            self.sound(limit, ample, s.d),
            s.d.anchor <= s.ip,
        ensures
            exactly_from(
                self.opt_run(limit, room, f, s).0,
                self.opt_run(limit, ample, f, s).0,
                room,
                s.d,
            ),
        decreases self.len() - s.ip,
    {
        if s.ip > self.mflimit() {
            self.lemma_same_finish(limit, room, ample, s.d);
        } else {
            self.lemma_opt_step(limit, ample, f, s);
            self.lemma_same_opt_step(limit, room, ample, f, s);
            let t = self.opt_step(limit, ample, f, s)->Go_0;
            self.lemma_same_opt_run(limit, room, ample, f, t);
        }
    }

    /// At every level a block is refused exactly if it does not fit: the room
    /// plays no part in how it is parsed, unless it is to be filled.
    pub proof fn law_level_room_is_exact(self, c: Chains, level: i32, favor: bool, limit: Limit, room: int, ample: int)
        requires
            self.wf(),
            self.len() <= usize::MAX,
            self.len() - self.start <= LZ4_MAX_INPUT_SIZE,
            c.wf(),
            limit != Limit::FillOutput,
            room >= 0,
            ample >= bound(self.len() - self.start),
        ensures
            exactly(
                generic_outcome(self, c, level, favor, limit, room).0,
                generic_outcome(self, c, level, favor, limit, ample).0,
                room,
            ),
    {
        let n = self.len() - self.start;
        let p = params_of(level);
        let d = Draft { seqs: Seq::empty(), anchor: self.start };
        self.lemma_begin(limit, ample);
        lemma_ext_len(n);
        if room == 0 {
            self.law_any_level(c, level, favor, limit, ample);
            if let Some((seqs, last)) = generic_outcome(self, c, level, favor, limit, ample).0.block {
                assert(enc_block(seqs, last).len() >= 1);
            }
        } else if n > 0 {
            match p.strategy {
                Strategy::Mid => {
                    let even = Scene { little: true, ..self };
                    even.lemma_begin(limit, ample);
                    if n < MFLIMIT + 1 {
                        even.lemma_same_finish(limit, room, ample, d);
                    } else {
                        even.lemma_same_mid_run(
                            limit,
                            room,
                            ample,
                            Mid { t: mid_tables(c), d, ip: self.start },
                        );
                    }
                },
                Strategy::HashChain => {
                    if n < MFLIMIT + 1 {
                        self.lemma_same_finish(limit, room, ample, d);
                    } else {
                        self.lemma_same_lazy_run(
                            limit,
                            room,
                            ample,
                            p.searches,
                            Lazy {
                                spot: Spot::Main,
                                c,
                                d,
                                ip: self.start,
                                m1: nothing(),
                                start0: 0,
                                m0: nothing(),
                                start2: 0,
                                m2: nothing(),
                            },
                        );
                    }
                },
                Strategy::Optimal => {
                    if n < MFLIMIT + 1 {
                        self.lemma_same_finish(limit, room, ample, d);
                    } else {
                        let opt = Seq::new(OPT_ENTRIES as nat, |i: int| unpriced());
                        self.lemma_same_opt_run(
                            limit,
                            room,
                            ample,
                            effort_of(level, favor),
                            Opt { c, d, ip: self.start, opt },
                        );
                    }
                },
            }
        }
    }
}

} // verus!
