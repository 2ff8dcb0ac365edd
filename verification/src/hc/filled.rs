//! Where a block of the high-compression levels stops that is to fill its room.
use vstd::prelude::*;
use crate::block::compress::{bound, LZ4_MAX_INPUT_SIZE};
use crate::block::encode::lemma_ext_len;
use crate::block::filled::first_of;
use crate::format::{enc_seqs, Sq, MFLIMIT, MINMATCH};
use super::chase::{Chains, Found};
use super::lazy::{nothing, suited, Lazy, LazyNext, Put, Spot};
use super::mid::Mid;
use super::optimal::{seeded, unpriced, Effort, Opt, OptNext, Plan, Step, OPT_ENTRIES, OPT_NUM};
use super::output::{Done, Draft};
use super::scene::Scene;
use super::{effort_of, generic_outcome, mid_tables, params_of, Limit, Strategy};

verus! {

/// Which of `all` is the first that `seqs` do not hold as it is.
pub open spec fn first_missing(seqs: Seq<Sq>, all: Seq<Sq>) -> int {
    let k = seqs.len() as int;
    if k > 0 && seqs[k - 1] != all[k - 1] {
        k - 1
    } else {
        k
    }
}

/// Whether `seqs` are the first of `all`, the last of them perhaps with its match
/// cut, and stop where the next would leave less than eleven bytes of the room:
/// the five that are held back, a token and five last literals.
pub open spec fn stops_at(seqs: Seq<Sq>, all: Seq<Sq>, room: int) -> bool {
    let j = first_missing(seqs, all);
    &&& first_of(seqs, all)
    &&& j < all.len() ==> enc_seqs(all.take(j + 1)).len() + 11 > room
}

/// Whether `w` are the first of `all`.
spec fn leading(w: Seq<Sq>, all: Seq<Sq>) -> bool {
    w.len() <= all.len() && all.take(w.len() as int) == w
}

/// Whether a block that ended with `seqs` ended for want of room, while with room
/// enough it went on as `w`.
spec fn pressed(seqs: Seq<Sq>, w: Seq<Sq>, room: int) -> bool {
    let j = first_missing(seqs, w);
    &&& first_of(seqs, w)
    &&& (if j < w.len() {
        enc_seqs(w.take(j + 1)).len()
    } else {
        enc_seqs(w).len()
    }) + 11 > room
}

proof fn lemma_enc_grows(all: Seq<Sq>, a: int, b: int)
    requires
        0 <= a <= b <= all.len(),
    ensures
        enc_seqs(all.take(a)).len() <= enc_seqs(all.take(b)).len(),
    decreases b,
{
    if a < b {
        lemma_enc_grows(all, a, b - 1);
        assert(all.take(b).drop_last() =~= all.take(b - 1));
    }
}

proof fn lemma_leading(u: Seq<Sq>, w: Seq<Sq>, all: Seq<Sq>)
    requires
        leading(u, w),
        leading(w, all),
    ensures
        leading(u, all),
{
    assert(all.take(u.len() as int) =~= w.take(u.len() as int));
}

/// What stopped short of the first sequences stopped short of all.
proof fn lemma_pressed(seqs: Seq<Sq>, w: Seq<Sq>, all: Seq<Sq>, room: int)
    requires
        pressed(seqs, w, room),
        leading(w, all),
    ensures
        stops_at(seqs, all, room),
        pressed(seqs, all, room),
{
    let n = w.len() as int;
    assert forall|i: int| 0 <= i < n implies #[trigger] w[i] == all[i] by {
        assert(all.take(n)[i] == all[i]);
    }
    let j = first_missing(seqs, w);
    assert(first_missing(seqs, all) == j);
    if j < n {
        assert(all.take(j + 1) =~= w.take(j + 1));
    } else {
        if j < all.len() {
            lemma_enc_grows(all, n, j + 1);
        }
        lemma_enc_grows(all, n, all.len() as int);
        assert(all.take(all.len() as int) =~= all);
    }
}

/// Whether `done`, if it is a block, stopped short of `w` for want of room.
spec fn cut_down(done: Done, w: Seq<Sq>, room: int) -> bool {
    done.block matches Some((seqs, _)) ==> pressed(seqs, w, room)
}

spec fn filled_put(narrow: Put, wide: Put, d: Draft, room: int) -> bool {
    wide matches Put::On(e) && leading(d.seqs, e.seqs) && (narrow == wide || (
    narrow matches Put::Over(done) && cut_down(done, e.seqs, room)))
}

spec fn filled_lazy(narrow: LazyNext, wide: LazyNext, s: Lazy, room: int) -> bool {
    wide matches LazyNext::Go(t) && leading(s.d.seqs, t.d.seqs) && (narrow == wide || (
    narrow matches LazyNext::End(done, _) && cut_down(done, t.d.seqs, room)))
}

/// Whether `done` holds all sequences of `wide`, or stops where the next does not
/// fit.
pub open spec fn filled_from(done: Done, wide: Done, room: int) -> bool {
    wide.block matches Some((all, _)) && (done.block matches Some((seqs, _)) ==> stops_at(
        seqs,
        all,
        room,
    ))
}

/// The same of a parse that stands at `d`.
spec fn filled_on(done: Done, wide: Done, room: int, d: Draft) -> bool {
    filled_from(done, wide, room) && (wide.block matches Some((all, _)) ==> leading(d.seqs, all))
}

impl Scene {
    #[verifier::rlimit(30)]
    proof fn lemma_filled_put(self, room: int, ample: int, d: Draft, at: int, n: int, off: int)
        requires
            self.wf(),
            ample >= bound(self.len() - self.start),
            self.sound(Limit::NotLimited, ample, d),
            n >= MINMATCH ==> self.allows(d, at, n, off),
        ensures
            filled_put(
                self.put(Limit::FillOutput, room, d, at, n, off),
                self.put(Limit::NotLimited, ample, d, at, n, off),
                d,
                room,
            ),
    {
        assert(d.seqs.take(d.seqs.len() as int) =~= d.seqs);
        if n >= MINMATCH {
            self.lemma_roomy(Limit::NotLimited, ample, d, at, n, off);
            assert(self.start <= d.anchor && d.op() <= (d.anchor - self.start) + (d.anchor
                - self.start) / 255) by {
                reveal(Scene::sound);
            }
            self.lemma_op_with(d, at, n, off);
            lemma_ext_len(at - d.anchor);
            lemma_ext_len(n - MINMATCH);
            let e = d.with(self.base, at, n, off);
            let k = d.seqs.len() as int;
            assert(e.seqs.take(k) =~= d.seqs);
            assert(e.seqs.take(k + 1) =~= e.seqs);
            if let Put::Over(done) = self.put(Limit::FillOutput, room, d, at, n, off) {
                assert(e.op() + 11 > room);
                if let Some((seqs, _)) = done.block {
                    assert(seqs == d.seqs || seqs.len() == k + 1);
                    assert forall|i: int| 0 <= i < k implies #[trigger] seqs[i] == e.seqs[i] by {
                        assert(seqs[i] == d.seqs[i]);
                    }
                }
            }
        }
    }

    proof fn lemma_filled_finish(self, room: int, ample: int, d: Draft)
        requires
            self.wf(),
            ample >= bound(self.len() - self.start),
            self.sound(Limit::NotLimited, ample, d),
        ensures
            filled_on(
                d.finish(self.base, self.start, Limit::FillOutput, room),
                d.finish(self.base, self.start, Limit::NotLimited, ample),
                room,
                d,
            ),
    {
        self.lemma_finish(Limit::NotLimited, ample, d);
        assert(d.seqs.take(d.seqs.len() as int) =~= d.seqs);
    }

    proof fn lemma_filled_both(self, room: int, ample: int, s: Lazy)
        requires
            self.wf(),
            ample >= bound(self.len() - self.start),
            ample >= 0,
            self.lazy_ok(s),
            s.spot == Spot::Three,
            self.sound(Limit::NotLimited, ample, s.d),
        ensures
            filled_lazy(
                self.take_both(Limit::FillOutput, room, s),
                self.take_both(Limit::NotLimited, ample, s),
                s,
                room,
            ),
    {
        reveal(Scene::take_both);
        let n = if s.start2 < s.ip + s.m1.len {
            s.start2 - s.ip
        } else {
            s.m1.len
        };
        self.lemma_shorter(s.d, s.ip, s.m1, n);
        self.lemma_filled_put(room, ample, s.d, s.ip, n, s.m1.off);
        self.lemma_put(Limit::NotLimited, ample, s.d, s.ip, n, s.m1.off);
        if let Put::On(d) = self.put(Limit::NotLimited, ample, s.d, s.ip, n, s.m1.off) {
            self.lemma_shorter(d, s.start2, s.m2, s.m2.len);
            self.lemma_filled_put(room, ample, d, s.start2, s.m2.len, s.m2.off);
            if let Put::On(e) = self.put(
                Limit::NotLimited,
                ample,
                d,
                s.start2,
                s.m2.len,
                s.m2.off,
            ) {
                lemma_leading(s.d.seqs, d.seqs, e.seqs);
                if let Put::Over(done) = self.put(
                    Limit::FillOutput,
                    room,
                    s.d,
                    s.ip,
                    n,
                    s.m1.off,
                ) {
                    if let Some((seqs, _)) = done.block {
                        lemma_pressed(seqs, d.seqs, e.seqs, room);
                    }
                }
            }
        }
    }

    proof fn lemma_filled_three(self, room: int, ample: int, tries: usize, s0: Lazy)
        requires
            self.wf(),
            self.len() <= usize::MAX,
            ample >= bound(self.len() - self.start),
            ample >= 0,
            self.lazy_ok(s0),
            s0.spot == Spot::Three,
            self.sound(Limit::NotLimited, ample, s0.d),
        ensures
            filled_lazy(
                self.lazy_three(Limit::FillOutput, room, tries, s0),
                self.lazy_three(Limit::NotLimited, ample, tries, s0),
                s0,
                room,
            ),
    {
        reveal(Scene::lazy_three);
        self.lemma_settled(s0);
        let s1 = self.settled(s0);
        self.lemma_overlap(s1.c, s1.start2, s1.m2.len, 3, tries);
        let (start3, m3, c) = self.overlap(s1.c, s1.start2, s1.m2.len, 3, tries);
        let s = Lazy { c, ..s1 };
        assert(s.d.seqs.take(s.d.seqs.len() as int) =~= s.d.seqs);
        if m3.len <= s.m2.len {
            self.lemma_filled_both(room, ample, s);
        } else if start3 >= s.ip + s.m1.len + 3 {
            reveal(Scene::take_next);
            let gap = s.start2 - s.ip;
            let n = if s.start2 >= s.ip + s.m1.len {
                s.m1.len
            } else if gap < super::lazy::OPTIMAL_ML {
                suited(gap, s.m1.len, s.m2.len)
            } else {
                gap
            };
            self.lemma_shorter(s.d, s.ip, s.m1, n);
            self.lemma_filled_put(room, ample, s.d, s.ip, n, s.m1.off);
        } else if start3 >= s.ip + s.m1.len {
            reveal(Scene::take_first);
            self.lemma_shorter(s.d, s.ip, s.m1, s.m1.len);
            self.lemma_filled_put(room, ample, s.d, s.ip, s.m1.len, s.m1.off);
        }
    }

    proof fn lemma_filled_two(self, room: int, ample: int, tries: usize, s: Lazy)
        requires
            self.wf(),
            self.len() <= usize::MAX,
            ample >= bound(self.len() - self.start),
            ample >= 0,
            self.lazy_ok(s),
            s.spot == Spot::Two,
            self.sound(Limit::NotLimited, ample, s.d),
        ensures
            filled_lazy(
                self.lazy_two(Limit::FillOutput, room, tries, s),
                self.lazy_two(Limit::NotLimited, ample, tries, s),
                s,
                room,
            ),
            self.lazy_good(
                Limit::NotLimited,
                ample,
                self.lazy_two(Limit::NotLimited, ample, tries, s),
            ),
    {
        reveal(Scene::lazy_two);
        assert(s.d.seqs.take(s.d.seqs.len() as int) =~= s.d.seqs);
        self.lemma_shorter(s.d, s.ip, s.m1, s.m1.len);
        self.lemma_put(Limit::NotLimited, ample, s.d, s.ip, s.m1.len, s.m1.off);
        self.lemma_filled_put(room, ample, s.d, s.ip, s.m1.len, s.m1.off);
    }

    /// A parse that goes on from where a step has led.
    proof fn lemma_filled_join(done: Done, wide: Done, room: int, d: Draft, t: Draft)
        requires
            leading(d.seqs, t.seqs),
            wide.block matches Some((all, _)) && leading(t.seqs, all),
            filled_from(done, wide, room) || cut_down(done, t.seqs, room),
        ensures
            filled_on(done, wide, room, d),
    {
        if let Some((all, _)) = wide.block {
            lemma_leading(d.seqs, t.seqs, all);
            if let Some((seqs, _)) = done.block {
                if cut_down(done, t.seqs, room) {
                    lemma_pressed(seqs, t.seqs, all, room);
                }
            }
        }
    }

    proof fn lemma_filled_lazy_run(self, room: int, ample: int, tries: usize, s: Lazy)
        requires
            self.wf(),
            self.len() <= usize::MAX,
            ample >= bound(self.len() - self.start),
            ample >= 0,
            self.lazy_ok(s),
            self.sound(Limit::NotLimited, ample, s.d),
        ensures
            filled_on(
                self.lazy_run(Limit::FillOutput, room, tries, s).0,
                self.lazy_run(Limit::NotLimited, ample, tries, s).0,
                room,
                s.d,
            ),
        decreases self.len() - s.edge(), s.rank(),
    {
        let wide = Limit::NotLimited;
        let done = self.lazy_run(Limit::FillOutput, room, tries, s).0;
        let all = self.lazy_run(wide, ample, tries, s).0;
        assert(s.d.seqs.take(s.d.seqs.len() as int) =~= s.d.seqs);
        if s.spot == Spot::Main && s.ip > self.mflimit() {
            self.lemma_filled_finish(room, ample, s.d);
        } else {
            match s.spot {
                Spot::Main => {
                    self.lemma_lazy_main(tries, s);
                    let t = self.lazy_main(tries, s)->Go_0;
                    assert(t.d == s.d) by {
                        reveal(Scene::lazy_main);
                    }
                    self.lemma_filled_lazy_run(room, ample, tries, t);
                },
                Spot::Two => {
                    self.lemma_lazy_two(wide, ample, tries, s);
                    self.lemma_filled_two(room, ample, tries, s);
                    let t = self.lazy_two(wide, ample, tries, s)->Go_0;
                    self.lemma_filled_lazy_run(room, ample, tries, t);
                    Self::lemma_filled_join(done, all, room, s.d, t.d);
                },
                Spot::Three => {
                    self.lemma_lazy_three(wide, ample, tries, s);
                    self.lemma_filled_three(room, ample, tries, s);
                    self.lemma_lazy_three_good(wide, ample, tries, s);
                    let t = self.lazy_three(wide, ample, tries, s)->Go_0;
                    self.lemma_filled_lazy_run(room, ample, tries, t);
                    Self::lemma_filled_join(done, all, room, s.d, t.d);
                },
            }
        }
    }

    proof fn lemma_filled_mid_run(self, room: int, ample: int, s: Mid)
        requires
            self.wf(),
            s.t.wf(),
            ample >= bound(self.len() - self.start),
            ample >= 0,
            self.sound(Limit::NotLimited, ample, s.d),
            s.d.anchor <= s.ip,
            0 <= s.ip,
        ensures
            filled_on(
                self.mid_run(Limit::FillOutput, room, s).0,
                self.mid_run(Limit::NotLimited, ample, s).0,
                room,
                s.d,
            ),
        decreases
                if s.ip > self.mflimit() {
                    0
                } else {
                    self.mflimit() - s.ip + 1
                },
    {
        let wide = Limit::NotLimited;
        let done = self.mid_run(Limit::FillOutput, room, s).0;
        let all = self.mid_run(wide, ample, s).0;
        assert(s.d.seqs.take(s.d.seqs.len() as int) =~= s.d.seqs);
        if s.ip > self.mflimit() {
            self.lemma_filled_finish(room, ample, s.d);
        } else {
            reveal(Scene::mid_step);
            assert(s.d.anchor >= 0) by {
                reveal(Scene::sound);
            }
            self.lemma_pick(s.t, s.ip);
            match self.pick(s.t, s.ip) {
                (None, t) => {
                    let next = Mid { t, ip: s.ip + 1 + (s.ip - s.d.anchor) / 512, ..s };
                    self.lemma_filled_mid_run(room, ample, next);
                },
                (Some(p), t) => {
                    self.lemma_caught(p, s.d.anchor);
                    let k = self.caught(p.ip, p.off, s.d.anchor);
                    let at = p.ip - k;
                    let n = p.mlen + k;
                    let t2 = self.opening(t, at, self.prefix + s.ip);
                    self.lemma_filled_put(room, ample, s.d, at, n, p.off);
                    self.lemma_put(wide, ample, s.d, at, n, p.off);
                    let next = Mid {
                        t: self.closing(t2, at + n),
                        d: s.d.with(self.base, at, n, p.off),
                        ip: at + n,
                    };
                    self.lemma_tables(t, at, self.prefix + s.ip);
                    self.lemma_tables(t2, at + n, 0);
                    self.lemma_filled_mid_run(room, ample, next);
                    Self::lemma_filled_join(done, all, room, s.d, next.d);
                },
            }
        }
    }

    proof fn lemma_filled_route(self, room: int, ample: int, d: Draft, ip: int, steps: Seq<Step>, k: int)
        requires
            self.wf(),
            ample >= bound(self.len() - self.start),
            ample >= 0,
            0 <= ip,
            0 <= k <= steps.len(),
            self.sound(Limit::NotLimited, ample, d),
            self.route_ok(ip, steps),
            forall|j: int| k <= j < steps.len() ==> d.anchor <= ip + (#[trigger] steps[j]).at,
        ensures
            filled_put(
                self.follow_route(Limit::FillOutput, room, d, ip, steps, k),
                self.follow_route(Limit::NotLimited, ample, d, ip, steps, k),
                d,
                room,
            ),
        decreases steps.len() - k,
    {
        let wide = Limit::NotLimited;
        assert(d.seqs.take(d.seqs.len() as int) =~= d.seqs);
        if k < steps.len() {
            let s = steps[k];
            if s.len == 1 {
                self.lemma_filled_route(room, ample, d, ip, steps, k + 1);
            } else {
                self.lemma_shorter(
                    d,
                    ip + s.at,
                    Found { len: s.len, off: s.off, back: 0 },
                    s.len,
                );
                self.lemma_put(wide, ample, d, ip + s.at, s.len, s.off);
                self.lemma_filled_put(room, ample, d, ip + s.at, s.len, s.off);
                if let Put::On(e) = self.put(wide, ample, d, ip + s.at, s.len, s.off) {
                    assert(e.anchor == ip + steps[k].at + steps[k].len);
                    self.lemma_filled_route(room, ample, e, ip, steps, k + 1);
                    if let Put::On(g) = self.follow_route(wide, ample, e, ip, steps, k + 1) {
                        lemma_leading(d.seqs, e.seqs, g.seqs);
                        if let Put::Over(done) = self.put(
                            Limit::FillOutput,
                            room,
                            d,
                            ip + s.at,
                            s.len,
                            s.off,
                        ) {
                            if let Some((seqs, _)) = done.block {
                                lemma_pressed(seqs, e.seqs, g.seqs, room);
                            }
                        }
                    }
                }
            }
        }
    }

    proof fn lemma_filled_opt_step(self, room: int, ample: int, f: Effort, s: Opt)
        requires
            self.wf(),
            self.len() <= usize::MAX,
            self.len() - self.start <= 0x7E00_0000,
            ample >= bound(self.len() - self.start),
            ample >= 0,
            f.enough < OPT_NUM,
            s.c.wf(),
            s.opt.len() == OPT_ENTRIES,
            self.sound(Limit::NotLimited, ample, s.d),
            s.d.anchor <= s.ip <= self.mflimit(),
        ensures
            self.opt_step(Limit::NotLimited, ample, f, s) matches OptNext::Go(t) && leading(
                s.d.seqs,
                t.d.seqs,
            ) && (self.opt_step(Limit::FillOutput, room, f, s) == OptNext::Go(t) || (self.opt_step(
                Limit::FillOutput,
                room,
                f,
                s,
            ) matches OptNext::End(done, _) && cut_down(done, t.d.seqs, room))),
    {
        reveal(Scene::opt_step);
        assert(s.d.seqs.take(s.d.seqs.len() as int) =~= s.d.seqs);
        assert(self.start <= s.d.anchor) by {
            reveal(Scene::sound);
        }
        let ll = s.ip - s.d.anchor;
        self.lemma_longer(s.c, s.ip, MINMATCH - 1, f);
        let (m, c) = self.longer(s.c, s.ip, MINMATCH - 1, f);
        if m.len == 0 {
        } else if m.len > f.enough {
            self.lemma_shorter(s.d, s.ip, m, m.len);
            self.lemma_filled_put(room, ample, s.d, s.ip, m.len, m.off);
        } else {
            self.lemma_seeded(s.ip, ll, s.opt, m, c);
            let p0 = Plan { opt: seeded(s.opt, ll, m), last: m.len, cur: 1, c };
            self.lemma_explore(s.ip, ll, f, p0);
            let (p, end) = self.explore(s.ip, f, p0);
            self.lemma_route(s.ip, ll, p, end);
            let steps = self.route(p, end);
            self.lemma_filled_route(room, ample, s.d, s.ip, steps, 0);
        }
    }

    proof fn lemma_filled_opt_run(self, room: int, ample: int, f: Effort, s: Opt)
        requires
            self.wf(),
            self.len() <= usize::MAX,
            self.len() - self.start <= 0x7E00_0000,
            ample >= bound(self.len() - self.start),
            ample >= 0,
            f.enough < OPT_NUM,
            s.c.wf(),
            s.opt.len() == OPT_ENTRIES,
            self.sound(Limit::NotLimited, ample, s.d),
            s.d.anchor <= s.ip,
        ensures
            filled_on(
                self.opt_run(Limit::FillOutput, room, f, s).0,
                self.opt_run(Limit::NotLimited, ample, f, s).0,
                room,
                s.d,
            ),
        decreases self.len() - s.ip,
    {
        let wide = Limit::NotLimited;
        let done = self.opt_run(Limit::FillOutput, room, f, s).0;
        let all = self.opt_run(wide, ample, f, s).0;
        if s.ip > self.mflimit() {
            self.lemma_filled_finish(room, ample, s.d);
        } else {
            self.lemma_opt_step(wide, ample, f, s);
            self.lemma_filled_opt_step(room, ample, f, s);
            let t = self.opt_step(wide, ample, f, s)->Go_0;
            self.lemma_filled_opt_run(room, ample, f, t);
            Self::lemma_filled_join(done, all, room, s.d, t.d);
        }
    }

    /// Filling the room takes the sequences that a level takes with room enough,
    /// one after the other: all but the last are the same, the last may have its
    /// match cut, and the first that is missing would have left less than eleven
    /// bytes.
    pub proof fn law_level_filled(self, c: Chains, level: i32, favor: bool, room: int, ample: int)
        requires
            self.wf(),
            self.len() <= usize::MAX,
            0 < self.len() - self.start <= LZ4_MAX_INPUT_SIZE,
            c.wf(),
            room > 0,
            ample >= bound(self.len() - self.start),
        ensures
            filled_from(
                generic_outcome(self, c, level, favor, Limit::FillOutput, room).0,
                generic_outcome(self, c, level, favor, Limit::NotLimited, ample).0,
                room,
            ),
    {
        let n = self.len() - self.start;
        let p = params_of(level);
        let d = Draft { seqs: Seq::empty(), anchor: self.start };
        self.lemma_begin(Limit::NotLimited, ample);
        match p.strategy {
            Strategy::Mid => {
                let even = Scene { little: true, ..self };
                even.lemma_begin(Limit::NotLimited, ample);
                if n < MFLIMIT + 1 {
                    even.lemma_filled_finish(room, ample, d);
                } else {
                    even.lemma_filled_mid_run(
                        room,
                        ample,
                        Mid { t: mid_tables(c), d, ip: self.start },
                    );
                }
            },
            Strategy::HashChain => {
                if n < MFLIMIT + 1 {
                    self.lemma_filled_finish(room, ample, d);
                } else {
                    self.lemma_filled_lazy_run(
                        room,
                        ample,
                        p.searches,
                        Lazy {
                            spot: Spot::Main,
                            c,
                            d,
                            ip: self.start,
                            m1: nothing(),
                            start0: 0,
                            m0: nothing(),
                            start2: 0,
                            m2: nothing(),
                        },
                    );
                }
            },
            Strategy::Optimal => {
                if n < MFLIMIT + 1 {
                    self.lemma_filled_finish(room, ample, d);
                } else {
                    let opt = Seq::new(OPT_ENTRIES as nat, |i: int| unpriced());
                    self.lemma_filled_opt_run(
                        room,
                        ample,
                        effort_of(level, favor),
                        Opt { c, d, ip: self.start, opt },
                    );
                }
            },
        }
    }
}

} // verus!
