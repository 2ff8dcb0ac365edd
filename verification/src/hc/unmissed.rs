//! What the highest levels leave in literals alone.
use vstd::prelude::*;
use crate::block::search::{lemma_common_bounds, lemma_common_reaches};
use crate::format::{MFLIMIT, MINMATCH};
use super::chase::{Chains, Found};
use super::lazy::Put;
use super::optimal::{last_after, literal, literals_cost, path, relaxed, seeded, sequence_cost};
use super::optimal::{
    trailed, unpriced, Cell, Effort, Opt, OptNext, Plan, Step, OPT_ENTRIES, OPT_NUM,
};
use super::output::Draft;
use super::scene::{same4, Scene};
use super::Limit;

verus! {

/// Whether the first cells of a plan are literals, and the next is a match.
spec fn rooted(opt: Seq<Cell>, ll: int) -> bool {
    &&& forall|i: int|
        0 <= i < MINMATCH ==> #[trigger] opt[i] == literal(literals_cost(ll + i), ll + i)
    &&& opt[4].mlen == MINMATCH
    &&& opt[4].price == sequence_cost(ll, MINMATCH as int)
}

/// Whether a step of a way is a match.
spec fn has_match(steps: Seq<Step>) -> bool {
    exists|j: int| 0 <= j < steps.len() && (#[trigger] steps[j]).len >= MINMATCH
}

/// Four literals cost more than a match.
proof fn lemma_stays_rooted(opt: Seq<Cell>, ll: int, last: int, cur: int, m: Found, favor: bool)
    requires
        rooted(opt, ll),
        opt.len() >= OPT_ENTRIES,
        ll >= 0,
        last >= MINMATCH,
        cur >= 1,
    ensures
        rooted(
            trailed(
                relaxed(opt, last, cur, m, favor),
                last_after(opt, last, cur, m, favor),
            ),
            ll,
        ),
{
    reveal(relaxed);
    reveal(trailed);
    if cur < MINMATCH {
        assert(opt[cur] == literal(literals_cost(ll + cur), ll + cur));
    }
    let q = relaxed(opt, last, cur, m, favor);
    assert forall|i: int| 0 <= i < MINMATCH implies #[trigger] q[i] == opt[i] by {}
    assert(q[4] == opt[4]);
}

proof fn lemma_path_matches(opt: Seq<Cell>, ll: int, cur: int)
    requires
        rooted(opt, ll),
        cur >= MINMATCH,
        forall|i: int|
            0 <= i <= cur ==> (#[trigger] opt[i]).mlen == 1 || MINMATCH <= opt[i].mlen <= i,
    ensures
        has_match(path(opt, cur)),
    decreases cur,
{
    let o = opt[cur];
    let before = path(opt, cur - o.mlen);
    let all = path(opt, cur);
    assert(o.mlen == 1 || MINMATCH <= o.mlen <= cur);
    if o.mlen == 1 {
        lemma_path_matches(opt, ll, cur - 1);
        let j = choose|j: int| 0 <= j < before.len() && (#[trigger] before[j]).len >= MINMATCH;
        assert(all[j] == before[j]);
    } else {
        assert(all[all.len() - 1].len >= MINMATCH);
    }
}

impl Scene {
    proof fn lemma_explore_rooted(self, ip: int, ll: int, f: Effort, p: Plan)
        requires
            self.wf(),
            self.len() <= usize::MAX,
            0 <= ip,
            0 <= ll <= 0x7E00_0000,
            self.plan_ok(ip, ll, p),
            rooted(p.opt, ll),
        ensures
            rooted(self.explore(ip, f, p).0.opt, ll),
        decreases OPT_NUM - p.cur,
    {
        if p.cur >= p.last || p.cur >= OPT_NUM || ip + p.cur > self.mflimit() {
        } else if self.passes(p, f) {
            self.lemma_explore_rooted(ip, ll, f, Plan { cur: p.cur + 1, ..p });
        } else {
            let least = if f.full {
                MINMATCH - 1
            } else {
                p.last - p.cur
            };
            self.lemma_longer(p.c, ip + p.cur, least, f);
            let (m, c) = self.longer(p.c, ip + p.cur, least, f);
            if m.len == 0 {
                self.lemma_explore_rooted(ip, ll, f, Plan { cur: p.cur + 1, c, ..p });
            } else if m.len > f.enough || m.len + p.cur >= OPT_NUM {
            } else {
                let last = last_after(p.opt, p.last, p.cur, m, f.favor);
                let opt = trailed(relaxed(p.opt, p.last, p.cur, m, f.favor), last);
                self.lemma_relaxed(ip, ll, Plan { c, ..p }, m, f.favor);
                lemma_stays_rooted(p.opt, ll, p.last, p.cur, m, f.favor);
                self.lemma_explore_rooted(ip, ll, f, Plan { opt, last, cur: p.cur + 1, c });
            }
        }
    }

    /// The way through a stretch takes a match.
    proof fn lemma_route_matches(self, ip: int, ll: int, p: Plan, end: Option<Step>)
        requires
            self.plan_ok(ip, ll, p),
            rooted(p.opt, ll),
            end matches Some(s) ==> s.len >= MINMATCH,
        ensures
            has_match(self.route(p, end)),
    {
        let steps = self.route(p, end);
        let n = steps.len() - 1;
        assert forall|i: int| 0 <= i <= p.last implies (#[trigger] p.opt[i]).mlen == 1 || MINMATCH
            <= p.opt[i].mlen <= i by {
            assert(self.cell_ok(ip, ll, p.opt[i], i));
        }
        let o = p.opt[p.last];
        if end is None && o.mlen == 1 {
            lemma_path_matches(p.opt, ll, p.last - 1);
            let before = path(p.opt, p.last - 1);
            let j = choose|j: int| 0 <= j < before.len() && (#[trigger] before[j]).len >= MINMATCH;
            assert(steps[j] == before[j]);
        } else {
            assert(steps[n].len >= MINMATCH);
        }
    }

    /// Following a way adds a sequence for each match on it.
    proof fn lemma_follow_grows(self, limit: Limit, room: int, d: Draft, ip: int, steps: Seq<Step>, k: int, j: int)
        requires
            limit != Limit::FillOutput,
            0 <= k,
        ensures
            match self.follow_route(limit, room, d, ip, steps, k) {
                Put::On(e) => e.seqs.len() >= d.seqs.len() && (k <= j < steps.len() && steps[j].len
                    >= MINMATCH ==> e.seqs.len() > d.seqs.len()),
                Put::Over(done) => done.block is None,
            },
        decreases steps.len() - k,
    {
        if k < steps.len() {
            let s = steps[k];
            if s.len == 1 {
                self.lemma_follow_grows(limit, room, d, ip, steps, k + 1, j);
            } else if let Put::On(e) = self.put(limit, room, d, ip + s.at, s.len, s.off) {
                self.lemma_follow_grows(limit, room, e, ip, steps, k + 1, j);
            }
        }
    }

    /// What has a sequence keeps it.
    proof fn lemma_run_keeps(self, limit: Limit, room: int, f: Effort, s: Opt)
        requires
            limit != Limit::FillOutput,
            s.d.seqs.len() > 0,
        ensures
            self.opt_run(limit, room, f, s).0.block matches Some((seqs, _)) ==> seqs.len() > 0,
        decreases self.len() - s.ip,
    {
        if s.ip <= self.mflimit() {
            reveal(Scene::opt_step);
            let (m, c) = self.longer(s.c, s.ip, MINMATCH - 1, f);
            let p0 = Plan { opt: seeded(s.opt, s.ip - s.d.anchor, m), last: m.len, cur: 1, c };
            let (p, end) = self.explore(s.ip, f, p0);
            self.lemma_follow_grows(limit, room, s.d, s.ip, self.route(p, end), 0, 0);
            if let OptNext::Go(t) = self.opt_step(limit, room, f, s) {
                if s.ip < t.ip <= self.len() {
                    self.lemma_run_keeps(limit, room, f, t);
                }
            }
        }
    }

    /// A match that is found leads to a sequence.
    proof fn lemma_step_takes(self, limit: Limit, room: int, f: Effort, s: Opt)
        requires
            self.wf(),
            self.len() <= usize::MAX,
            self.len() - self.start <= 0x7E00_0000,
            limit != Limit::FillOutput,
            f.enough < OPT_NUM,
            s.c.wf(),
            s.opt.len() == OPT_ENTRIES,
            self.start <= s.d.anchor <= s.ip <= self.mflimit(),
            self.longer(s.c, s.ip, MINMATCH - 1, f).0.len != 0,
        ensures
            match self.opt_step(limit, room, f, s) {
                OptNext::Go(t) => t.d.seqs.len() > 0,
                OptNext::End(done, _) => done.block is None,
            },
    {
        reveal(Scene::opt_step);
        let ll = s.ip - s.d.anchor;
        self.lemma_longer(s.c, s.ip, MINMATCH - 1, f);
        let (m, c) = self.longer(s.c, s.ip, MINMATCH - 1, f);
        if m.len <= f.enough {
            self.lemma_seeded(s.ip, ll, s.opt, m, c);
            let p0 = Plan { opt: seeded(s.opt, ll, m), last: m.len, cur: 1, c };
            assert(rooted(p0.opt, ll)) by {
                reveal(seeded);
            }
            self.lemma_explore(s.ip, ll, f, p0);
            self.lemma_explore_rooted(s.ip, ll, f, p0);
            let (p, end) = self.explore(s.ip, f, p0);
            self.lemma_route_matches(s.ip, ll, p, end);
            let steps = self.route(p, end);
            let j = choose|j: int| 0 <= j < steps.len() && (#[trigger] steps[j]).len >= MINMATCH;
            self.lemma_follow_grows(limit, room, s.d, s.ip, steps, 0, j);
        }
    }

    /// Where nothing is found, there is nothing.
    proof fn lemma_nothing_longer(self, c: Chains, from: int, ip: int, f: Effort)
        requires
            self.wf(),
            self.attached is None,
            self.len() <= usize::MAX,
            self.charts(c, from, c.next as int),
            c.wf(),
            self.prefix <= from <= c.next <= self.index(ip),
            0 <= ip <= self.mflimit(),
            f.searches >= 1,
            !f.favor,
            self.longer(c, ip, MINMATCH - 1, f).0.len == 0,
        ensures
            self.unmatched(from, ip, 1),
    {
        reveal(Scene::longer);
        let h = self.opt_hunt(ip, MINMATCH - 1, f);
        let c1 = c.upto(self.base, self.prefix, ip, self.little);
        self.lemma_longer(c, ip, MINMATCH - 1, f);
        self.law_entered_chains(c, from, ip);
        assert forall|q: int| #[trigger] self.candidate(from, q, ip, 1) implies !same4(
            self.base,
            ip,
            self.base,
            q,
        ) by {
            self.law_wider_is_longest(h, c1, from, q);
            if same4(self.base, ip, self.base, q) {
                let a = self.base;
                assert forall|k: int| 0 <= k < 4 implies #[trigger] a[ip + k] == a[q + k] by {
                    assert(k == 0 || k == 1 || k == 2 || k == 3);
                }
                lemma_common_reaches(a, ip, a, q, self.matchlimit() - ip, 4);
                lemma_common_bounds(a, ip + 4, a, q + 4, self.matchlimit() - ip - 4);
            }
        }
    }

    proof fn lemma_run_misses_nothing(self, from: int, limit: Limit, room: int, f: Effort, s: Opt, p: int)
        requires
            self.wf(),
            self.attached is None,
            self.len() <= usize::MAX,
            self.len() - self.start <= 0x7E00_0000,
            limit != Limit::FillOutput,
            f.enough < OPT_NUM,
            f.searches >= 1,
            !f.favor,
            self.charts(s.c, from, s.c.next as int),
            s.c.wf(),
            s.opt.len() == OPT_ENTRIES,
            self.prefix <= from <= s.c.next <= self.index(s.ip),
            s.d.anchor == self.start,
            0 <= self.start <= s.ip,
            self.start <= p <= self.mflimit(),
            p < s.ip ==> self.unmatched(from, p, 1),
        ensures
            self.opt_run(limit, room, f, s).0.block matches Some((seqs, _)) ==> (seqs.len() == 0
                ==> self.unmatched(from, p, 1)),
        decreases self.len() - s.ip,
    {
        if s.ip <= self.mflimit() {
            let (m, c) = self.longer(s.c, s.ip, MINMATCH - 1, f);
            self.lemma_longer(s.c, s.ip, MINMATCH - 1, f);
            if m.len == 0 {
                self.lemma_nothing_longer(s.c, from, s.ip, f);
                self.law_entered_chains(s.c, from, s.ip);
                let t = Opt { c, ip: s.ip + 1, ..s };
                assert(self.opt_step(limit, room, f, s) == OptNext::Go(t)) by {
                    reveal(Scene::opt_step);
                }
                assert(c == s.c.upto(self.base, self.prefix, s.ip, self.little)) by {
                    reveal(Scene::longer);
                }
                self.lemma_run_misses_nothing(from, limit, room, f, t, p);
            } else {
                self.lemma_step_takes(limit, room, f, s);
                if let OptNext::Go(t) = self.opt_step(limit, room, f, s) {
                    self.lemma_run_keeps(limit, room, f, t);
                }
            }
        }
    }

    /// The highest levels leave a block without a sequence only where there is
    /// none to take: no position agrees in four bytes with the last one before
    /// it that is entered at the same place and lies no more than 65,535 bytes
    /// back.
    pub proof fn law_optimal_misses_nothing(self, c: Chains, from: int, limit: Limit, room: int, f: Effort, p: int)
        requires
            self.wf(),
            self.attached is None,
            self.len() <= usize::MAX,
            MFLIMIT < self.len() - self.start <= 0x7E00_0000,
            self.charts(c, from, c.next as int),
            c.wf(),
            self.prefix <= from <= c.next <= self.index(self.start),
            limit != Limit::FillOutput,
            f.enough < OPT_NUM,
            f.searches >= 1,
            !f.favor,
            self.start <= p <= self.mflimit(),
        ensures
            self.opt_outcome(c, limit, room, f).0.block matches Some((seqs, _)) ==> (seqs.len() == 0
                ==> self.unmatched(from, p, 1)),
    {
        let opt = Seq::new(OPT_ENTRIES as nat, |i: int| unpriced());
        let d = Draft { seqs: Seq::empty(), anchor: self.start };
        self.lemma_run_misses_nothing(
            from,
            limit,
            room,
            f,
            Opt { c, d, ip: self.start, opt },
            p,
        );
    }
}

} // verus!
