//! What the lower levels leave in literals.
use vstd::prelude::*;
use crate::block::greedy::total;
use crate::block::search::{lemma_common_bounds, lemma_common_reaches};
use crate::format::{Sq, MFLIMIT};
use super::mid::{lemma_slots, slot4, slot8, Mid, MidTables};
use super::output::Draft;
use super::scene::{same4, Scene};
use super::Limit;

verus! {

/// The position of the `k`th try in literals that start at `a`: the next one,
/// and one more for every 512 bytes passed over.
pub open spec fn mid_try(a: int, k: int) -> int
    decreases k,
{
    if k <= 0 {
        a
    } else {
        mid_try(a, k - 1) + 1 + (mid_try(a, k - 1) - a) / 512
    }
}

/// Whether a match is looked for at `p`, one of `n` literals from `a` on.
pub open spec fn mid_tried(a: int, n: int, p: int) -> bool {
    a <= p < a + n && exists|k: int| 0 <= k && p == #[trigger] mid_try(a, k)
}

proof fn lemma_mid_try(a: int, j: int, k: int)
    requires
        0 <= j < k,
    ensures
        a <= mid_try(a, j) < mid_try(a, k),
    decreases k,
{
    if j < k - 1 {
        lemma_mid_try(a, j, k - 1);
    } else if j > 0 {
        lemma_mid_try(a, j - 1, j);
    }
}

/// What is tried before the next try was tried before this one, or is it.
proof fn lemma_mid_tried(a: int, k: int, p: int)
    requires
        0 <= k,
        mid_tried(a, mid_try(a, k + 1) - a, p),
    ensures
        p == mid_try(a, k) || mid_tried(a, mid_try(a, k) - a, p),
{
    let j = choose|j: int| 0 <= j && p == #[trigger] mid_try(a, j);
    if j > k {
        if j > k + 1 {
            lemma_mid_try(a, k + 1, j);
        }
    } else if j < k {
        lemma_mid_try(a, j, k);
    }
}

impl Scene {
    /// Whether `q` is the last position before `p` whose first four bytes hash
    /// as those at `p`, or the last whose first eight do.
    pub open spec fn hashes_last(self, q: int, p: int) -> bool {
        ||| slot4(self.base, q) == slot4(self.base, p) && forall|r: int|
            q < r < p ==> #[trigger] slot4(self.base, r) != slot4(self.base, p)
        ||| slot8(self.base, q) == slot8(self.base, p) && forall|r: int|
            q < r < p ==> #[trigger] slot8(self.base, r) != slot8(self.base, p)
    }

    /// Whether a match looked for at `p`, among literals from `a` on, is rightly
    /// not found: no literal tried before, at most 65,535 bytes back, that
    /// hashes like `p` as the last one agrees with it in four bytes.
    pub open spec fn mid_missed(self, a: int, p: int) -> bool {
        forall|q: int|
            #[trigger] mid_tried(a, p - a, q) && p - q <= 65535 && self.hashes_last(q, p) ==> !same4(
                self.base,
                p,
                self.base,
                q,
            )
    }

    /// Whether the literals before each match are rightly literals, but for the
    /// one directly before it, which may have been left for a longer match.
    pub open spec fn heedful(self, seqs: Seq<Sq>) -> bool
        decreases seqs.len(),
    {
        seqs.len() > 0 ==> {
            let rest = seqs.drop_last();
            let a = self.start + total(rest);
            &&& self.heedful(rest)
            &&& forall|p: int| #[trigger]
                mid_tried(a, seqs.last().lits.len() - 1, p) ==> self.mid_missed(a, p)
        }
    }

    /// Whether the tables remember the position `q`, or a later one before `f`
    /// with its hash.
    spec fn mid_recalls(self, t: MidTables, q: int, f: int) -> bool {
        let i = t.four[slot4(self.base, q)] - self.prefix;
        let j = t.eight[slot8(self.base, q)] - self.prefix;
        &&& q <= i < f && slot4(self.base, i) == slot4(self.base, q)
        &&& q <= j < f && slot8(self.base, j) == slot8(self.base, q)
    }

    /// What holds of a parse at the `k`th try of its literals.
    spec fn mid_careful(self, s: Mid, k: int) -> bool {
        let a = s.d.anchor;
        &&& s.t.wf()
        &&& self.start <= a
        &&& a == self.start + total(s.d.seqs)
        &&& self.heedful(s.d.seqs)
        &&& 0 <= k && s.ip == mid_try(a, k)
        &&& forall|q: int| #[trigger] mid_tried(a, s.ip - a, q) ==> self.mid_recalls(s.t, q, s.ip)
        &&& forall|p: int| #[trigger] mid_tried(a, s.ip - a, p) ==> self.mid_missed(a, p)
    }

    /// A candidate that agrees in four bytes is a match.
    proof fn lemma_reach_four(self, p: int, q: int)
        requires
            self.wf(),
            0 <= q < p <= self.mflimit(),
            p - q <= 65535,
            same4(self.base, p, self.base, q),
        ensures
            self.reach(p, self.prefix + q) >= 4,
    {
        reveal(Scene::reach);
        let a = self.base;
        let n = self.matchlimit() - p;
        assert forall|i: int| 0 <= i < 4 implies #[trigger] a[p + i] == a[q + i] by {
            assert(i == 0 || i == 1 || i == 2 || i == 3);
        }
        lemma_common_reaches(a, p, a, q, n, 4);
        lemma_common_bounds(a, p + 4, a, q + 4, n - 4);
    }

    proof fn lemma_mid_misses(self, s: Mid, k: int)
        requires
            self.wf(),
            self.mid_careful(s, k),
            s.ip <= self.mflimit(),
            self.pick(s.t, s.ip).0 is None,
        ensures
            self.mid_careful(
                Mid {
                    t: self.pick(s.t, s.ip).1,
                    ip: s.ip + 1 + (s.ip - s.d.anchor) / 512,
                    ..s
                },
                k + 1,
            ),
    {
        reveal(Scene::pick);
        let a = s.d.anchor;
        let ip = s.ip;
        let t = self.pick(s.t, ip).1;
        let next = mid_try(a, k + 1);
        lemma_mid_try(a, k, k + 1);
        lemma_slots(self.base, ip);
        assert(self.mid_missed(a, ip)) by {
            assert forall|q: int|
                #[trigger] mid_tried(a, ip - a, q) && ip - q <= 65535 && self.hashes_last(
                    q,
                    ip,
                ) implies !same4(self.base, ip, self.base, q) by {
                assert(self.mid_recalls(s.t, q, ip));
                if same4(self.base, ip, self.base, q) {
                    self.lemma_reach_four(ip, q);
                }
            }
        }
        assert forall|q: int| #[trigger] mid_tried(a, next - a, q) implies self.mid_recalls(
            t,
            q,
            next,
        ) by {
            lemma_mid_tried(a, k, q);
            lemma_slots(self.base, q);
            if q != ip {
                assert(self.mid_recalls(s.t, q, ip));
            }
        }
        assert forall|p: int| #[trigger] mid_tried(a, next - a, p) implies self.mid_missed(a, p) by {
            lemma_mid_tried(a, k, p);
        }
    }

    proof fn lemma_mid_takes(self, s: Mid, k: int, t: MidTables, at: int, n: int, off: int)
        requires
            self.wf(),
            self.mid_careful(s, k),
            t.wf(),
            s.d.anchor <= at <= s.ip + 1,
            at <= self.len(),
            n >= 0,
        ensures
            self.mid_careful(Mid { t, d: s.d.with(self.base, at, n, off), ip: at + n }, 0),
    {
        let a = s.d.anchor;
        let d = s.d.with(self.base, at, n, off);
        assert(d.seqs.drop_last() =~= s.d.seqs);
        assert forall|p: int| #[trigger] mid_tried(a, at - a - 1, p) implies self.mid_missed(
            a,
            p,
        ) by {
            assert(mid_tried(a, s.ip - a, p));
        }
        assert forall|q: int| !mid_tried(d.anchor, 0, q) by {}
    }

    proof fn lemma_mid_heedful(self, limit: Limit, room: int, s: Mid, k: int)
        requires
            self.wf(),
            limit != Limit::FillOutput,
            self.mid_careful(s, k),
            s.d.anchor <= s.ip,
            s.d.anchor <= self.len(),
        ensures
            self.mid_run(limit, room, s).0.block matches Some((seqs, last)) ==> {
                let a = self.start + total(seqs);
                &&& self.heedful(seqs)
                &&& a + last.len() == self.len()
                &&& forall|p: int|
                    p <= self.mflimit() && #[trigger] mid_tried(a, last.len() as int, p)
                        ==> self.mid_missed(a, p)
            },
        decreases
                if s.ip > self.mflimit() {
                    0
                } else {
                    self.mflimit() - s.ip + 1
                },
    {
        let a = s.d.anchor;
        if s.ip > self.mflimit() {
            assert forall|p: int|
                p <= self.mflimit() && #[trigger] mid_tried(a, self.len() - a, p) implies self.mid_missed(
                a,
                p,
            ) by {
                assert(mid_tried(a, s.ip - a, p));
            }
        } else {
            reveal(Scene::mid_step);
            self.lemma_pick(s.t, s.ip);
            match self.pick(s.t, s.ip) {
                (None, t) => {
                    self.lemma_mid_misses(s, k);
                    let next = Mid { t, ip: s.ip + 1 + (s.ip - a) / 512, ..s };
                    self.lemma_mid_heedful(limit, room, next, k + 1);
                },
                (Some(p), t) => {
                    self.lemma_caught(p, a);
                    let c = self.caught(p.ip, p.off, a);
                    let at = p.ip - c;
                    let n = p.mlen + c;
                    let t2 = self.opening(t, at, self.prefix + s.ip);
                    if s.d.takes(limit, room, at, n) {
                        let t3 = self.closing(t2, at + n);
                        self.lemma_tables(t, at, self.prefix + s.ip);
                        self.lemma_tables(t2, at + n, 0);
                        self.lemma_mid_takes(s, k, t3, at, n, p.off);
                        let next = Mid {
                            t: t3,
                            d: s.d.with(self.base, at, n, p.off),
                            ip: at + n,
                        };
                        self.lemma_mid_heedful(limit, room, next, 0);
                    }
                },
            }
        }
    }

    /// The lower levels leave no match in literals that hashes find: at every
    /// literal where one is looked for, the last literal of the same run with
    /// its hash of four or eight bytes differs within four bytes or is more than
    /// 65,535 bytes back. The length of the block plays no part in that.
    pub proof fn law_mid_is_heedful(self, t: MidTables, limit: Limit, room: int, p: int)
        requires
            self.wf(),
            t.wf(),
            self.start + MFLIMIT < self.len(),
            limit != Limit::FillOutput,
            p <= self.mflimit(),
        ensures
            self.mid_outcome(t, limit, room).0.block matches Some((seqs, last)) ==> {
                let a = self.start + total(seqs);
                &&& self.heedful(seqs)
                &&& a + last.len() == self.len()
                &&& mid_tried(a, last.len() as int, p) ==> self.mid_missed(a, p)
            },
    {
        let d = Draft { seqs: Seq::empty(), anchor: self.start };
        let s = Mid { t, d, ip: self.start };
        assert forall|q: int| !mid_tried(self.start, 0, q) by {}
        assert(self.mid_careful(s, 0));
        self.lemma_mid_heedful(limit, room, s, 0);
    }
}

} // verus!
