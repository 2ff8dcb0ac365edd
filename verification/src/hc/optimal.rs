//! The upper levels: for a stretch of the block, the cheapest way to reach each
//! position is worked out before any sequence is written.
use vstd::prelude::*;
use crate::format::{enc_seqs, MFLIMIT, MINMATCH};
use super::chase::{lemma_enter_upto, Chains, Found, Hunt};
use super::lazy::{nothing, place, same_but_tables, Put};
use super::output::{gave, last_literals, Done, Draft};
use super::scene::{in_order, scene_of, MidDictCtx, Scene, SrcView};
use super::search::{chains, insert_and_get_wider_match, Match};
use super::{HcState, Limit};

verus! {

/// How far ahead prices are worked out.
pub const OPT_NUM: usize = 4096;
/// How many literals behind the last match are priced.
pub const TRAILING_LITERALS: usize = 3;
/// Entries of the table of prices.
pub const OPT_ENTRIES: usize = 4099;

/// The cheapest way to reach a position: what it costs, and its last step,
/// which is a literal where `mlen` is one, and a match else. `litlen` literals
/// precede the match, or end with the literal.
#[verifier::ext_equal]
pub struct Cell {
    pub price: int,
    pub off: int,
    pub mlen: int,
    pub litlen: int,
}

/// What `n` literals cost.
pub open spec fn literals_cost(n: int) -> int {
    n + (if n >= 15 {
        1 + (n - 15) / 255
    } else {
        0
    })
}

/// What `ll` literals and a match of `ml` bytes cost.
pub open spec fn sequence_cost(ll: int, ml: int) -> int {
    3 + literals_cost(ll) + (if ml >= 19 {
        1 + (ml - 19) / 255
    } else {
        0
    })
}

/// How the upper levels go about it.
#[derive(Clone, Copy)]
pub struct Effort {
    /// How many candidates are tried for a match.
    pub searches: usize,
    /// A match beyond this length is taken at once.
    pub enough: usize,
    /// Whether every position is looked at.
    pub full: bool,
    /// Whether matches are chosen for the speed of decompression.
    pub favor: bool,
}

/// The positions of a stretch that starts at `ip`: prices up to `last` and a
/// few literals beyond, looked at up to `cur`.
#[verifier::ext_equal]
pub struct Plan {
    pub opt: Seq<Cell>,
    pub last: int,
    pub cur: int,
    pub c: Chains,
}

/// A step on the way through a stretch.
#[verifier::ext_equal]
pub struct Step {
    pub at: int,
    pub len: int,
    pub off: int,
}

/// How far a parse has come.
#[verifier::ext_equal]
pub struct Opt {
    pub c: Chains,
    pub d: Draft,
    pub ip: int,
    pub opt: Seq<Cell>,
}

/// What a position leads to.
#[verifier::ext_equal]
pub enum OptNext {
    End(Done, Chains),
    Go(Opt),
}

/// An entry that has not been priced.
pub open spec fn unpriced() -> Cell {
    Cell { price: 0, off: 0, mlen: 0, litlen: 0 }
}

/// A literal that is reached at a price.
pub open spec fn literal(price: int, litlen: int) -> Cell {
    Cell { price, off: 0, mlen: 1, litlen }
}

/// The prices of a stretch that starts with the match `m`, behind `ll`
/// literals.
#[verifier::opaque]
pub open spec fn seeded(opt: Seq<Cell>, ll: int, m: Found) -> Seq<Cell> {
    Seq::new(
        opt.len(),
        |i: int|
            if i < MINMATCH {
                literal(literals_cost(ll + i), ll + i)
            } else if i <= m.len {
                Cell { price: sequence_cost(ll, i), off: m.off, mlen: i, litlen: ll }
            } else if i <= m.len + TRAILING_LITERALS {
                let k = i - m.len;
                literal(sequence_cost(ll, m.len) + literals_cost(k), k)
            } else {
                opt[i]
            },
    )
}

/// What precedes a match at `cur`: how many literals, and the price without
/// them.
pub open spec fn before(opt: Seq<Cell>, cur: int) -> (int, int) {
    let o = opt[cur];
    if o.mlen == 1 {
        (
            o.litlen,
            if cur > o.litlen {
                opt[cur - o.litlen].price
            } else {
                0
            },
        )
    } else {
        (0, o.price)
    }
}

/// The literals behind `cur` where that is cheaper, and matches there that are
/// cheaper, or reach beyond what is priced.
#[verifier::opaque]
pub open spec fn relaxed(opt: Seq<Cell>, last: int, cur: int, m: Found, favor: bool) -> Seq<Cell> {
    let o = opt[cur];
    let (ll, prior) = before(opt, cur);
    let slack = if favor {
        1int
    } else {
        0
    };
    Seq::new(
        opt.len(),
        |i: int|
            {
                let k = i - cur;
                let lit = o.price - literals_cost(o.litlen) + literals_cost(o.litlen + k);
                let seq = prior + sequence_cost(ll, k);
                if 1 <= k < MINMATCH && lit < opt[i].price {
                    literal(lit, o.litlen + k)
                } else if MINMATCH <= k <= m.len && (i > last + TRAILING_LITERALS || seq <= opt[i].price
                    - slack) {
                    Cell { price: seq, off: m.off, mlen: k, litlen: ll }
                } else {
                    opt[i]
                }
            },
    )
}

/// Where the last match ends once matches at `cur` are priced.
pub open spec fn last_after(opt: Seq<Cell>, last: int, cur: int, m: Found, favor: bool) -> int {
    let (ll, prior) = before(opt, cur);
    let i = cur + m.len;
    let slack = if favor {
        1int
    } else {
        0
    };
    if m.len >= MINMATCH && last < i && (i > last + TRAILING_LITERALS || prior + sequence_cost(
        ll,
        m.len,
    ) <= opt[i].price - slack) {
        i
    } else {
        last
    }
}

/// The literals behind the last match.
#[verifier::opaque]
pub open spec fn trailed(opt: Seq<Cell>, last: int) -> Seq<Cell> {
    Seq::new(
        opt.len(),
        |i: int|
            if last < i <= last + TRAILING_LITERALS {
                literal(opt[last].price + literals_cost(i - last), i - last)
            } else {
                opt[i]
            },
    )
}

/// The steps by which the position `cur` is reached.
pub open spec fn path(opt: Seq<Cell>, cur: int) -> Seq<Step>
    decreases cur,
{
    let o = opt[cur];
    if o.mlen < 1 || o.mlen > cur {
        Seq::empty()
    } else {
        path(opt, cur - o.mlen).push(Step { at: cur - o.mlen, len: o.mlen, off: o.off })
    }
}

impl Scene {
    /// The search of the upper levels.
    pub open spec fn opt_hunt(self, ip: int, least: int, f: Effort) -> Hunt {
        Hunt {
            ip: ip as usize,
            low: ip as usize,
            high: self.matchlimit() as usize,
            least: least as usize,
            tries: f.searches,
            pattern: true,
            swap: true,
            favor: f.favor,
        }
    }

    /// The match at `ip`, if it is longer than `least`, and the tables. Where
    /// the speed of decompression counts, one that is a little too long for its
    /// token is cut to fit.
    #[verifier::opaque]
    pub open spec fn longer(self, c: Chains, ip: int, least: int, f: Effort) -> (Found, Chains) {
        let c1 = c.upto(self.base, self.prefix, ip, self.little);
        let m = self.wider(self.opt_hunt(ip, least, f), c1);
        if m.len <= least {
            (nothing(), c1)
        } else if f.favor && 18 < m.len <= 36 {
            (Found { len: 18, ..m }, c1)
        } else {
            (m, c1)
        }
    }

    /// Whether a position is passed over: the next is reached for no more.
    pub open spec fn passes(self, p: Plan, f: Effort) -> bool {
        let here = p.opt[p.cur].price;
        p.opt[p.cur + 1].price <= here && (f.full ==> p.opt[p.cur + MINMATCH].price < here + 3)
    }

    /// Looking at the positions of a stretch from `cur` on. A match that is long
    /// enough ends that at once.
    pub open spec fn explore(self, ip: int, f: Effort, p: Plan) -> (Plan, Option<Step>)
        decreases OPT_NUM - p.cur,
    {
        if p.cur >= p.last || p.cur >= OPT_NUM || ip + p.cur > self.mflimit() {
            (p, None)
        } else if self.passes(p, f) {
            self.explore(ip, f, Plan { cur: p.cur + 1, ..p })
        } else {
            let least = if f.full {
                MINMATCH - 1
            } else {
                p.last - p.cur
            };
            let (m, c) = self.longer(p.c, ip + p.cur, least, f);
            if m.len == 0 {
                self.explore(ip, f, Plan { cur: p.cur + 1, c, ..p })
            } else if m.len > f.enough || m.len + p.cur >= OPT_NUM {
                (
                    Plan { cur: p.cur + 1, c, ..p },
                    Some(Step { at: p.cur, len: m.len, off: m.off }),
                )
            } else {
                let last = last_after(p.opt, p.last, p.cur, m, f.favor);
                let opt = trailed(relaxed(p.opt, p.last, p.cur, m, f.favor), last);
                self.explore(ip, f, Plan { opt, last, cur: p.cur + 1, c })
            }
        }
    }

    /// The steps through a stretch.
    pub open spec fn route(self, p: Plan, end: Option<Step>) -> Seq<Step> {
        let s = match end {
            Some(s) => s,
            None => {
                let o = p.opt[p.last];
                Step { at: p.last - o.mlen, len: o.mlen, off: o.off }
            },
        };
        path(p.opt, s.at).push(s)
    }

    /// Writes the steps from the `k`th on.
    pub open spec fn follow_route(self, limit: Limit, room: int, d: Draft, ip: int, steps: Seq<Step>, k: int) -> Put
        decreases steps.len() - k,
    {
        if k >= steps.len() {
            Put::On(d)
        } else {
            let s = steps[k];
            if s.len == 1 {
                self.follow_route(limit, room, d, ip, steps, k + 1)
            } else {
                match self.put(limit, room, d, ip + s.at, s.len, s.off) {
                    Put::On(e) => self.follow_route(limit, room, e, ip, steps, k + 1),
                    over => over,
                }
            }
        }
    }

    /// What the position `ip` leads to.
    #[verifier::opaque]
    pub open spec fn opt_step(self, limit: Limit, room: int, f: Effort, s: Opt) -> OptNext {
        let (m, c) = self.longer(s.c, s.ip, MINMATCH - 1, f);
        if m.len == 0 {
            OptNext::Go(Opt { c, ip: s.ip + 1, ..s })
        } else if m.len > f.enough {
            match self.put(limit, room, s.d, s.ip, m.len, m.off) {
                Put::Over(done) => OptNext::End(done, c),
                Put::On(d) => OptNext::Go(Opt { c, d, ip: s.ip + m.len, ..s }),
            }
        } else {
            let p0 = Plan { opt: seeded(s.opt, s.ip - s.d.anchor, m), last: m.len, cur: 1, c };
            let (p, end) = self.explore(s.ip, f, p0);
            let steps = self.route(p, end);
            match self.follow_route(limit, room, s.d, s.ip, steps, 0) {
                Put::Over(done) => OptNext::End(done, p.c),
                Put::On(d) => OptNext::Go(
                    Opt {
                        c: p.c,
                        d,
                        ip: s.ip + steps.last().at + steps.last().len,
                        opt: p.opt,
                    },
                ),
            }
        }
    }

    /// The parse from `s` on.
    pub open spec fn opt_run(self, limit: Limit, room: int, f: Effort, s: Opt) -> (Done, Chains)
        decreases self.len() - s.ip,
    {
        if s.ip > self.mflimit() {
            (s.d.finish(self.base, self.start, limit, room), s.c)
        } else {
            match self.opt_step(limit, room, f, s) {
                OptNext::End(done, c) => (done, c),
                OptNext::Go(t) => if s.ip < t.ip <= self.len() {
                    self.opt_run(limit, room, f, t)
                } else {
                    (Done { block: None, consumed: 0 }, t.c)
                },
            }
        }
    }

    /// What becomes of the block, and the tables afterwards.
    pub open spec fn opt_outcome(self, c: Chains, limit: Limit, room: int, f: Effort) -> (Done, Chains) {
        let d = Draft { seqs: Seq::empty(), anchor: self.start };
        if self.len() - self.start < MFLIMIT + 1 {
            (d.finish(self.base, self.start, limit, room), c)
        } else {
            let opt = Seq::new(OPT_ENTRIES as nat, |i: int| unpriced());
            self.opt_run(limit, room, f, Opt { c, d, ip: self.start, opt })
        }
    }
}

/// More than a sequence can cost.
pub const DEAR: u64 = 0x2_0000_0000;

impl Scene {
    /// Whether the last step to the position `i` of a stretch at `ip`, behind
    /// `ll` literals, is one.
    pub open spec fn cell_ok(self, ip: int, ll: int, o: Cell, i: int) -> bool {
        &&& o.mlen == 1 || {
            &&& MINMATCH <= o.mlen <= i
            &&& self.stands_at(ip + i - o.mlen, Found { len: o.mlen, off: o.off, back: 0 })
        }
        &&& 0 <= o.litlen <= ll + i
        &&& 0 <= o.price <= DEAR * (i + 1)
    }

    /// What holds while the positions of a stretch are looked at.
    pub open spec fn plan_ok(self, ip: int, ll: int, p: Plan) -> bool {
        &&& p.opt.len() == OPT_ENTRIES
        &&& MINMATCH <= p.last < OPT_NUM
        &&& 1 <= p.cur
        &&& ip + p.last <= self.matchlimit()
        &&& p.c.wf()
        &&& forall|i: int|
            0 <= i <= p.last + TRAILING_LITERALS ==> self.cell_ok(ip, ll, #[trigger] p.opt[i], i)
    }

    /// Whether steps follow each other through a stretch, and each is one.
    pub open spec fn route_ok(self, ip: int, steps: Seq<Step>) -> bool {
        &&& forall|k: int|
            0 <= k < steps.len() ==> {
                let s = #[trigger] steps[k];
                &&& 0 <= s.at
                &&& s.len == 1 || self.stands_at(
                    ip + s.at,
                    Found { len: s.len, off: s.off, back: 0 },
                )
                &&& s.at + s.len <= OPT_ENTRIES + 0x7E00_0000
            }
        &&& forall|j: int, k: int|
            0 <= j < k < steps.len() ==> (#[trigger] steps[j]).at + steps[j].len <= (#[trigger] steps[k]).at
    }

    /// A search of the upper levels makes sense, and finds a match.
    pub proof fn lemma_longer(self, c: Chains, ip: int, least: int, f: Effort)
        requires
            self.wf(),
            self.len() <= usize::MAX,
            c.wf(),
            0 <= ip <= self.mflimit(),
            1 <= least,
            ip + least <= self.matchlimit(),
        ensures
            self.hunts(self.opt_hunt(ip, least, f)),
            ({
                let (m, c1) = self.longer(c, ip, least, f);
                &&& c1.wf()
                &&& m == nothing() || self.stands_at(ip, m)
            }),
    {
        reveal(Scene::longer);
        lemma_enter_upto(c, self.base, self.prefix, c.next as int, self.prefix + ip, self.little);
        let c1 = c.upto(self.base, self.prefix, ip, self.little);
        let h = self.opt_hunt(ip, least, f);
        self.lemma_wider(h, c1);
    }

    proof fn lemma_cost(self, ll: int, ml: int)
        requires
            0 <= ll <= 0x7F00_0000,
            0 <= ml <= 0x7F00_0000,
        ensures
            0 <= literals_cost(ll) <= 0x8000_0000,
            3 <= sequence_cost(ll, ml) < DEAR,
    {
    }

    pub proof fn lemma_seeded(self, ip: int, ll: int, opt: Seq<Cell>, m: Found, c: Chains)
        requires
            self.wf(),
            opt.len() == OPT_ENTRIES,
            0 <= ll <= 0x7E00_0000,
            self.stands_at(ip, m),
            m.len < OPT_NUM,
            c.wf(),
        ensures
            self.plan_ok(ip, ll, Plan { opt: seeded(opt, ll, m), last: m.len, cur: 1, c }),
    {
        reveal(seeded);
        let q = seeded(opt, ll, m);
        assert forall|i: int| 0 <= i <= m.len + TRAILING_LITERALS implies self.cell_ok(
            ip,
            ll,
            #[trigger] q[i],
            i,
        ) by {
            self.lemma_cost(ll + i, i);
            self.lemma_cost(ll, i);
            self.lemma_cost(ll, m.len);
            self.lemma_cost(i, i);
        }
    }

    pub proof fn lemma_relaxed(self, ip: int, ll: int, p: Plan, m: Found, favor: bool)
        requires
            self.wf(),
            0 <= ll <= 0x7E00_0000,
            self.plan_ok(ip, ll, p),
            p.cur < p.last,
            self.stands_at(ip + p.cur, m),
            m.len + p.cur < OPT_NUM,
        ensures
            ({
                let last = last_after(p.opt, p.last, p.cur, m, favor);
                let opt = trailed(relaxed(p.opt, p.last, p.cur, m, favor), last);
                &&& self.plan_ok(ip, ll, Plan { opt, last, cur: p.cur + 1, c: p.c })
                &&& p.last <= last
            }),
    {
        reveal(relaxed);
        reveal(trailed);
        let last = last_after(p.opt, p.last, p.cur, m, favor);
        let mid = relaxed(p.opt, p.last, p.cur, m, favor);
        let opt = trailed(mid, last);
        let o = p.opt[p.cur];
        let (lits, prior) = before(p.opt, p.cur);
        assert(self.cell_ok(ip, ll, o, p.cur));
        if p.cur > o.litlen {
            assert(self.cell_ok(ip, ll, p.opt[p.cur - o.litlen], p.cur - o.litlen));
        }
        assert(0 <= prior <= DEAR * (p.cur + 1));
        assert forall|i: int| 0 <= i <= last implies self.cell_ok(ip, ll, #[trigger] mid[i], i) by {
            let k = i - p.cur;
            if 1 <= k {
                self.lemma_cost(o.litlen, 0);
                self.lemma_cost(o.litlen + k, 0);
                self.lemma_cost(lits, k);
            }
            if i <= p.last + TRAILING_LITERALS {
                assert(self.cell_ok(ip, ll, p.opt[i], i));
            }
            if MINMATCH <= k <= m.len {
                let w = self.whole();
                assert(self.stands_at(ip + p.cur, Found { len: k, off: m.off, back: 0 }));
            }
        }
        assert forall|i: int| 0 <= i <= last + TRAILING_LITERALS implies self.cell_ok(
            ip,
            ll,
            #[trigger] opt[i],
            i,
        ) by {
            if i <= last {
                assert(opt[i] == mid[i]);
            } else {
                assert(self.cell_ok(ip, ll, mid[last], last));
                self.lemma_cost(i - last, 0);
            }
        }
    }

    /// Looking at the positions of a stretch keeps what holds.
    pub proof fn lemma_explore(self, ip: int, ll: int, f: Effort, p: Plan)
        requires
            self.wf(),
            self.len() <= usize::MAX,
            0 <= ip,
            0 <= ll <= 0x7E00_0000,
            self.plan_ok(ip, ll, p),
        ensures
            ({
                let (q, end) = self.explore(ip, f, p);
                &&& self.plan_ok(ip, ll, q)
                &&& end matches Some(s) ==> {
                    &&& 1 <= s.at < q.last
                    &&& self.stands_at(
                        ip + s.at,
                        Found { len: s.len, off: s.off, back: 0 },
                    )
                }
            }),
        decreases OPT_NUM - p.cur,
    {
        if p.cur >= p.last || p.cur >= OPT_NUM || ip + p.cur > self.mflimit() {
        } else if self.passes(p, f) {
            self.lemma_explore(ip, ll, f, Plan { cur: p.cur + 1, ..p });
        } else {
            let least = if f.full {
                MINMATCH - 1
            } else {
                p.last - p.cur
            };
            self.lemma_longer(p.c, ip + p.cur, least, f);
            let (m, c) = self.longer(p.c, ip + p.cur, least, f);
            if m.len == 0 {
                self.lemma_explore(ip, ll, f, Plan { cur: p.cur + 1, c, ..p });
            } else if m.len > f.enough || m.len + p.cur >= OPT_NUM {
            } else {
                self.lemma_relaxed(ip, ll, Plan { c, ..p }, m, f.favor);
                let last = last_after(p.opt, p.last, p.cur, m, f.favor);
                let opt = trailed(relaxed(p.opt, p.last, p.cur, m, f.favor), last);
                self.lemma_explore(ip, ll, f, Plan { opt, last, cur: p.cur + 1, c });
            }
        }
    }

    /// The steps to a position follow each other up to it.
    pub proof fn lemma_path(self, ip: int, ll: int, p: Plan, cur: int)
        requires
            self.plan_ok(ip, ll, p),
            0 <= cur <= p.last,
        ensures
            self.route_ok(ip, path(p.opt, cur)),
            forall|k: int|
                0 <= k < path(p.opt, cur).len() ==> (#[trigger] path(p.opt, cur)[k]).at + path(
                    p.opt,
                    cur,
                )[k].len <= cur,
        decreases cur,
    {
        let o = p.opt[cur];
        assert(self.cell_ok(ip, ll, o, cur));
        if !(o.mlen < 1 || o.mlen > cur) {
            self.lemma_path(ip, ll, p, cur - o.mlen);
        }
    }

    /// The steps through a stretch follow each other.
    pub proof fn lemma_route(self, ip: int, ll: int, p: Plan, end: Option<Step>)
        requires
            self.wf(),
            self.plan_ok(ip, ll, p),
            0 <= ip,
            self.len() - ip <= 0x7E00_0000,
            end matches Some(s) ==> 1 <= s.at < p.last && self.stands_at(
                ip + s.at,
                Found { len: s.len, off: s.off, back: 0 },
            ),
        ensures
            ({
                let steps = self.route(p, end);
                let last = steps.last();
                &&& self.route_ok(ip, steps)
                &&& steps.len() > 0
                &&& 1 <= last.at + last.len
                &&& ip + last.at + last.len <= self.matchlimit()
                &&& 0 <= last.at <= p.last
            }),
    {
        assert(self.cell_ok(ip, ll, p.opt[p.last], p.last));
        let s = match end {
            Some(s) => s,
            None => {
                let o = p.opt[p.last];
                Step { at: p.last - o.mlen, len: o.mlen, off: o.off }
            },
        };
        self.lemma_path(ip, ll, p, s.at);
        let a = path(p.opt, s.at);
        let steps = a.push(s);
        assert forall|j: int, k: int| 0 <= j < k < steps.len() implies (#[trigger] steps[j]).at
            + steps[j].len <= (#[trigger] steps[k]).at by {
            if k == a.len() {
                assert(steps[j] == a[j]);
            } else {
                assert(steps[j] == a[j] && steps[k] == a[k]);
            }
        }
    }
}

/// The cheapest way to reach a position.
#[derive(Clone, Copy)]
struct Optimal {
    price: i64,
    off: usize,
    mlen: usize,
    litlen: usize,
}

impl View for Optimal {
    type V = Cell;

    closed spec fn view(&self) -> Cell {
        Cell {
            price: self.price as int,
            off: self.off as int,
            mlen: self.mlen as int,
            litlen: self.litlen as int,
        }
    }
}

/// What a table of prices stands for.
spec fn cells(s: Seq<Optimal>) -> Seq<Cell> {
    Seq::new(s.len(), |i: int| s[i]@)
}

/// What `n` literals cost.
fn literals_price(n: usize) -> (p: i64)
    requires
        n <= 0x7F00_0000,
    ensures
        p == literals_cost(n as int),
        0 <= p <= 0x8000_0000,
{
    let extra: i64 = if n >= 15 {
        1 + (n as i64 - 15) / 255
    } else {
        0
    };
    n as i64 + extra
}

/// What `ll` literals and a match of `ml` bytes cost.
fn sequence_price(ll: usize, ml: usize) -> (p: i64)
    requires
        ll <= 0x7F00_0000,
        ml <= 0x7F00_0000,
    ensures
        p == sequence_cost(ll as int, ml as int),
        0 <= p < DEAR,
{
    let extra: i64 = if ml >= 19 {
        1 + (ml as i64 - 19) / 255
    } else {
        0
    };
    3 + literals_price(ll) + extra
}

/// Prices a stretch that starts with the match `m`, behind `ll` literals.
fn seed(opt: &mut Vec<Optimal>, ll: usize, m: Match)
    requires
        old(opt)@.len() == OPT_ENTRIES,
        ll <= 0x7E00_0000,
        m.len < OPT_NUM,
    ensures
        final(opt)@.len() == OPT_ENTRIES,
        cells(final(opt)@) == seeded(cells(old(opt)@), ll as int, m@),
{
    reveal(seeded);
    let ghost old_opt = opt@;
    let ghost want = seeded(cells(old_opt), ll as int, m@);
    let whole = sequence_price(ll, m.len);
    let mut i: usize = 0;
    while i < MINMATCH || i <= m.len + TRAILING_LITERALS
        invariant
            opt@.len() == OPT_ENTRIES,
            old_opt.len() == OPT_ENTRIES,
            ll <= 0x7E00_0000,
            m.len < OPT_NUM,
            i <= m.len + 4 || i <= 4,
            want == seeded(cells(old_opt), ll as int, m@),
            whole == sequence_cost(ll as int, m.len as int),
            0 <= whole < DEAR,
            forall|j: int| 0 <= j < i ==> (#[trigger] opt@[j])@ == want[j],
            forall|j: int| i <= j < OPT_ENTRIES ==> #[trigger] opt@[j] == old_opt[j],
        decreases OPT_ENTRIES - i,
    {
        let o = if i < MINMATCH {
            Optimal { price: literals_price(ll + i), off: 0, mlen: 1, litlen: ll + i }
        } else if i <= m.len {
            Optimal { price: sequence_price(ll, i), off: m.off, mlen: i, litlen: ll }
        } else {
            let k = i - m.len;
            Optimal { price: whole + literals_price(k), off: 0, mlen: 1, litlen: k }
        };
        reveal(seeded);
        assert(o@ == want[i as int]);
        opt.set(i, o);
        i = i + 1;
    }
    assert(cells(opt@) =~= want);
}

/// Prices the literals behind `cur`, and matches there.
fn relax(opt: &mut Vec<Optimal>, last: usize, cur: usize, m: Match, favor: bool, Ghost(sc): Ghost<Scene>, Ghost(ip): Ghost<int>, Ghost(ll): Ghost<int>, Ghost(c): Ghost<Chains>) -> (r: usize)
    requires
        sc.plan_ok(
            ip,
            ll,
            Plan { opt: cells(old(opt)@), last: last as int, cur: cur as int, c },
        ),
        0 <= ll <= 0x7E00_0000,
        cur < last,
        MINMATCH <= m.len,
        m.len + cur < OPT_NUM,
    ensures
        final(opt)@.len() == OPT_ENTRIES,
        cells(final(opt)@) == relaxed(cells(old(opt)@), last as int, cur as int, m@, favor),
        r == last_after(cells(old(opt)@), last as int, cur as int, m@, favor),
        last <= r,
{
    let ghost old_opt = opt@;
    let ghost old_cells = cells(old_opt);
    let ghost want = relaxed(old_cells, last as int, cur as int, m@, favor);
    let o = opt[cur];
    assert(o@ == old_cells[cur as int]);
    assert(sc.cell_ok(ip, ll, old_cells[cur as int], cur as int));
    let (lits, prior): (usize, i64) = if o.mlen == 1 {
        let prior: i64 = if cur > o.litlen {
            assert(opt@[cur - o.litlen]@ == old_cells[cur - o.litlen]);
            assert(sc.cell_ok(ip, ll, old_cells[cur - o.litlen], cur - o.litlen));
            opt[cur - o.litlen].price
        } else {
            0
        };
        (o.litlen, prior)
    } else {
        (0, o.price)
    };
    assert((lits as int, prior as int) == before(old_cells, cur as int));
    let slack: i64 = if favor {
        1
    } else {
        0
    };
    let spent = literals_price(o.litlen);
    let mut reach = last;
    let mut k: usize = 1;
    assert forall|j: int| 0 <= j < cur + k implies (#[trigger] opt@[j])@ == want[j] by {
        reveal(relaxed);
        assert(opt@[j]@ == old_cells[j]);
    }
    while k <= m.len
        invariant
            MINMATCH <= m.len,
            reach == (if k <= m.len {
                last as int
            } else {
                last_after(old_cells, last as int, cur as int, m@, favor)
            }),
            opt@.len() == OPT_ENTRIES,
            old_opt.len() == OPT_ENTRIES,
            old_cells == cells(old_opt),
            want == relaxed(old_cells, last as int, cur as int, m@, favor),
            1 <= k <= m.len + 1,
            m.len + cur < OPT_NUM,
            cur < last < OPT_NUM,
            o@ == old_cells[cur as int],
            (lits as int, prior as int) == before(old_cells, cur as int),
            0 <= prior <= 0x2000_0000_0000,
            0 <= o.price <= 0x2000_0000_0000,
            lits <= 0x7E00_2000,
            o.litlen <= 0x7E00_2000,
            spent == literals_cost(o.litlen as int),
            0 <= spent <= 0x8000_0000,
            slack == (if favor {
                1int
            } else {
                0
            }),
            sc.plan_ok(
                ip,
                ll,
                Plan { opt: old_cells, last: last as int, cur: cur as int, c },
            ),
            forall|j: int| 0 <= j < cur + k ==> (#[trigger] opt@[j])@ == want[j],
            forall|j: int| cur + k <= j < OPT_ENTRIES ==> #[trigger] opt@[j] == old_opt[j],
        decreases m.len + 1 - k,
    {
        let i = cur + k;
        let was = opt[i];
        assert(was@ == old_cells[i as int]);
        reveal(relaxed);
        if k < MINMATCH {
            let lit = o.price - spent + literals_price(o.litlen + k);
            if lit < was.price {
                opt.set(
                    i,
                    Optimal { price: lit, off: 0, mlen: 1, litlen: o.litlen + k },
                );
            }
        } else {
            let seq = prior + sequence_price(lits, k);
            let replace = if i > last + TRAILING_LITERALS {
                true
            } else {
                assert(sc.cell_ok(ip, ll, old_cells[i as int], i as int));
                seq <= was.price - slack
            };
            if replace {
                opt.set(i, Optimal { price: seq, off: m.off, mlen: k, litlen: lits });
                if k == m.len && last < i {
                    reach = i;
                }
            }
        }
        assert(opt@[i as int]@ == want[i as int]);
        k = k + 1;
    }
    assert(cells(opt@) =~= want) by {
        reveal(relaxed);
    }
    reach
}

/// Prices the literals behind the last match.
fn trail(opt: &mut Vec<Optimal>, last: usize)
    requires
        old(opt)@.len() == OPT_ENTRIES,
        last < OPT_NUM,
        0 <= old(opt)@[last as int].price <= 0x2000_0000_0000,
    ensures
        final(opt)@.len() == OPT_ENTRIES,
        cells(final(opt)@) == trailed(cells(old(opt)@), last as int),
{
    let ghost old_opt = opt@;
    let price = opt[last].price;
    let mut k: usize = 1;
    while k <= TRAILING_LITERALS
        invariant
            opt@.len() == OPT_ENTRIES,
            old_opt.len() == OPT_ENTRIES,
            last < OPT_NUM,
            1 <= k <= 4,
            price == old_opt[last as int].price,
            0 <= price <= 0x2000_0000_0000,
            forall|j: int|
                0 <= j < OPT_ENTRIES && !(last < j < last + k) ==> #[trigger] opt@[j]
                    == old_opt[j],
            forall|j: int|
                last < j < last + k ==> (#[trigger] opt@[j])@ == literal(
                    price + literals_cost(j - last),
                    j - last,
                ),
        decreases 4 - k,
    {
        opt.set(
            last + k,
            Optimal { price: price + literals_price(k), off: 0, mlen: 1, litlen: k },
        );
        k = k + 1;
    }
    reveal(trailed);
    assert(cells(opt@) =~= trailed(cells(old_opt), last as int));
}

/// The match at `ip`, if it is longer than `least`.
fn find_longer_match(state: &mut HcState, v: &SrcView, ip: usize, least: usize, f: Effort, dict_ctx: Option<&MidDictCtx>, little: bool, Ghost(sc): Ghost<Scene>) -> (m: Match)
    requires
        old(state).wf(),
        in_order(*v, dict_ctx),
        sc == scene_of(*v, dict_ctx, little),
        ip <= sc.mflimit(),
        1 <= least,
        ip + least <= sc.matchlimit(),
    ensures
        final(state).wf(),
        same_but_tables(*final(state), *old(state)),
        (m@, chains(*final(state))) == sc.longer(
            chains(*old(state)),
            ip as int,
            least as int,
            f,
        ),
        m@ == nothing() || sc.stands_at(ip as int, m@),
{
    reveal(Scene::longer);
    proof {
        sc.lemma_longer(chains(*state), ip as int, least as int, f);
    }
    let h = Hunt {
        ip,
        low: ip,
        high: v.base.len() - 5,
        least,
        tries: f.searches,
        pattern: true,
        swap: true,
        favor: f.favor,
    };
    assert(h == sc.opt_hunt(ip as int, least as int, f));
    let mut m = insert_and_get_wider_match(state, v, h, dict_ctx, little);
    if m.len <= least {
        return Match { len: 0, off: 0, back: 0 };
    }
    if f.favor && m.len > 18 && m.len <= 36 {
        m.len = 18;
    }
    m
}

/// A step on the way through a stretch.
#[derive(Clone, Copy)]
struct Hop {
    at: usize,
    len: usize,
    off: usize,
}

impl View for Hop {
    type V = Step;

    closed spec fn view(&self) -> Step {
        Step { at: self.at as int, len: self.len as int, off: self.off as int }
    }
}

/// What an optional step stands for.
spec fn step_of(h: Option<Hop>) -> Option<Step> {
    match h {
        Some(s) => Some(s@),
        None => None,
    }
}

/// Looks at the positions of a stretch that starts at `ip`. Returns where its
/// last match ends, and the step that ended the looking, if one did.
fn explore_from(state: &mut HcState, v: &SrcView, ip: usize, opt: &mut Vec<Optimal>, first: usize, f: Effort, dict_ctx: Option<&MidDictCtx>, little: bool, Ghost(sc): Ghost<Scene>, Ghost(ll): Ghost<int>) -> (r: (usize, Option<Hop>))
    requires
        old(state).wf(),
        in_order(*v, dict_ctx),
        sc == scene_of(*v, dict_ctx, little),
        0 <= ll <= 0x7E00_0000,
        ip <= sc.mflimit(),
        sc.plan_ok(
            ip as int,
            ll,
            Plan {
                opt: cells(old(opt)@),
                last: first as int,
                cur: 1,
                c: chains(*old(state)),
            },
        ),
    ensures
        final(state).wf(),
        same_but_tables(*final(state), *old(state)),
        final(opt)@.len() == OPT_ENTRIES,
        ({
            let (q, end) = sc.explore(
                ip as int,
                f,
                Plan {
                    opt: cells(old(opt)@),
                    last: first as int,
                    cur: 1,
                    c: chains(*old(state)),
                },
            );
            &&& q.opt == cells(final(opt)@)
            &&& q.last == r.0
            &&& q.c == chains(*final(state))
            &&& end == step_of(r.1)
        }),
{
    let mflimit = v.base.len() - MFLIMIT;
    let mut last = first;
    let mut cur: usize = 1;
    let ghost p0 = Plan {
        opt: cells(opt@),
        last: first as int,
        cur: 1,
        c: chains(*state),
    };
    let ghost want = sc.explore(ip as int, f, p0);
    while cur < last && cur <= mflimit - ip
        invariant
            state.wf(),
            same_but_tables(*state, *old(state)),
            in_order(*v, dict_ctx),
            sc == scene_of(*v, dict_ctx, little),
            0 <= ll <= 0x7E00_0000,
            mflimit == sc.mflimit(),
            ip <= mflimit,
            cur <= last,
            sc.plan_ok(
                ip as int,
                ll,
                Plan { opt: cells(opt@), last: last as int, cur: cur as int, c: chains(*state) },
            ),
            want == sc.explore(
                ip as int,
                f,
                Plan { opt: cells(opt@), last: last as int, cur: cur as int, c: chains(*state) },
            ),
            want == sc.explore(
                ip as int,
                f,
                Plan {
                    opt: cells(old(opt)@),
                    last: first as int,
                    cur: 1,
                    c: chains(*old(state)),
                },
            ),
        decreases OPT_NUM - cur,
    {
        let ghost p = Plan {
            opt: cells(opt@),
            last: last as int,
            cur: cur as int,
            c: chains(*state),
        };
        assert(sc.cell_ok(ip as int, ll, p.opt[cur as int], cur as int));
        assert(sc.cell_ok(ip as int, ll, p.opt[cur + 1], cur + 1));
        assert(sc.cell_ok(ip as int, ll, p.opt[cur + 4], cur + 4));
        let here = opt[cur].price;
        let passes = opt[cur + 1].price <= here && (!f.full || opt[cur + MINMATCH].price < here + 3);
        assert(passes == sc.passes(p, f));
        if passes {
            cur = cur + 1;
            continue ;
        }
        let least = if f.full {
            MINMATCH - 1
        } else {
            last - cur
        };
        let m = find_longer_match(state, v, ip + cur, least, f, dict_ctx, little, Ghost(sc));
        if m.len == 0 {
            cur = cur + 1;
            continue ;
        }
        if m.len > f.enough || m.len >= OPT_NUM - cur {
            return (last, Some(Hop { at: cur, len: m.len, off: m.off }));
        }
        let ghost c = chains(*state);
        proof {
            sc.lemma_relaxed(ip as int, ll, Plan { c, ..p }, m@, f.favor);
        }
        let reach = relax(
            opt,
            last,
            cur,
            m,
            f.favor,
            Ghost(sc),
            Ghost(ip as int),
            Ghost(ll),
            Ghost(c),
        );
        assert(0 <= opt@[reach as int].price <= 0x2000_0000_0000) by {
            let done = trailed(cells(opt@), reach as int);
            reveal(trailed);
            assert(done[reach as int] == opt@[reach as int]@);
            assert(sc.cell_ok(ip as int, ll, done[reach as int], reach as int));
        }
        trail(opt, reach);
        last = reach;
        cur = cur + 1;
    }
    (last, None)
}

/// The steps through a stretch, last first.
fn route_back(opt: &Vec<Optimal>, last: usize, end: Option<Hop>, Ghost(sc): Ghost<Scene>, Ghost(ip): Ghost<int>, Ghost(ll): Ghost<int>, Ghost(p): Ghost<Plan>) -> (steps: Vec<Hop>)
    requires
        sc.plan_ok(ip, ll, p),
        p.opt == cells(opt@),
        p.last == last,
        step_of(end) matches Some(s) ==> 1 <= s.at < p.last,
    ensures
        steps@.len() == sc.route(p, step_of(end)).len(),
        forall|k: int|
            0 <= k < steps@.len() ==> #[trigger] sc.route(p, step_of(end))[k] == steps@[steps@.len()
                - 1 - k]@,
{
    assert(sc.cell_ok(ip, ll, p.opt[last as int], last as int));
    let s = match end {
        Some(s) => s,
        None => {
            let o = opt[last];
            assert(o@ == p.opt[last as int]);
            Hop { at: last - o.mlen, len: o.mlen, off: o.off }
        },
    };
    let ghost all = sc.route(p, step_of(end));
    let mut steps: Vec<Hop> = Vec::new();
    steps.push(s);
    let mut cur = s.at;
    let ghost mut tail: Seq<Step> = seq![s@];
    assert(path(p.opt, cur as int) + tail =~= all);
    loop
        invariant
            sc.plan_ok(ip, ll, p),
            p.opt == cells(opt@),
            p.last == last,
            cur <= last,
            all == path(p.opt, cur as int) + tail,
            tail.len() == steps@.len(),
            all == sc.route(p, step_of(end)),
            forall|k: int|
                0 <= k < tail.len() ==> #[trigger] tail[k] == steps@[steps@.len() - 1 - k]@,
        decreases cur,
    {
        let o = opt[cur];
        assert(o@ == p.opt[cur as int]);
        assert(sc.cell_ok(ip, ll, p.opt[cur as int], cur as int));
        if o.mlen > cur {
            assert(path(p.opt, cur as int) + tail =~= tail);
            return steps;
        }
        let h = Hop { at: cur - o.mlen, len: o.mlen, off: o.off };
        let ghost before_steps = steps@;
        steps.push(h);
        proof {
            let t2 = seq![h@] + tail;
            assert(path(p.opt, cur as int) + tail =~= path(p.opt, cur - o.mlen) + t2);
            assert forall|k: int| 0 <= k < t2.len() implies #[trigger] t2[k] == steps@[steps@.len()
                - 1 - k]@ by {
                if k > 0 {
                    assert(tail[k - 1] == before_steps[before_steps.len() - 1 - (k - 1)]@);
                }
            }
            tail = t2;
        }
        cur = cur - o.mlen;
    }
}

/// How far a parse has come.
struct Stand {
    ip: usize,
    anchor: usize,
    op: usize,
}

/// Whether a parse stands at a draft.
spec fn drafts(w: Stand, dst: Seq<u8>, d: Draft) -> bool {
    &&& w.anchor == d.anchor
    &&& w.op == d.op() <= dst.len()
    &&& dst.take(w.op as int) == enc_seqs(d.seqs)
}

/// Writes the steps of a stretch, given last first. Returns the result where
/// the block ends.
fn write_steps(v: &SrcView, dst: &mut [u8], w: &mut Stand, back: &Vec<Hop>, limit: Limit, Ghost(sc): Ghost<Scene>, Ghost(d0): Ghost<Draft>, Ghost(steps): Ghost<Seq<Step>>) -> (r: Option<(usize, usize)>)
    requires
        sc.wf(),
        sc.base == v.base@,
        sc.start == v.src_off,
        v.base.len() - v.src_off <= 0x7E00_0000,
        drafts(*old(w), old(dst)@, d0),
        v.src_off <= old(w).anchor <= old(w).ip,
        sc.route_ok(old(w).ip as int, steps),
        back@.len() == steps.len(),
        forall|k: int|
            0 <= k < steps.len() ==> #[trigger] steps[k] == back@[steps.len() - 1 - k]@,
    ensures
        final(dst)@.len() == old(dst)@.len(),
        final(w).ip == old(w).ip,
        match sc.follow_route(limit, old(dst)@.len() as int, d0, old(w).ip as int, steps, 0) {
            Put::Over(done) => r matches Some(x) && gave(done, x, final(dst)@),
            Put::On(d) => {
                &&& r is None
                &&& drafts(*final(w), final(dst)@, d)
                &&& old(w).anchor <= final(w).anchor
                &&& final(w).anchor <= old(w).ip || exists|k: int|
                    0 <= k < steps.len() && final(w).anchor <= old(w).ip + (#[trigger] steps[k]).at
                        + steps[k].len
            },
        },
{
    let ghost room = dst@.len() as int;
    let ip = w.ip;
    let ghost mut d = d0;
    let mut left = back.len();
    let ghost mut far: int = 0;
    while left > 0
        invariant
            sc.wf(),
            sc.base == v.base@,
            sc.start == v.src_off,
            v.base.len() - v.src_off <= 0x7E00_0000,
            dst@.len() == room,
            room == old(dst)@.len(),
            ip == old(w).ip,
            w.ip == ip,
            left <= back@.len() == steps.len(),
            drafts(*w, dst@, d),
            v.src_off <= old(w).anchor <= w.anchor,
            sc.route_ok(ip as int, steps),
            w.anchor <= ip || exists|k: int|
                0 <= k < steps.len() - left && w.anchor <= ip + (#[trigger] steps[k]).at
                    + steps[k].len,
            forall|k: int|
                0 <= k < steps.len() ==> #[trigger] steps[k] == back@[steps.len() - 1 - k]@,
            sc.follow_route(limit, room, d0, ip as int, steps, 0) == sc.follow_route(
                limit,
                room,
                d,
                ip as int,
                steps,
                steps.len() - left,
            ),
        decreases left,
    {
        let ghost n = steps.len() - left;
        let s = back[left - 1];
        assert(steps[n] == s@);
        left = left - 1;
        if s.len != 1 {
            assert(w.anchor <= ip + s.at);
            let r = place(
                v.base,
                dst,
                &mut w.op,
                &mut w.anchor,
                ip + s.at,
                s.len,
                s.off,
                limit,
                Ghost(sc),
                v.src_off,
                Ghost(d),
            );
            if r.is_some() {
                return r;
            }
            proof {
                d = sc.put(limit, room, d, ip + s.at, s.len as int, s.off as int)->On_0;
                assert(w.anchor <= ip + steps[n].at + steps[n].len);
            }
        }
    }
    None
}

/// Goes on from the position `ip`. Returns the result where the block ends.
fn opt_advance(state: &mut HcState, v: &SrcView, dst: &mut [u8], w: &mut Stand, opt: &mut Vec<Optimal>, limit: Limit, f: Effort, dict_ctx: Option<&MidDictCtx>, little: bool, Ghost(sc): Ghost<Scene>, Ghost(s): Ghost<Opt>) -> (r: Option<(usize, usize)>)
    requires
        old(state).wf(),
        in_order(*v, dict_ctx),
        sc == scene_of(*v, dict_ctx, little),
        v.base.len() - v.src_off <= 0x7E00_0000,
        f.enough < OPT_NUM,
        old(opt)@.len() == OPT_ENTRIES,
        s.c == chains(*old(state)),
        s.opt == cells(old(opt)@),
        s.ip == old(w).ip <= sc.mflimit(),
        drafts(*old(w), old(dst)@, s.d),
        v.src_off <= old(w).anchor <= old(w).ip,
    ensures
        final(state).wf(),
        same_but_tables(*final(state), *old(state)),
        final(opt)@.len() == OPT_ENTRIES,
        final(dst)@.len() == old(dst)@.len(),
        match sc.opt_step(limit, old(dst)@.len() as int, f, s) {
            OptNext::End(done, c) => (r matches Some(x) && gave(done, x, final(dst)@)) && c
                == chains(*final(state)),
            OptNext::Go(t) => {
                &&& r is None
                &&& t.c == chains(*final(state))
                &&& t.opt == cells(final(opt)@)
                &&& t.ip == final(w).ip
                &&& s.ip < t.ip <= sc.len()
                &&& drafts(*final(w), final(dst)@, t.d)
                &&& v.src_off <= final(w).anchor <= final(w).ip
            },
        },
{
    reveal(Scene::opt_step);
    let ghost room = dst@.len() as int;
    let ip = w.ip;
    let ll = ip - w.anchor;
    let m = find_longer_match(state, v, ip, MINMATCH - 1, f, dict_ctx, little, Ghost(sc));
    if m.len == 0 {
        w.ip = ip + 1;
        return None;
    }
    if m.len > f.enough {
        let r = place(
            v.base,
            dst,
            &mut w.op,
            &mut w.anchor,
            ip,
            m.len,
            m.off,
            limit,
            Ghost(sc),
            v.src_off,
            Ghost(s.d),
        );
        w.ip = ip + m.len;
        return r;
    }
    let ghost c = chains(*state);
    proof {
        sc.lemma_seeded(ip as int, ll as int, s.opt, m@, c);
    }
    seed(opt, ll, m);
    let ghost p0 = Plan {
        opt: cells(opt@),
        last: m.len as int,
        cur: 1,
        c,
    };
    proof {
        sc.lemma_explore(ip as int, ll as int, f, p0);
    }
    let (last, end) = explore_from(
        state,
        v,
        ip,
        opt,
        m.len,
        f,
        dict_ctx,
        little,
        Ghost(sc),
        Ghost(ll as int),
    );
    let ghost (p, e) = sc.explore(ip as int, f, p0);
    let ghost steps = sc.route(p, e);
    proof {
        sc.lemma_route(ip as int, ll as int, p, e);
    }
    let back = route_back(
        opt,
        last,
        end,
        Ghost(sc),
        Ghost(ip as int),
        Ghost(ll as int),
        Ghost(p),
    );
    assert(steps.last() == steps[steps.len() - 1]);
    let s_last = back[0];
    assert(steps.last() == s_last@);
    let r = write_steps(v, dst, w, &back, limit, Ghost(sc), Ghost(s.d), Ghost(steps));
    w.ip = ip + s_last.at + s_last.len;
    r
}

/// Compresses the block of `v` into `dst` at an upper level.
pub fn compress_optimal(state: &mut HcState, v: &SrcView, dst: &mut [u8], limit: Limit, f: Effort, dict_ctx: Option<&MidDictCtx>, little: bool) -> (r: (usize, usize))
    requires
        old(state).wf(),
        in_order(*v, dict_ctx),
        v.base.len() - v.src_off <= 0x7E00_0000,
        f.enough < OPT_NUM,
    ensures
        final(state).wf(),
        same_but_tables(*final(state), *old(state)),
        final(dst)@.len() == old(dst)@.len(),
        ({
            let (done, c) = scene_of(*v, dict_ctx, little).opt_outcome(
                chains(*old(state)),
                limit,
                old(dst)@.len() as int,
                f,
            );
            &&& gave(done, r, final(dst)@)
            &&& chains(*final(state)) == c
        }),
{
    let ghost sc = scene_of(*v, dict_ctx, little);
    let ghost room = dst@.len() as int;
    let mut w = Stand { ip: v.src_off, anchor: v.src_off, op: 0 };
    let ghost d = Draft { seqs: Seq::empty(), anchor: sc.start };
    assert(dst@.take(0) =~= Seq::<u8>::empty());
    if v.base.len() - v.src_off < MFLIMIT + 1 {
        return last_literals(v.base, dst, w.anchor, 0, limit, v.src_off, Ghost(d));
    }
    let mut opt: Vec<Optimal> = Vec::new();
    opt.resize(OPT_ENTRIES, Optimal { price: 0, off: 0, mlen: 0, litlen: 0 });
    assert(cells(opt@) =~= Seq::new(OPT_ENTRIES as nat, |i: int| unpriced()));
    let ghost mut s = Opt { c: chains(*state), d, ip: sc.start, opt: cells(opt@) };
    let mflimit = v.base.len() - MFLIMIT;
    while w.ip <= mflimit
        invariant
            state.wf(),
            same_but_tables(*state, *old(state)),
            in_order(*v, dict_ctx),
            sc == scene_of(*v, dict_ctx, little),
            v.base.len() - v.src_off <= 0x7E00_0000,
            mflimit == sc.mflimit(),
            f.enough < OPT_NUM,
            opt@.len() == OPT_ENTRIES,
            dst@.len() == room,
            room == old(dst)@.len(),
            s.c == chains(*state),
            s.opt == cells(opt@),
            s.ip == w.ip <= sc.len(),
            drafts(w, dst@, s.d),
            v.src_off <= w.anchor <= w.ip,
            sc.opt_outcome(chains(*old(state)), limit, room, f) == sc.opt_run(limit, room, f, s),
        decreases sc.len() - s.ip,
    {
        let ghost next = sc.opt_step(limit, room, f, s);
        let r = opt_advance(
            state,
            v,
            dst,
            &mut w,
            &mut opt,
            limit,
            f,
            dict_ctx,
            little,
            Ghost(sc),
            Ghost(s),
        );
        if let Some(x) = r {
            return x;
        }
        proof {
            s = next->Go_0;
        }
    }
    last_literals(v.base, dst, w.anchor, w.op, limit, v.src_off, Ghost(s.d))
}

} // verus!
