//! Following chains of positions with equal hashes.
use vstd::prelude::*;
use crate::block::table::{host_little_endian, load32};
use crate::format::{min_int, LZ4_DISTANCE_MAX, MINMATCH};
use super::chase::{
    farthest, lemma_run_fwd, run_back, run_fwd, slot, Chains, Chase, Chased, Found, Hunt,
};
use super::scene::{
    count_back, count_match, four_equal, in_order, scene_of, MidDictCtx, Scene, SrcView,
};
use super::{HcState, HASH_ENTRIES};

verus! {

/// The tables of a state.
pub open spec fn chains(s: HcState) -> Chains {
    Chains { hash: s.hash_table@, chain: s.chain_table@, next: s.next_to_update }
}

/// Where the four bytes at `at` are entered.
fn slot_at(s: &[u8], at: usize, little: bool) -> (h: usize)
    requires
        at + 4 <= s.len(),
    ensures
        h == slot(s@, at as int, little),
        h < HASH_ENTRIES,
{
    reveal(slot);
    let w = load32(s, at, little).wrapping_mul(2654435761);
    assert(w >> 17u32 < 32768) by (bit_vector);
    (w >> 17) as usize
}

/// Enters the positions before `target_pos` in the tables of `state`.
fn insert_chain(state: &mut HcState, base: &[u8], prefix_idx: u32, target_pos: usize, little: bool)
    requires
        old(state).wf(),
        prefix_idx + target_pos <= u32::MAX,
    ensures
        final(state).wf(),
        chains(*final(state)) == chains(*old(state)).upto(
            base@,
            prefix_idx,
            target_pos as int,
            little,
        ),
        *final(state) == (HcState {
            hash_table: final(state).hash_table,
            chain_table: final(state).chain_table,
            next_to_update: final(state).next_to_update,
            ..*old(state)
        }),
{
    let target = prefix_idx + target_pos as u32;
    let mut idx = state.next_to_update;
    let ghost c0 = chains(*state);
    let ghost want = c0.enter_upto(base@, prefix_idx, idx as int, target as int, little);
    while prefix_idx <= idx && idx < target && base.len() >= MINMATCH && (idx - prefix_idx) as usize
        <= base.len() - MINMATCH
        invariant
            state.wf(),
            want == chains(*state).enter_upto(base@, prefix_idx, idx as int, target as int, little),
            *state == (HcState {
                hash_table: state.hash_table,
                chain_table: state.chain_table,
                ..*old(state)
            }),
            target == prefix_idx + target_pos,
            target_pos <= u32::MAX,
        decreases target - idx,
    {
        let ghost c = chains(*state);
        let h = slot_at(base, (idx - prefix_idx) as usize, little);
        let delta = idx.wrapping_sub(state.hash_table[h]);
        let step: u16 = if delta > LZ4_DISTANCE_MAX as u32 {
            65535
        } else {
            delta as u16
        };
        state.chain_table.set((idx % 65536) as usize, step);
        state.hash_table.set(h, idx);
        assert(chains(*state) == c.enter(base@, prefix_idx, idx as int, little));
        idx = idx + 1;
    }
    state.next_to_update = target;
    assert(chains(*state) =~= c0.upto(base@, prefix_idx, target_pos as int, little));
}

/// Enters the positions of `base` before `target_pos` in the tables of `state`.
/// `base[0]` is where the prefix starts.
pub fn fill_chain_table(state: &mut HcState, base: &[u8], target_pos: usize)
    requires
        old(state).wf(),
        old(state).dict_limit + target_pos <= u32::MAX,
    ensures
        final(state).wf(),
        exists|little: bool|
            chains(*final(state)) == #[trigger] chains(*old(state)).upto(
                base@,
                old(state).dict_limit,
                target_pos as int,
                little,
            ),
        *final(state) == (HcState {
            hash_table: final(state).hash_table,
            chain_table: final(state).chain_table,
            next_to_update: final(state).next_to_update,
            ..*old(state)
        }),
{
    let little = host_little_endian();
    let prefix_idx = state.dict_limit;
    insert_chain(state, base, prefix_idx, target_pos, little);
}

/// A match: its length, how far back it refers, and how far before the position
/// that was looked at it starts. A length of zero stands for none.
#[derive(Clone, Copy)]
pub struct Match {
    pub len: usize,
    pub off: usize,
    pub back: usize,
}

impl View for Match {
    type V = Found;

    open spec fn view(&self) -> Found {
        Found { len: self.len as int, off: self.off as int, back: self.back as int }
    }
}

/// How far a search has come.
#[derive(Clone, Copy)]
struct Trail {
    mi: u32,
    tries: usize,
    hop: u32,
    longest: usize,
    best: Match,
}

impl View for Trail {
    type V = Chase;

    closed spec fn view(&self) -> Chase {
        Chase {
            mi: self.mi as int,
            tries: self.tries as int,
            hop: self.hop as int,
            longest: self.longest as int,
            best: self.best@,
        }
    }
}

/// Whether `r` tells what `c` does.
spec fn told(r: (bool, Trail), c: Chased) -> bool {
    match c {
        Chased::End(t) => !r.0 && r.1@ == t,
        Chased::On(t) => r.0 && r.1@ == t,
    }
}

/// What is searched, and for what.
struct Field<'a> {
    v: &'a SrcView<'a>,
    h: Hunt,
    sc: Ghost<Scene>,
}

impl<'a> Field<'a> {
    spec fn wf(&self) -> bool {
        let sc = self.sc@;
        &&& sc.hunts(self.h)
        &&& sc.base == self.v.base@
        &&& sc.prefix == self.v.prefix_idx
        &&& sc.dict == self.v.dict@
        &&& sc.low == self.v.dict_idx
    }

    /// The index of the position that is looked at.
    fn index(&self) -> (i: u32)
        requires
            self.wf(),
        ensures
            i == self.sc@.index(self.h.ip as int),
    {
        self.v.prefix_idx + self.h.ip as u32
    }

    /// The least index that a match may refer to.
    fn lowest(&self) -> (i: u32)
        requires
            self.wf(),
        ensures
            i == self.sc@.lowest(self.h.ip as int),
    {
        let index = self.index();
        if index - self.v.dict_idx <= LZ4_DISTANCE_MAX as u32 {
            self.v.dict_idx
        } else {
            index - LZ4_DISTANCE_MAX as u32
        }
    }

    /// How far a match with the bytes at `at` of `s` extends.
    fn extent(&self, s: &[u8], at: usize, limit: usize) -> (r: (usize, usize))
        requires
            self.wf(),
            at + 4 <= s.len(),
            limit <= self.v.base.len(),
        ensures
            (r.0 as int, r.1 as int) == self.sc@.extent(self.h, s@, at as int, limit as int),
            r.1 <= self.h.ip,
            r.0 >= r.1 + 4,
            self.h.ip + (r.0 - r.1) <= self.v.base.len(),
    {
        let h = self.h;
        let base = self.v.base;
        let back = count_back(base, h.ip, s, at, (h.ip - h.low).min(at));
        let more = count_match(base, h.ip + 4, s, at + 4, limit);
        assert(h.ip + 4 + more <= base.len());
        (4 + more + back, back)
    }

    fn near_probe(&self, mi: u32, longest: usize) -> (r: (usize, usize))
        requires
            self.wf(),
            self.sc@.prefix <= mi < self.sc@.index(self.h.ip as int),
            1 <= longest,
        ensures
            (r.0 as int, r.1 as int) == self.sc@.near_probe(self.h, mi as int, longest as int),
    {
        reveal(Scene::near_probe);
        let h = self.h;
        let base = self.v.base;
        let at = (mi - self.v.prefix_idx) as usize;
        if longest > base.len() - h.low {
            return (0, 0);
        }
        let mine = h.low + longest - 1;
        let look = h.ip - h.low;
        let its = if longest - 1 >= look {
            at + (longest - 1 - look)
        } else if at >= look - (longest - 1) {
            at - (look - (longest - 1))
        } else {
            return (0, 0);
        };
        if base.len() - mine < 2 || base[mine] != base[its] || base[mine + 1] != base[its + 1] {
            return (0, 0);
        }
        if !four_equal(base, h.ip, base, at) {
            return (0, 0);
        }
        self.extent(base, at, h.high)
    }

    fn dict_probe(&self, mi: u32) -> (r: (usize, usize))
        requires
            self.wf(),
            self.sc@.lowest(self.h.ip as int) <= mi < self.sc@.prefix,
            self.sc@.low <= mi,
        ensures
            (r.0 as int, r.1 as int) == self.sc@.dict_probe(self.h, mi as int),
    {
        reveal(Scene::dict_probe);
        let h = self.h;
        let v = self.v;
        let gap = (v.prefix_idx - mi) as usize;
        let at = (mi - v.dict_idx) as usize;
        if gap < 4 || !four_equal(v.base, h.ip, v.dict, at) {
            return (0, 0);
        }
        let limit = if gap < h.high - h.ip {
            h.ip + gap
        } else {
            h.high
        };
        assert(limit == min_int(h.high as int, h.ip + self.sc@.prefix - mi));
        let (n, back) = self.extent(v.dict, at, limit);
        proof {
            self.sc@.lemma_probe(h, mi as int, 0);
        }
        let fwd = n - back;
        if h.ip + fwd == limit && limit < h.high {
            let more = count_match(v.base, limit, v.base, 0, h.high);
            return (n + more, back);
        }
        (n, back)
    }

    /// The match with the candidate of index `mi`.
    fn probe(&self, mi: u32, longest: usize) -> (r: (usize, usize))
        requires
            self.wf(),
            self.sc@.lowest(self.h.ip as int) <= mi < self.sc@.index(self.h.ip as int),
            1 <= longest,
        ensures
            (r.0 as int, r.1 as int) == self.sc@.probe(self.h, mi as int, longest as int),
    {
        if self.h.favor && self.index() - mi < 8 {
            (0, 0)
        } else if mi >= self.v.prefix_idx {
            self.near_probe(mi, longest)
        } else {
            self.dict_probe(mi)
        }
    }
}

/// How many bytes from `at` on, before `limit`, are `b`.
fn count_run(s: &[u8], at: usize, limit: usize, b: u8) -> (n: usize)
    requires
        limit <= s.len(),
    ensures
        n == run_fwd(s@, at as int, limit as int, b),
        at <= limit ==> at + n <= limit,
        at > limit ==> n == 0,
{
    if at >= limit {
        return 0;
    }
    let mut i = at;
    while i < limit && s[i] == b
        invariant
            at <= i <= limit <= s.len(),
            run_fwd(s@, at as int, limit as int, b) == i - at + run_fwd(
                s@,
                i as int,
                limit as int,
                b,
            ),
        decreases limit - i,
    {
        i = i + 1;
    }
    i - at
}

/// How many bytes before `at` are `b`.
fn count_run_back(s: &[u8], at: usize, b: u8) -> (n: usize)
    requires
        at <= s.len(),
    ensures
        n == run_back(s@, at as int, b),
        n <= at,
{
    let mut i = at;
    while i > 0 && s[i - 1] == b
        invariant
            i <= at <= s.len(),
            run_back(s@, at as int, b) == at - i + run_back(s@, i as int, b),
        decreases i,
    {
        i = i - 1;
    }
    at - i
}

/// Of the positions of a match, the one whose chain leads farthest.
fn farthest_at(chain: &Vec<u16>, mi: u32, end: usize, hop: u32, Ghost(c): Ghost<Chains>) -> (r: (u32, u32))
    requires
        c.wf(),
        chain@ == c.chain,
        mi + end <= u32::MAX,
    ensures
        (r.0 as int, r.1 as int) == farthest(c, mi as int, 0, end as int, 16, 1, hop as int),
        r.0 <= 65535,
{
    let mut dist: u32 = 1;
    let mut best = hop;
    let mut accel: u64 = 16;
    let mut pos: usize = 0;
    while pos < end
        invariant
            c.wf(),
            chain@ == c.chain,
            mi + end <= u32::MAX,
            16 <= accel <= 16 + pos,
            dist <= 65535,
            farthest(c, mi as int, 0, end as int, 16, 1, hop as int) == farthest(
                c,
                mi as int,
                pos as int,
                end as int,
                accel as int,
                dist as int,
                best as int,
            ),
        decreases end - pos,
    {
        let cand = chain[((mi + pos as u32) % 65536) as usize] as u32;
        assert(cand == c.step(mi + pos));
        let step = accel / 16;
        if cand > dist {
            dist = cand;
            best = pos as u32;
            accel = 16;
        } else {
            accel = accel + 1;
        }
        if step >= (end - pos) as u64 {
            proof {
                let (d, k) = (dist as int, best as int);
                assert(farthest(c, mi as int, pos + step, end as int, accel as int, d, k) == (d, k));
            }
            return (dist, best);
        }
        pos = pos + step as usize;
    }
    (dist, best)
}

impl<'a> Field<'a> {
    /// Whether the candidate before `mi` lies in a run of the byte that `ip`
    /// starts a run of.
    fn in_run(&self, mi: u32) -> (r: bool)
        requires
            self.wf(),
            0 < mi < self.sc@.index(self.h.ip as int),
        ensures
            r == self.sc@.in_run(self.h, mi as int),
    {
        let v = self.v;
        let ip = self.h.ip;
        let b = v.base[ip];
        if v.base[ip + 1] != b || v.base[ip + 2] != b || v.base[ip + 3] != b {
            return false;
        }
        let i = mi - 1;
        if i < self.lowest() {
            return false;
        }
        if i < v.prefix_idx {
            if v.prefix_idx - i < 4 {
                return false;
            }
            let at = (i - v.dict_idx) as usize;
            four_equal(v.base, ip, v.dict, at)
        } else {
            let at = (i - v.prefix_idx) as usize;
            four_equal(v.base, ip, v.base, at)
        }
    }

    fn run_ahead(&self, i: u32) -> (n: usize)
        requires
            self.wf(),
            self.sc@.in_run(self.h, i + 1),
            i < self.sc@.index(self.h.ip as int),
        ensures
            n == self.sc@.run_ahead(self.h, i as int),
    {
        reveal(Scene::run_ahead);
        let v = self.v;
        let b = v.base[self.h.ip];
        if i < v.prefix_idx {
            let at = (i - v.dict_idx) as usize;
            let n = 4 + count_run(v.dict, at + 4, v.dict.len(), b);
            proof {
                self.sc@.lemma_run_ahead(self.h, i as int);
                lemma_run_fwd(v.base@, 0, self.h.high as int, b);
                lemma_run_fwd(v.dict@, at + 4, v.dict@.len() as int, b);
            }
            assert(v.dict.len() + v.base.len() <= u32::MAX);
            if at + n == v.dict.len() {
                n + count_run(v.base, 0, self.h.high, b)
            } else {
                n
            }
        } else {
            let at = (i - v.prefix_idx) as usize;
            let k = count_run(v.base, at + 4, self.h.high, b);
            assert(at + 4 <= v.base.len());
            4 + k
        }
    }

    fn run_behind(&self, i: u32) -> (n: usize)
        requires
            self.wf(),
            self.sc@.lowest(self.h.ip as int) <= i < self.sc@.index(self.h.ip as int),
        ensures
            n == self.sc@.run_behind(self.h, i as int),
    {
        reveal(Scene::run_behind);
        let v = self.v;
        let b = v.base[self.h.ip];
        let n: u64 = if i < v.prefix_idx {
            count_run_back(v.dict, (i - v.dict_idx) as usize, b) as u64
        } else {
            let at = (i - v.prefix_idx) as usize;
            let k = count_run_back(v.base, at, b);
            if k == at && v.dict_idx < v.prefix_idx {
                let more = count_run_back(v.dict, v.dict.len(), b);
                assert(v.dict.len() <= u32::MAX && k <= u32::MAX);
                k as u64 + more as u64
            } else {
                k as u64
            }
        };
        let most = i - self.lowest();
        if n < most as u64 {
            n as usize
        } else {
            most as usize
        }
    }

    /// Whether four bytes at the index `i` do not straddle the end of the
    /// dictionary.
    fn protected(&self, i: u32) -> (r: bool)
        requires
            self.wf(),
        ensures
            r == self.sc@.protected(i as int),
    {
        i >= self.v.prefix_idx || self.v.prefix_idx - i >= 4
    }

    fn ride(&self, chain: &Vec<u16>, t: Trail, Ghost(c): Ghost<Chains>) -> (r: (bool, Trail))
        requires
            self.wf(),
            c.wf(),
            chain@ == c.chain,
            self.sc@.chasing(self.h, t@),
            0 < t.mi < self.sc@.index(self.h.ip as int),
            self.sc@.in_run(self.h, t.mi as int),
        ensures
            told(r, self.sc@.ride(self.h, c, t@)),
    {
        reveal(Scene::ride);
        proof {
            self.sc@.lemma_ride(self.h, c, t@);
        }
        let h = self.h;
        let b = self.v.base[h.ip];
        let i = t.mi - 1;
        let ahead = self.run_ahead(i);
        let behind = self.run_behind(i);
        let own = 4 + count_run(self.v.base, h.ip + 4, h.high, b);
        assert(own == self.sc@.own_run(h));
        if ahead <= own && behind >= own - ahead {
            let to = i - (own - ahead) as u32;
            let mi = if self.protected(to) {
                to
            } else {
                self.v.prefix_idx
            };
            return (true, Trail { mi, ..t });
        }
        let to = i - behind as u32;
        if !self.protected(to) {
            return (true, Trail { mi: self.v.prefix_idx, ..t });
        }
        if h.ip != h.low {
            return (true, Trail { mi: to, ..t });
        }
        let most = if own <= ahead || own - ahead <= behind {
            own
        } else {
            behind + ahead
        };
        assert(most == min_int(behind + ahead, own as int));
        let mut u = Trail { mi: to, ..t };
        if t.longest < most {
            u.longest = most;
            u.best = Match { len: most, off: (self.index() - to) as usize, back: 0 };
        }
        let next = chain[(to % 65536) as usize] as u32;
        assert(next == c.step(to as int));
        if next == 0 || next > to {
            (false, u)
        } else {
            u.mi = to - next;
            (true, u)
        }
    }

    fn follow(&self, chain: &Vec<u16>, n: usize, t: Trail, Ghost(c): Ghost<Chains>) -> (r: (bool, Trail))
        requires
            self.wf(),
            c.wf(),
            chain@ == c.chain,
            self.sc@.chasing(self.h, t@),
            n <= self.v.base.len(),
            self.sc@.lowest(self.h.ip as int) <= t.mi < self.sc@.index(self.h.ip as int),
        ensures
            told(r, self.sc@.follow(self.h, c, n as int, t@)),
    {
        reveal(Scene::follow);
        let h = self.h;
        let mut t = t;
        let index = self.index();
        if h.swap && n == t.longest && h.ip == h.low && t.longest as u32 <= index - t.mi {
            let end = if t.longest >= MINMATCH {
                t.longest - MINMATCH + 1
            } else {
                1
            };
            let (dist, hop) = farthest_at(chain, t.mi, end, t.hop, Ghost(c));
            t.hop = hop;
            if dist > 1 {
                if dist > t.mi {
                    return (false, t);
                }
                t.mi = t.mi - dist;
                return (true, t);
            }
        }
        let next = chain[(t.mi % 65536) as usize] as u32;
        assert(next == c.step(t.mi as int));
        if h.pattern && next == 1 && t.hop == 0 && t.mi > 0 && self.in_run(t.mi) {
            return self.ride(chain, t, Ghost(c));
        }
        let i: u64 = (t.mi as u64 + t.hop as u64) % 65536;
        let next = chain[i as usize] as u32;
        assert(next == c.step(t.mi + t.hop));
        if next == 0 || next > t.mi {
            return (false, t);
        }
        t.mi = t.mi - next;
        (true, t)
    }

    /// Tries one candidate.
    fn try_one(&self, chain: &Vec<u16>, t: Trail, Ghost(c): Ghost<Chains>) -> (r: (bool, Trail))
        requires
            self.wf(),
            c.wf(),
            chain@ == c.chain,
            self.sc@.chasing(self.h, t@),
            self.sc@.lowest(self.h.ip as int) <= t.mi,
            t.tries > 0,
        ensures
            told(r, self.sc@.try_one(self.h, c, t@)),
    {
        reveal(Scene::try_one);
        let mut t = t;
        t.tries = t.tries - 1;
        let index = self.index();
        if t.mi >= index {
            return (false, t);
        }
        proof {
            self.sc@.lemma_probe(self.h, t.mi as int, t.longest as int);
        }
        let (n, back) = self.probe(t.mi, t.longest);
        if n > t.longest {
            t.longest = n;
            t.best = Match { len: n, off: (index - t.mi) as usize, back };
        }
        assert(self.sc@.chasing(self.h, t@));
        self.follow(chain, n, t, Ghost(c))
    }

    /// Searches the prefix and the dictionary.
    fn chase(&self, chain: &Vec<u16>, t0: Trail, Ghost(c): Ghost<Chains>) -> (r: Trail)
        requires
            self.wf(),
            c.wf(),
            chain@ == c.chain,
            self.sc@.chasing(self.h, t0@),
        ensures
            r@ == self.sc@.chase(self.h, c, t0@),
            self.sc@.chasing(self.h, r@),
    {
        let lowest = self.lowest();
        let mut t = t0;
        while t.mi >= lowest && t.tries > 0
            invariant
                self.wf(),
                c.wf(),
                chain@ == c.chain,
                self.sc@.chasing(self.h, t@),
                self.sc@.chase(self.h, c, t0@) == self.sc@.chase(self.h, c, t@),
                lowest == self.sc@.lowest(self.h.ip as int),
            decreases t.tries,
        {
            proof {
                self.sc@.lemma_try_one(self.h, c, t@);
            }
            let (on, next) = self.try_one(chain, t, Ghost(c));
            t = next;
            if !on {
                return t;
            }
        }
        t
    }

    /// Tries one candidate in the attached dictionary.
    fn try_far(&self, d: &MidDictCtx, end: u32, t: Trail) -> (r: (bool, Trail))
        requires
            self.wf(),
            d.wf(),
            self.sc@.attached == Some(d.attachment()),
            end == d.attachment().end(),
            self.sc@.chasing(self.h, t@),
            t.mi + self.sc@.low >= end,
            0 <= self.sc@.far_off(self.h.ip as int, t.mi as int) <= LZ4_DISTANCE_MAX,
            t.tries > 0,
        ensures
            told(r, self.sc@.try_far(self.h, t@)),
    {
        reveal(Scene::try_far);
        proof {
            self.sc@.lemma_try_far(self.h, t@);
        }
        let v = self.v;
        let mut t = t;
        t.tries = t.tries - 1;
        if t.mi < d.dict_limit {
            return (false, t);
        }
        let at = (t.mi - d.dict_limit) as usize;
        let rel: u64 = t.mi as u64 + v.dict_idx as u64 - end as u64;
        if d.prefix.len() >= 4 && at <= d.prefix.len() - 4 && four_equal(
            v.base,
            self.h.ip,
            d.prefix,
            at,
        ) {
            let (n, back) = self.extent(d.prefix, at, self.h.high);
            if n > t.longest {
                t.longest = n;
                t.best = Match { len: n, off: (self.index() as u64 - rel) as usize, back };
            }
        }
        let next = d.chain_table[(t.mi % 65536) as usize] as u32;
        if next == 0 || next > t.mi || next as u64 > rel {
            return (false, t);
        }
        t.mi = t.mi - next;
        (true, t)
    }

    /// Searches the attached dictionary.
    fn chase_far(&self, d: &MidDictCtx, t0: Trail) -> (r: Trail)
        requires
            self.wf(),
            d.wf(),
            self.sc@.attached == Some(d.attachment()),
            self.sc@.chasing(self.h, t0@),
            t0.mi + self.sc@.low >= d.attachment().end(),
        ensures
            r@ == self.sc@.chase_far(self.h, t0@),
    {
        let end = d.l_dict_end_index();
        let index = self.index();
        let mut t = t0;
        loop
            invariant
                self.wf(),
                d.wf(),
                self.sc@.attached == Some(d.attachment()),
                end == d.attachment().end(),
                index == self.sc@.index(self.h.ip as int),
                self.sc@.chasing(self.h, t@),
                t.mi + self.sc@.low >= end,
                self.sc@.chase_far(self.h, t0@) == self.sc@.chase_far(self.h, t@),
            decreases t.tries,
        {
            let rel: u64 = t.mi as u64 + self.v.dict_idx as u64 - end as u64;
            if t.tries == 0 || rel > index as u64 || index as u64 - rel > LZ4_DISTANCE_MAX as u64 {
                return t;
            }
            proof {
                self.sc@.lemma_try_far(self.h, t@);
            }
            let (on, next) = self.try_far(d, end, t);
            t = next;
            if !on {
                return t;
            }
        }
    }
}

/// Looks for a match; the positions before it are entered in the tables of
/// `state`.
pub fn insert_and_get_wider_match(state: &mut HcState, v: &SrcView, h: Hunt, dict_ctx: Option<&MidDictCtx>, little: bool) -> (m: Match)
    requires
        old(state).wf(),
        in_order(*v, dict_ctx),
        scene_of(*v, dict_ctx, little).hunts(h),
    ensures
        final(state).wf(),
        chains(*final(state)) == chains(*old(state)).upto(
            v.base@,
            v.prefix_idx,
            h.ip as int,
            little,
        ),
        *final(state) == (HcState {
            hash_table: final(state).hash_table,
            chain_table: final(state).chain_table,
            next_to_update: final(state).next_to_update,
            ..*old(state)
        }),
        m@ == scene_of(*v, dict_ctx, little).wider(h, chains(*final(state))),
        scene_of(*v, dict_ctx, little).has(h, m@),
{
    let ghost sc = scene_of(*v, dict_ctx, little);
    insert_chain(state, v.base, v.prefix_idx, h.ip, little);
    let ghost c = chains(*state);
    proof {
        sc.lemma_wider(h, c);
    }
    let f = Field { v, h, sc: Ghost(sc) };
    let at = slot_at(v.base, h.ip, little);
    let t0 = Trail {
        mi: state.hash_table[at],
        tries: h.tries,
        hop: 0,
        longest: h.least,
        best: Match { len: 0, off: 0, back: 0 },
    };
    let t = f.chase(&state.chain_table, t0, Ghost(c));
    if let Some(d) = dict_ctx {
        if t.tries > 0 && f.lowest() == v.dict_idx {
            let end = d.l_dict_end_index();
            let l = d.hash_table[at];
            if l as u64 + v.dict_idx as u64 <= u32::MAX as u64 && l as u64 + v.dict_idx as u64 >= end as u64 {
                let u = f.chase_far(d, Trail { mi: l, ..t });
                return u.best;
            }
        }
    }
    t.best
}

} // verus!
