//! Following chains of positions with equal hashes, as mathematics.
use vstd::prelude::*;
use crate::block::table::word32;
use crate::format::{min_int, LZ4_DISTANCE_MAX, MINMATCH};
use super::scene::{agree, agree_back, lemma_agree, lemma_agree_back, same4, Scene};
use super::{CHAIN_ENTRIES, HASH_ENTRIES};

verus! {

/// Where the four bytes at `at` are entered.
#[verifier::opaque]
pub open spec fn slot(s: Seq<u8>, at: int, little: bool) -> int {
    (word32(s, at, little).wrapping_mul(2654435761u32) >> 17u32) as int
}

pub proof fn lemma_slot(s: Seq<u8>, at: int, little: bool)
    ensures
        0 <= slot(s, at, little) < HASH_ENTRIES,
{
    reveal(slot);
    let w = word32(s, at, little).wrapping_mul(2654435761u32);
    assert(w >> 17u32 < 32768) by (bit_vector);
}

/// The tables: the last position with each hash, and for each position how far
/// back the one before it with the same hash is.
#[verifier::ext_equal]
pub struct Chains {
    pub hash: Seq<u32>,
    pub chain: Seq<u16>,
    /// The index of the first byte that is not entered.
    pub next: u32,
}

impl Chains {
    pub open spec fn wf(self) -> bool {
        &&& self.hash.len() == HASH_ENTRIES
        &&& self.chain.len() == CHAIN_ENTRIES
    }

    /// How far back the position before the one with index `i` is.
    pub open spec fn step(self, i: int) -> int {
        self.chain[i % 65536] as int
    }

    /// The tables with the position of index `idx` entered.
    pub open spec fn enter(self, s: Seq<u8>, prefix: u32, idx: int, little: bool) -> Chains {
        let h = slot(s, idx - prefix, little);
        let delta = (idx as u32).wrapping_sub(self.hash[h]);
        Chains {
            hash: self.hash.update(h, idx as u32),
            chain: self.chain.update(
                idx % 65536,
                if delta > LZ4_DISTANCE_MAX {
                    65535u16
                } else {
                    delta as u16
                },
            ),
            ..self
        }
    }

    /// The tables with the positions from index `idx` up to `target` entered,
    /// as far as there are four bytes at them.
    pub open spec fn enter_upto(self, s: Seq<u8>, prefix: u32, idx: int, target: int, little: bool) -> Chains
        decreases target - idx,
    {
        if prefix <= idx < target && idx - prefix + 4 <= s.len() {
            self.enter(s, prefix, idx, little).enter_upto(s, prefix, idx + 1, target, little)
        } else {
            self
        }
    }

    /// The tables with everything before the position `at` entered.
    pub open spec fn upto(self, s: Seq<u8>, prefix: u32, at: int, little: bool) -> Chains {
        Chains {
            next: (prefix + at) as u32,
            ..self.enter_upto(s, prefix, self.next as int, prefix + at, little)
        }
    }
}

pub proof fn lemma_enter_upto(c: Chains, s: Seq<u8>, prefix: u32, idx: int, target: int, little: bool)
    requires
        c.wf(),
    ensures
        c.enter_upto(s, prefix, idx, target, little).wf(),
    decreases target - idx,
{
    if prefix <= idx < target && idx - prefix + 4 <= s.len() {
        lemma_slot(s, idx - prefix, little);
        lemma_enter_upto(c.enter(s, prefix, idx, little), s, prefix, idx + 1, target, little);
    }
}

/// What is looked for: a match that covers `ip`, starts no earlier than `low`,
/// ends no later than `high` and is longer than `least`.
#[derive(Clone, Copy)]
pub struct Hunt {
    pub ip: usize,
    pub low: usize,
    pub high: usize,
    pub least: usize,
    /// How many candidates are tried.
    pub tries: usize,
    /// Whether runs of one byte are treated in one go.
    pub pattern: bool,
    /// Whether chains of later positions in a match are followed where they
    /// lead farther.
    pub swap: bool,
    /// Whether short distances are avoided.
    pub favor: bool,
}

/// A match: its length, how far back it refers, and how far before `ip` it
/// starts. A length of zero stands for none.
#[verifier::ext_equal]
pub struct Found {
    pub len: int,
    pub off: int,
    pub back: int,
}

/// How far a search has come: the index of the next candidate, how many may
/// still be tried, how far into the match the chain is followed, the length to
/// beat, and the best match.
#[verifier::ext_equal]
pub struct Chase {
    pub mi: int,
    pub tries: int,
    pub hop: int,
    pub longest: int,
    pub best: Found,
}

/// What a candidate leads to.
#[verifier::ext_equal]
pub enum Chased {
    End(Chase),
    On(Chase),
}

/// How many bytes from `at` on, before `limit`, are `b`.
pub open spec fn run_fwd(s: Seq<u8>, at: int, limit: int, b: u8) -> int
    decreases limit - at,
{
    if at < limit && s[at] == b {
        1 + run_fwd(s, at + 1, limit, b)
    } else {
        0
    }
}

/// How many bytes before `at` are `b`.
pub open spec fn run_back(s: Seq<u8>, at: int, b: u8) -> int
    decreases at,
{
    if at > 0 && s[at - 1] == b {
        1 + run_back(s, at - 1, b)
    } else {
        0
    }
}

pub proof fn lemma_run_fwd(s: Seq<u8>, at: int, limit: int, b: u8)
    ensures
        0 <= run_fwd(s, at, limit, b),
        at <= limit ==> at + run_fwd(s, at, limit, b) <= limit,
        at > limit ==> run_fwd(s, at, limit, b) == 0,
        forall|i: int| at <= i < at + run_fwd(s, at, limit, b) ==> #[trigger] s[i] == b,
    decreases limit - at,
{
    if at < limit && s[at] == b {
        lemma_run_fwd(s, at + 1, limit, b);
    }
}

pub proof fn lemma_run_back(s: Seq<u8>, at: int, b: u8)
    ensures
        0 <= run_back(s, at, b),
        at >= 0 ==> run_back(s, at, b) <= at,
        forall|i: int| at - run_back(s, at, b) <= i < at ==> #[trigger] s[i] == b,
    decreases at,
{
    if at > 0 && s[at - 1] == b {
        lemma_run_back(s, at - 1, b);
    }
}

/// Of the positions of a match from `pos` up to `end`, the one whose chain
/// leads farthest: how far, and which. Positions are tried farther and farther
/// apart.
pub open spec fn farthest(c: Chains, mi: int, pos: int, end: int, accel: int, dist: int, hop: int) -> (int, int)
    decreases
        if pos >= end {
            0
        } else {
            end - pos
        },
{
    if pos >= end || accel < 16 {
        (dist, hop)
    } else {
        let cand = c.step(mi + pos);
        let next = pos + accel / 16;
        if cand > dist {
            farthest(c, mi, next, end, 16, cand, pos)
        } else {
            farthest(c, mi, next, end, accel + 1, dist, hop)
        }
    }
}

impl Scene {
    /// The index of the position `at`.
    pub open spec fn index(self, at: int) -> int {
        self.prefix + at
    }

    /// The least index that a match at `ip` may refer to.
    pub open spec fn lowest(self, ip: int) -> int {
        if self.low + LZ4_DISTANCE_MAX + 1 > self.index(ip) {
            self.low as int
        } else {
            self.index(ip) - LZ4_DISTANCE_MAX
        }
    }

    /// How far before `ip` and how far behind its first four bytes a match with
    /// the bytes at `at` of `s` extends: the whole length, and what lies before
    /// `ip`.
    pub open spec fn extent(self, h: Hunt, s: Seq<u8>, at: int, limit: int) -> (int, int) {
        let back = agree_back(self.base, h.ip as int, s, at, min_int(h.ip - h.low, at));
        let fwd = 4 + agree(self.base, h.ip + 4, s, at + 4, limit);
        (fwd + back, back)
    }

    /// The match with the candidate of index `mi` in the prefix, where it can
    /// be longer than `longest`.
    #[verifier::opaque]
    pub open spec fn near_probe(self, h: Hunt, mi: int, longest: int) -> (int, int) {
        let at = mi - self.prefix;
        let mine = h.low + longest - 1;
        let its = at - (h.ip - h.low) + longest - 1;
        if its >= 0 && mine + 2 <= self.len() && its + 2 <= self.len() && self.base[mine]
            == self.base[its] && self.base[mine + 1] == self.base[its + 1] && at + 4 <= self.len()
            && same4(self.base, h.ip as int, self.base, at) {
            self.extent(h, self.base, at, h.high as int)
        } else {
            (0, 0)
        }
    }

    /// The match with the candidate of index `mi` in the dictionary. It may go
    /// on into the prefix.
    #[verifier::opaque]
    pub open spec fn dict_probe(self, h: Hunt, mi: int) -> (int, int) {
        let at = mi - self.low;
        if mi + 4 <= self.prefix && same4(self.base, h.ip as int, self.dict, at) {
            let limit = min_int(h.high as int, h.ip + self.prefix - mi);
            let (n, back) = self.extent(h, self.dict, at, limit);
            let fwd = n - back;
            if h.ip + fwd == limit && limit < h.high {
                (n + agree(self.base, h.ip + fwd, self.base, 0, h.high as int), back)
            } else {
                (n, back)
            }
        } else {
            (0, 0)
        }
    }

    /// The match with the candidate of index `mi`: its length, and how far
    /// before `ip` it starts.
    pub open spec fn probe(self, h: Hunt, mi: int, longest: int) -> (int, int) {
        if h.favor && self.index(h.ip as int) - mi < 8 {
            (0, 0)
        } else if mi >= self.prefix {
            self.near_probe(h, mi, longest)
        } else if mi >= self.low {
            self.dict_probe(h, mi)
        } else {
            (0, 0)
        }
    }

    /// Whether four bytes at the index `i` do not straddle the end of the
    /// dictionary.
    pub open spec fn protected(self, i: int) -> bool {
        i >= self.prefix || i + 4 <= self.prefix
    }

    /// Whether the four bytes at `ip` are one byte four times.
    pub open spec fn uniform(self, ip: int) -> bool {
        self.base[ip + 1] == self.base[ip] && self.base[ip + 2] == self.base[ip] && self.base[ip
            + 3] == self.base[ip]
    }

    /// How long the run of the byte at `ip` is.
    pub open spec fn own_run(self, h: Hunt) -> int {
        4 + run_fwd(self.base, h.ip + 4, h.high as int, self.base[h.ip as int])
    }

    /// How far the run around the index `i` reaches forward, counting from `i`.
    #[verifier::opaque]
    pub open spec fn run_ahead(self, h: Hunt, i: int) -> int {
        let b = self.base[h.ip as int];
        if i < self.prefix {
            let at = i - self.low;
            let n = 4 + run_fwd(self.dict, at + 4, self.dict.len() as int, b);
            if at + n == self.dict.len() {
                n + run_fwd(self.base, 0, h.high as int, b)
            } else {
                n
            }
        } else {
            4 + run_fwd(self.base, i - self.prefix + 4, h.high as int, b)
        }
    }

    /// How far the run around the index `i` reaches back, within reach of a
    /// match.
    #[verifier::opaque]
    pub open spec fn run_behind(self, h: Hunt, i: int) -> int {
        let b = self.base[h.ip as int];
        let n = if i < self.prefix {
            run_back(self.dict, i - self.low, b)
        } else {
            let k = run_back(self.base, i - self.prefix, b);
            if k == i - self.prefix && self.low < self.prefix {
                k + run_back(self.dict, self.dict.len() as int, b)
            } else {
                k
            }
        };
        min_int(n, i - self.lowest(h.ip as int))
    }

    /// Whether the candidate before `mi` lies in a run of the byte that `ip`
    /// starts a run of.
    pub open spec fn in_run(self, h: Hunt, mi: int) -> bool {
        let i = mi - 1;
        &&& self.uniform(h.ip as int)
        &&& i >= self.lowest(h.ip as int)
        &&& self.protected(i)
        &&& if i < self.prefix {
            i - self.low + 4 <= self.dict.len() && same4(
                self.base,
                h.ip as int,
                self.dict,
                i - self.low,
            )
        } else {
            i - self.prefix + 4 <= self.len() && same4(
                self.base,
                h.ip as int,
                self.base,
                i - self.prefix,
            )
        }
    }

    /// A candidate in a run: the search goes on where in the run the match is
    /// as long as it can be.
    #[verifier::opaque]
    pub open spec fn ride(self, h: Hunt, c: Chains, s: Chase) -> Chased {
        let i = s.mi - 1;
        let ahead = self.run_ahead(h, i);
        let behind = self.run_behind(h, i);
        let own = self.own_run(h);
        if behind + ahead >= own && ahead <= own {
            let to = i + ahead - own;
            Chased::On(
                Chase {
                    mi: if self.protected(to) {
                        to
                    } else {
                        self.prefix as int
                    },
                    ..s
                },
            )
        } else if !self.protected(i - behind) {
            Chased::On(Chase { mi: self.prefix as int, ..s })
        } else if h.ip != h.low {
            Chased::On(Chase { mi: i - behind, ..s })
        } else {
            let to = i - behind;
            let most = min_int(behind + ahead, own);
            let t = if s.longest < most {
                Chase {
                    mi: to,
                    longest: most,
                    best: Found { len: most, off: self.index(h.ip as int) - to, back: 0 },
                    ..s
                }
            } else {
                Chase { mi: to, ..s }
            };
            let next = c.step(to);
            if next == 0 || next > to {
                Chased::End(t)
            } else {
                Chased::On(Chase { mi: to - next, ..t })
            }
        }
    }

    /// The search after its candidate was compared.
    pub open spec fn compared(self, h: Hunt, s: Chase) -> (int, Chase) {
        let (n, back) = self.probe(h, s.mi, s.longest);
        if n > s.longest {
            (
                n,
                Chase {
                    longest: n,
                    best: Found { len: n, off: self.index(h.ip as int) - s.mi, back },
                    ..s
                },
            )
        } else {
            (n, s)
        }
    }

    /// What follows once a candidate with a match of `n` bytes was compared.
    #[verifier::opaque]
    pub open spec fn follow(self, h: Hunt, c: Chains, n: int, s: Chase) -> Chased {
        let swaps = h.swap && n == s.longest && h.ip == h.low && s.mi + s.longest <= self.index(
            h.ip as int,
        );
        let end = if s.longest >= MINMATCH {
            s.longest - MINMATCH + 1
        } else {
            1
        };
        let (dist, hop) = if swaps {
            farthest(c, s.mi, 0, end, 16, 1, s.hop)
        } else {
            (1, s.hop)
        };
        let t = Chase { hop, ..s };
        if dist > 1 {
            if dist > t.mi {
                Chased::End(t)
            } else {
                Chased::On(Chase { mi: t.mi - dist, ..t })
            }
        } else if h.pattern && c.step(t.mi) == 1 && hop == 0 && t.mi > 0 && self.in_run(h, t.mi) {
            self.ride(h, c, t)
        } else {
            let next = c.step(t.mi + hop);
            if next == 0 || next > t.mi {
                Chased::End(t)
            } else {
                Chased::On(Chase { mi: t.mi - next, ..t })
            }
        }
    }

    /// One candidate.
    #[verifier::opaque]
    pub open spec fn try_one(self, h: Hunt, c: Chains, s: Chase) -> Chased {
        let s1 = Chase { tries: s.tries - 1, ..s };
        if s.mi >= self.index(h.ip as int) {
            Chased::End(s1)
        } else {
            let (n, s2) = self.compared(h, s1);
            self.follow(h, c, n, s2)
        }
    }

    /// The search from `s` on, in the prefix and the dictionary.
    pub open spec fn chase(self, h: Hunt, c: Chains, s: Chase) -> Chase
        decreases s.tries,
    {
        if s.mi >= self.lowest(h.ip as int) && s.tries > 0 {
            match self.try_one(h, c, s) {
                Chased::End(t) => t,
                Chased::On(t) => if 0 <= t.tries < s.tries {
                    self.chase(h, c, t)
                } else {
                    t
                },
            }
        } else {
            s
        }
    }

    /// How far back the index `l` of the attached dictionary is from `ip`.
    pub open spec fn far_off(self, ip: int, l: int) -> int {
        self.index(ip) - self.low + self.attached->0.end() - l
    }

    /// One candidate in the attached dictionary, by its index there.
    #[verifier::opaque]
    pub open spec fn try_far(self, h: Hunt, s: Chase) -> Chased {
        let a = self.attached->0;
        let s1 = Chase { tries: s.tries - 1, ..s };
        if s.mi < a.limit {
            Chased::End(s1)
        } else {
            let at = s.mi - a.limit;
            let (n, back) = if at + 4 <= a.bytes.len() && same4(
                self.base,
                h.ip as int,
                a.bytes,
                at,
            ) {
                self.extent(h, a.bytes, at, h.high as int)
            } else {
                (0, 0)
            };
            let s2 = if n > s.longest {
                Chase {
                    longest: n,
                    best: Found { len: n, off: self.far_off(h.ip as int, s.mi), back },
                    ..s1
                }
            } else {
                s1
            };
            let next = a.chain[s.mi % 65536] as int;
            if next == 0 || next > s.mi || next > s.mi + self.low - a.end() {
                Chased::End(s2)
            } else {
                Chased::On(Chase { mi: s.mi - next, ..s2 })
            }
        }
    }

    /// The search from `s` on in the attached dictionary.
    pub open spec fn chase_far(self, h: Hunt, s: Chase) -> Chase
        decreases s.tries,
    {
        let ip = h.ip as int;
        if s.tries > 0 && 0 <= self.far_off(ip, s.mi) <= LZ4_DISTANCE_MAX {
            match self.try_far(h, s) {
                Chased::End(t) => t,
                Chased::On(t) => if 0 <= t.tries < s.tries {
                    self.chase_far(h, t)
                } else {
                    t
                },
            }
        } else {
            s
        }
    }

    /// The match that a search finds, with the tables up to `ip`.
    pub open spec fn wider(self, h: Hunt, c: Chains) -> Found {
        let ip = h.ip as int;
        let slot = slot(self.base, ip, self.little);
        let s0 = Chase {
            mi: c.hash[slot] as int,
            tries: h.tries as int,
            hop: 0,
            longest: h.least as int,
            best: Found { len: 0, off: 0, back: 0 },
        };
        let s1 = self.chase(h, c, s0);
        match self.attached {
            Some(a) => {
                let l = a.hash[slot] as int;
                if s1.tries > 0 && self.lowest(ip) == self.low && l + self.low <= u32::MAX && l
                    + self.low >= a.end() {
                    self.chase_far(h, Chase { mi: l, ..s1 }).best
                } else {
                    s1.best
                }
            },
            None => s1.best,
        }
    }

    // -----------------------------------------------------------------------

    /// Whether a search makes sense.
    pub open spec fn hunts(self, h: Hunt) -> bool {
        &&& self.wf()
        &&& h.low <= h.ip
        &&& h.ip + 4 <= h.high <= self.len()
        &&& h.least >= 1
    }

    /// Whether the best match so far is one.
    pub open spec fn has(self, h: Hunt, f: Found) -> bool {
        f == (Found { len: 0, off: 0, back: 0 }) || {
            &&& 0 <= f.back <= h.ip - h.low
            &&& f.len > h.least
            &&& f.len >= f.back + 4
            &&& h.ip - f.back + f.len <= h.high
            &&& self.repeats(h.ip - f.back, f.off, f.len)
        }
    }

    /// What holds throughout a search.
    pub open spec fn chasing(self, h: Hunt, s: Chase) -> bool {
        &&& self.has(h, s.best)
        &&& s.longest == (if s.best.len == 0 {
            h.least as int
        } else {
            s.best.len
        })
        &&& 0 <= s.mi <= u32::MAX
        &&& 0 <= s.tries
        &&& 0 <= s.hop
    }

    /// A match with the bytes at `at` of `s`, which stand `off` before `ip`.
    proof fn lemma_extent(self, h: Hunt, s: Seq<u8>, at: int, limit: int, lead: int, off: int)
        requires
            self.hunts(h),
            0 <= at,
            at + 4 <= s.len(),
            limit <= h.high,
            same4(self.base, h.ip as int, s, at),
            1 <= off <= LZ4_DISTANCE_MAX,
            0 <= lead,
            lead + s.len() <= self.whole().len(),
            self.whole().subrange(lead, lead + s.len()) == s,
            lead + at == self.lead() + h.ip - off,
        ensures
            ({
                let (n, back) = self.extent(h, s, at, limit);
                &&& 0 <= back <= h.ip - h.low
                &&& back <= at
                &&& n >= back + 4
                &&& h.ip - back + n <= h.high
                &&& limit >= h.ip + 4 ==> h.ip - back + n <= limit
                &&& at - back + n <= s.len()
                &&& self.repeats(h.ip - back, off, n)
            }),
    {
        let (n, back) = self.extent(h, s, at, limit);
        let w = self.whole();
        lemma_agree_back(self.base, h.ip as int, s, at, min_int(h.ip - h.low, at));
        lemma_agree(self.base, h.ip + 4, s, at + 4, limit);
        assert forall|i: int| 0 <= i < s.len() implies w[lead + i] == #[trigger] s[i] by {
            assert(w.subrange(lead, lead + s.len())[i] == w[lead + i]);
        }
        let from = h.ip - back;
        assert forall|k: int| 0 <= k < n implies #[trigger] self.base[from + k] == w[self.lead()
            + from - off + k] by {
            let j = at - back + k;
            assert(w[lead + j] == s[j]);
            if k < back {
                assert(self.base[h.ip - (back - k)] == s[at - (back - k)]);
            } else if k < back + 4 {
                let q = k - back;
                assert(q == 0 || q == 1 || q == 2 || q == 3);
            } else {
                assert(self.base[(h.ip + 4) + (k - back - 4)] == s[(at + 4) + (k - back - 4)]);
            }
        }
    }

    /// A candidate's match is one.
    #[verifier::rlimit(30)]
    pub proof fn lemma_probe(self, h: Hunt, mi: int, longest: int)
        requires
            self.hunts(h),
            self.lowest(h.ip as int) <= mi < self.index(h.ip as int),
        ensures
            ({
                let (n, back) = self.probe(h, mi, longest);
                n > 0 ==> {
                    &&& 0 <= back <= h.ip - h.low
                    &&& n >= back + 4
                    &&& h.ip - back + n <= h.high
                    &&& self.repeats(h.ip - back, self.index(h.ip as int) - mi, n)
                }
            }),
            self.probe(h, mi, longest).0 >= 0,
    {
        reveal(Scene::near_probe);
        reveal(Scene::dict_probe);
        let off = self.index(h.ip as int) - mi;
        let w = self.whole();
        assert(w.subrange(self.lead(), w.len() as int) =~= self.base);
        assert(w.subrange(self.far().len() as int, self.lead()) =~= self.dict);
        if mi >= self.prefix {
            let at = mi - self.prefix;
            if same4(self.base, h.ip as int, self.base, at) {
                self.lemma_extent(h, self.base, at, h.high as int, self.lead(), off);
            }
        } else if mi + 4 <= self.prefix && same4(
            self.base,
            h.ip as int,
            self.dict,
            mi - self.low,
        ) {
            let at = mi - self.low;
            let limit = min_int(h.high as int, h.ip + self.prefix - mi);
            self.lemma_extent(h, self.dict, at, limit, self.far().len() as int, off);
            let (n, back) = self.extent(h, self.dict, at, limit);
            let fwd = n - back;
            if h.ip + fwd == limit && limit < h.high {
                let more = agree(self.base, h.ip + fwd, self.base, 0, h.high as int);
                lemma_agree(self.base, h.ip + fwd, self.base, 0, h.high as int);
                let from = h.ip - back;
                assert forall|k: int| 0 <= k < n + more implies #[trigger] self.base[from + k]
                    == w[self.lead() + from - off + k] by {
                    if k >= n {
                        assert(self.base[(h.ip + fwd) + (k - n)] == self.base[0 + (k - n)]);
                        assert(w[self.lead() + (k - n)] == self.base[k - n]);
                    }
                }
            }
        }
    }
}

impl Scene {
    /// The byte of index `i` among all bytes.
    pub open spec fn byte(self, i: int) -> u8 {
        self.whole()[self.lead() + i - self.prefix]
    }

    proof fn lemma_byte(self, i: int)
        requires
            self.wf(),
            self.low <= i < self.prefix + self.len(),
        ensures
            i < self.prefix ==> self.byte(i) == self.dict[i - self.low],
            i >= self.prefix ==> self.byte(i) == self.base[i - self.prefix],
    {
    }

    /// The run ahead of a candidate consists of the byte at `ip`.
    pub proof fn lemma_run_ahead(self, h: Hunt, i: int)
        requires
            self.hunts(h),
            self.in_run(h, i + 1),
            i < self.index(h.ip as int),
        ensures
            self.run_ahead(h, i) >= 4,
            i + self.run_ahead(h, i) <= self.prefix + h.high,
            forall|j: int|
                i <= j < i + self.run_ahead(h, i) ==> #[trigger] self.byte(j)
                    == self.base[h.ip as int],
    {
        reveal(Scene::run_ahead);
        let b = self.base[h.ip as int];
        let n = self.run_ahead(h, i);
        if i < self.prefix {
            let at = i - self.low;
            let k = 4 + run_fwd(self.dict, at + 4, self.dict.len() as int, b);
            lemma_run_fwd(self.dict, at + 4, self.dict.len() as int, b);
            lemma_run_fwd(self.base, 0, h.high as int, b);
            assert forall|j: int| i <= j < i + n implies #[trigger] self.byte(j) == b by {
                self.lemma_byte(j);
                if j < i + 4 {
                    let q = j - i;
                    assert(q == 0 || q == 1 || q == 2 || q == 3);
                } else if j < self.prefix {
                    assert(self.dict[j - self.low] == b);
                } else {
                    assert(self.base[j - self.prefix] == b);
                }
            }
        } else {
            let at = i - self.prefix;
            lemma_run_fwd(self.base, at + 4, h.high as int, b);
            assert forall|j: int| i <= j < i + n implies #[trigger] self.byte(j) == b by {
                self.lemma_byte(j);
                if j < i + 4 {
                    let q = j - i;
                    assert(q == 0 || q == 1 || q == 2 || q == 3);
                } else {
                    assert(self.base[j - self.prefix] == b);
                }
            }
        }
    }

    /// The run behind a candidate consists of the byte at `ip`.
    pub proof fn lemma_run_behind(self, h: Hunt, i: int)
        requires
            self.hunts(h),
            self.lowest(h.ip as int) <= i < self.index(h.ip as int),
        ensures
            0 <= self.run_behind(h, i) <= i - self.lowest(h.ip as int),
            forall|j: int|
                i - self.run_behind(h, i) <= j < i ==> #[trigger] self.byte(j)
                    == self.base[h.ip as int],
    {
        reveal(Scene::run_behind);
        let b = self.base[h.ip as int];
        let n = self.run_behind(h, i);
        lemma_run_back(self.dict, i - self.low, b);
        lemma_run_back(self.base, i - self.prefix, b);
        lemma_run_back(self.dict, self.dict.len() as int, b);
        assert forall|j: int| i - n <= j < i implies #[trigger] self.byte(j) == b by {
            self.lemma_byte(j);
            if j < self.prefix {
                assert(self.dict[j - self.low] == b);
            } else {
                assert(self.base[j - self.prefix] == b);
            }
        }
    }

    /// Going on from a candidate in a run.
    pub proof fn lemma_ride(self, h: Hunt, c: Chains, s: Chase)
        requires
            self.hunts(h),
            self.chasing(h, s),
            self.in_run(h, s.mi),
            s.mi < self.index(h.ip as int),
        ensures
            match self.ride(h, c, s) {
                Chased::End(t) => self.chasing(h, t) && t.tries == s.tries,
                Chased::On(t) => self.chasing(h, t) && t.tries == s.tries,
            },
            self.run_behind(h, s.mi - 1) >= 0,
            self.run_ahead(h, s.mi - 1) >= 4,
            self.own_run(h) >= 4,
            h.ip + self.own_run(h) <= h.high,
            s.mi - 1 + self.run_ahead(h, s.mi - 1) <= self.prefix + h.high,
            s.mi - 1 - self.run_behind(h, s.mi - 1) >= self.lowest(h.ip as int),
    {
        reveal(Scene::ride);
        let i = s.mi - 1;
        let b = self.base[h.ip as int];
        self.lemma_run_ahead(h, i);
        self.lemma_run_behind(h, i);
        lemma_run_fwd(self.base, h.ip + 4, h.high as int, b);
        let ahead = self.run_ahead(h, i);
        let behind = self.run_behind(h, i);
        let own = self.own_run(h);
        let to = i - behind;
        let most = min_int(behind + ahead, own);
        if h.ip == h.low && s.longest < most {
            let off = self.index(h.ip as int) - to;
            let w = self.whole();
            assert forall|k: int| 0 <= k < most implies #[trigger] self.base[h.ip + k]
                == w[self.lead() + h.ip - off + k] by {
                assert(self.byte(to + k) == b);
                if k < 4 {
                    assert(k == 0 || k == 1 || k == 2 || k == 3);
                } else {
                    assert(self.base[h.ip + k] == b);
                }
            }
            assert(self.repeats(h.ip as int, off, most));
        }
    }

    /// One candidate keeps what holds throughout a search.
    pub proof fn lemma_try_one(self, h: Hunt, c: Chains, s: Chase)
        requires
            self.hunts(h),
            c.wf(),
            self.chasing(h, s),
            self.lowest(h.ip as int) <= s.mi,
            s.tries > 0,
        ensures
            match self.try_one(h, c, s) {
                Chased::End(t) => self.chasing(h, t) && t.tries == s.tries - 1,
                Chased::On(t) => self.chasing(h, t) && t.tries == s.tries - 1,
            },
    {
        reveal(Scene::try_one);
        if s.mi < self.index(h.ip as int) {
            self.lemma_probe(h, s.mi, s.longest);
            let s1 = Chase { tries: s.tries - 1, ..s };
            let (n, s2) = self.compared(h, s1);
            assert(self.chasing(h, s2));
            self.lemma_follow(h, c, n, s2);
        }
    }

    pub proof fn lemma_follow(self, h: Hunt, c: Chains, n: int, s: Chase)
        requires
            self.hunts(h),
            c.wf(),
            self.chasing(h, s),
            self.lowest(h.ip as int) <= s.mi < self.index(h.ip as int),
        ensures
            match self.follow(h, c, n, s) {
                Chased::End(t) => self.chasing(h, t) && t.tries == s.tries,
                Chased::On(t) => self.chasing(h, t) && t.tries == s.tries,
            },
    {
        reveal(Scene::follow);
        let end = if s.longest >= MINMATCH {
            s.longest - MINMATCH + 1
        } else {
            1
        };
        lemma_farthest(c, s.mi, 0, end, 16, 1, s.hop);
        if self.in_run(h, s.mi) {
            self.lemma_ride(h, c, Chase { hop: 0, ..s });
        }
    }

    /// What is found in the prefix and the dictionary is a match.
    pub proof fn lemma_chase(self, h: Hunt, c: Chains, s: Chase)
        requires
            self.hunts(h),
            c.wf(),
            self.chasing(h, s),
        ensures
            self.chasing(h, self.chase(h, c, s)),
        decreases s.tries,
    {
        if s.mi >= self.lowest(h.ip as int) && s.tries > 0 {
            self.lemma_try_one(h, c, s);
            if let Chased::On(t) = self.try_one(h, c, s) {
                self.lemma_chase(h, c, t);
            }
        }
    }

    /// One candidate in the attached dictionary.
    pub proof fn lemma_try_far(self, h: Hunt, s: Chase)
        requires
            self.hunts(h),
            self.attached is Some,
            self.chasing(h, s),
            s.mi + self.low >= self.attached->0.end(),
            0 <= self.far_off(h.ip as int, s.mi) <= LZ4_DISTANCE_MAX,
            s.tries > 0,
        ensures
            match self.try_far(h, s) {
                Chased::End(t) => self.chasing(h, t) && t.tries == s.tries - 1,
                Chased::On(t) => self.chasing(h, t) && t.tries == s.tries - 1 && t.mi + self.low
                    >= self.attached->0.end(),
            },
            s.mi >= self.attached->0.limit && s.mi - self.attached->0.limit + 4
                <= self.far().len() && same4(
                self.base,
                h.ip as int,
                self.far(),
                s.mi - self.attached->0.limit,
            ) ==> {
                let (n, back) = self.extent(
                    h,
                    self.far(),
                    s.mi - self.attached->0.limit,
                    h.high as int,
                );
                &&& 0 <= back <= h.ip - h.low
                &&& n >= back + 4
                &&& h.ip - back + n <= h.high
            },
    {
        reveal(Scene::try_far);
        let a = self.attached->0;
        let at = s.mi - a.limit;
        if s.mi >= a.limit && at + 4 <= a.bytes.len() && same4(
            self.base,
            h.ip as int,
            a.bytes,
            at,
        ) {
            let w = self.whole();
            assert(w.subrange(0, a.bytes.len() as int) =~= a.bytes);
            self.lemma_extent(
                h,
                a.bytes,
                at,
                h.high as int,
                0,
                self.far_off(h.ip as int, s.mi),
            );
        }
    }

    pub proof fn lemma_chase_far(self, h: Hunt, s: Chase)
        requires
            self.hunts(h),
            self.attached is Some,
            self.chasing(h, s),
            s.mi + self.low >= self.attached->0.end(),
        ensures
            self.chasing(h, self.chase_far(h, s)),
        decreases s.tries,
    {
        if s.tries > 0 && 0 <= self.far_off(h.ip as int, s.mi) <= LZ4_DISTANCE_MAX {
            self.lemma_try_far(h, s);
            if let Chased::On(t) = self.try_far(h, s) {
                self.lemma_chase_far(h, t);
            }
        }
    }

    /// What a search finds is a match.
    pub proof fn lemma_wider(self, h: Hunt, c: Chains)
        requires
            self.hunts(h),
            c.wf(),
        ensures
            self.has(h, self.wider(h, c)),
    {
        let slot = slot(self.base, h.ip as int, self.little);
        let s0 = Chase {
            mi: c.hash[slot] as int,
            tries: h.tries as int,
            hop: 0,
            longest: h.least as int,
            best: Found { len: 0, off: 0, back: 0 },
        };
        self.lemma_chase(h, c, s0);
        let s1 = self.chase(h, c, s0);
        if let Some(a) = self.attached {
            let l = a.hash[slot] as int;
            if l + self.low >= a.end() {
                self.lemma_chase_far(h, Chase { mi: l, ..s1 });
            }
        }
    }
}

pub proof fn lemma_farthest(c: Chains, mi: int, pos: int, end: int, accel: int, dist: int, hop: int)
    requires
        0 <= pos,
        0 <= hop,
        1 <= dist <= 65535,
    ensures
        ({
            let (d, k) = farthest(c, mi, pos, end, accel, dist, hop);
            &&& dist <= d <= 65535
            &&& k == hop || 0 <= k < end
        }),
    decreases
            if pos >= end {
                0
            } else {
                end - pos
            },
{
    if !(pos >= end || accel < 16) {
        let cand = c.step(mi + pos);
        let next = pos + accel / 16;
        if cand > dist {
            lemma_farthest(c, mi, next, end, 16, cand, pos);
        } else {
            lemma_farthest(c, mi, next, end, accel + 1, dist, hop);
        }
    }
}

} // verus!
