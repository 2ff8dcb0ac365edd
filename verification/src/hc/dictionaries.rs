//! Dictionaries are entered in full, and the searches look into them.
use vstd::prelude::*;
use crate::block::search::{lemma_common_bounds, lemma_common_reaches};
use super::chase::{slot, Chains, Chase, Chased, Found, Hunt};
use super::mid::{dict_tables, enter_each, enter_thirds, lemma_slots, slot4, slot8, MidTables};
use super::scene::{agree, lemma_agree, Scene};

verus! {

/// Bytes that are equal are counted.
proof fn lemma_agree_reaches(a: Seq<u8>, i: int, b: Seq<u8>, j: int, limit: int, n: int)
    requires
        0 <= n,
        i + n <= limit,
        j + n <= b.len(),
        forall|k: int| 0 <= k < n ==> #[trigger] a[i + k] == b[j + k],
    ensures
        agree(a, i, b, j, limit) >= n,
{
    if n > 0 {
        let most = if limit - i < b.len() - j {
            limit - i
        } else {
            b.len() - j
        };
        lemma_common_reaches(a, i, b, j, most, n);
        lemma_common_bounds(a, i + n, b, j + n, most - n);
    } else {
        lemma_common_bounds(a, i, b, j, limit - i);
        lemma_common_bounds(a, i, b, j, b.len() - j);
    }
}

/// What becomes of the place `h` of the table for four bytes: it keeps what it
/// holds until a later position takes it.
proof fn lemma_thirds(t: MidTables, s: Seq<u8>, first: u32, idx: int, target: int, h: int)
    requires
        t.wf(),
        first <= idx,
        target == first + s.len() - 8,
        first + s.len() <= u32::MAX,
        0 <= h < t.four.len(),
    ensures
        ({
            let r = enter_thirds(t, s, first, idx, target);
            &&& r.wf()
            &&& r.four[h] == t.four[h] || idx <= r.four[h] < target && slot4(s, r.four[h] - first)
                == h
        }),
    decreases target + 3 - idx,
{
    if idx < target {
        let at = idx - first;
        lemma_slots(s, at);
        lemma_slots(s, at + 1);
        lemma_thirds(t.add4(s, at, idx).add8(s, at + 1, idx + 1), s, first, idx + 3, target, h);
    }
}

proof fn lemma_third(t: MidTables, s: Seq<u8>, first: u32, idx: int, target: int, j: int)
    requires
        t.wf(),
        first <= idx <= j < target,
        (j - idx) % 3 == 0,
        target == first + s.len() - 8,
        first + s.len() <= u32::MAX,
    ensures
        ({
            let h = slot4(s, j - first);
            let e = enter_thirds(t, s, first, idx, target).four[h];
            j <= e < target && slot4(s, e - first) == h
        }),
    decreases target - idx,
{
    let at = idx - first;
    lemma_slots(s, at);
    lemma_slots(s, at + 1);
    let next = t.add4(s, at, idx).add8(s, at + 1, idx + 1);
    if j == idx {
        lemma_thirds(next, s, first, idx + 3, target, slot4(s, at));
    } else {
        lemma_third(next, s, first, idx + 3, target, j);
    }
}

/// The same of the table for eight bytes.
proof fn lemma_each(t: MidTables, s: Seq<u8>, first: u32, idx: int, target: int, h: int)
    requires
        t.wf(),
        first <= idx,
        target == first + s.len() - 8,
        first + s.len() <= u32::MAX,
        0 <= h < t.eight.len(),
    ensures
        ({
            let r = enter_each(t, s, first, idx, target);
            &&& r.wf()
            &&& r.four == t.four
            &&& r.eight[h] == t.eight[h] || idx <= r.eight[h] < target && slot8(
                s,
                r.eight[h] - first,
            ) == h
        }),
    decreases target - idx,
{
    if idx < target {
        lemma_slots(s, idx - first);
        lemma_each(t.add8(s, idx - first, idx), s, first, idx + 1, target, h);
    }
}

proof fn lemma_one(t: MidTables, s: Seq<u8>, first: u32, idx: int, target: int, j: int)
    requires
        t.wf(),
        first <= idx <= j < target,
        target == first + s.len() - 8,
        first + s.len() <= u32::MAX,
    ensures
        ({
            let h = slot8(s, j - first);
            let e = enter_each(t, s, first, idx, target).eight[h];
            j <= e < target && slot8(s, e - first) == h
        }),
    decreases target - idx,
{
    lemma_slots(s, idx - first);
    let next = t.add8(s, idx - first, idx);
    if j == idx {
        lemma_each(next, s, first, idx + 1, target, slot8(s, idx - first));
    } else {
        lemma_one(next, s, first, idx + 1, target, j);
    }
}

/// A dictionary is remembered up to its last eight bytes. Of every third
/// position the place of its four bytes tells that position or a later one
/// which belongs there too; and so does that of its eight bytes for each of the
/// last 32,768 positions.
pub proof fn law_dictionary_is_entered(t: MidTables, dict: Seq<u8>, first: u32, next: u32, j: int)
    requires
        t.wf(),
        first <= next <= j < first + dict.len() - 8,
        first + dict.len() <= u32::MAX,
    ensures
        ({
            let r = dict_tables(t, dict, first, next);
            let target = first + dict.len() - 8;
            let h4 = slot4(dict, j - first);
            let h8 = slot8(dict, j - first);
            &&& (j - next) % 3 == 0 ==> j <= r.four[h4] < target && slot4(
                dict,
                r.four[h4] - first,
            ) == h4
            &&& target - j <= 32768 ==> j <= r.eight[h8] < target && slot8(
                dict,
                r.eight[h8] - first,
            ) == h8
        }),
{
    let target = first + dict.len() - 8;
    let t1 = enter_thirds(t, dict, first, next as int, target);
    let from = if dict.len() > 32776 {
        target - 32768
    } else {
        next as int
    };
    lemma_slots(dict, j - first);
    lemma_thirds(t, dict, first, next as int, target, slot4(dict, j - first));
    lemma_each(t1, dict, first, from, target, slot8(dict, j - first));
    if (j - next) % 3 == 0 {
        lemma_third(t, dict, first, next as int, target, j);
    }
    if target - j <= 32768 {
        lemma_one(t1, dict, first, from, target, j);
    }
}

impl Scene {
    /// A candidate in the dictionary is compared as far as it agrees, on into
    /// the prefix.
    proof fn lemma_dict_probe(self, h: Hunt, mi: int, n: int)
        requires
            self.hunts(h),
            h.ip == h.low,
            self.low <= mi,
            mi + 4 <= self.prefix,
            4 <= n,
            h.ip + n <= h.high,
            forall|k: int| 0 <= k < n ==> self.base[h.ip + k] == #[trigger] self.byte(mi + k),
        ensures
            self.dict_probe(h, mi).0 >= n,
    {
        reveal(Scene::dict_probe);
        let ip = h.ip as int;
        let at = mi - self.low;
        let rest = self.prefix - mi;
        assert forall|k: int| 0 <= k < n && k < rest implies #[trigger] self.base[ip + k]
            == self.dict[at + k] by {
            assert(self.byte(mi + k) == self.dict[at + k]);
        }
        assert(self.base[ip + 0] == self.dict[at + 0]);
        assert(self.base[ip + 1] == self.dict[at + 1]);
        assert(self.base[ip + 2] == self.dict[at + 2]);
        assert(self.base[ip + 3] == self.dict[at + 3]);
        let limit = if h.high <= ip + rest {
            h.high as int
        } else {
            ip + rest
        };
        let e = if n <= rest {
            n
        } else {
            rest
        };
        assert forall|k: int| 0 <= k < e - 4 implies #[trigger] self.base[ip + 4 + k]
            == self.dict[at + 4 + k] by {
            assert(self.base[ip + (4 + k)] == self.dict[at + (4 + k)]);
        }
        lemma_agree_reaches(self.base, ip + 4, self.dict, at + 4, limit, e - 4);
        lemma_agree(self.base, ip + 4, self.dict, at + 4, limit);
        lemma_agree(self.base, limit, self.base, 0, h.high as int);
        if n > rest {
            assert forall|k: int| 0 <= k < n - rest implies #[trigger] self.base[limit + k]
                == self.base[0 + k] by {
                assert(self.byte(mi + (rest + k)) == self.base[k]);
                assert(self.base[ip + (rest + k)] == self.byte(mi + (rest + k)));
            }
            lemma_agree_reaches(self.base, limit, self.base, 0, h.high as int, n - rest);
        }
    }

    /// A search takes up what the dictionary holds: if the last position that was
    /// entered where `ip` belongs lies in it, at most 65,535 bytes back, the match
    /// that is found is no shorter than that with it, which may go on into the
    /// bytes that follow the dictionary.
    pub proof fn law_dictionary_is_used(self, h: Hunt, c: Chains, n: int)
        requires
            self.hunts(h),
            h.ip == h.low,
            !h.favor,
            self.attached is None,
            h.tries >= 1,
            ({
                let mi = c.hash[slot(self.base, h.ip as int, self.little)] as int;
                &&& self.low <= mi
                &&& mi + 4 <= self.prefix
                &&& self.index(h.ip as int) - mi <= 65535
                &&& forall|k: int|
                    0 <= k < n ==> self.base[h.ip + k] == #[trigger] self.byte(mi + k)
            }),
            4 <= n,
            h.least < n <= h.high - h.ip,
        ensures
            self.wider(h, c).len >= n,
    {
        let mi = c.hash[slot(self.base, h.ip as int, self.little)] as int;
        self.lemma_dict_probe(h, mi, n);
        let s0 = Chase {
            mi,
            tries: h.tries as int,
            hop: 0,
            longest: h.least as int,
            best: Found { len: 0, off: 0, back: 0 },
        };
        let s1 = Chase { tries: s0.tries - 1, ..s0 };
        let (k, s2) = self.compared(h, s1);
        assert(s2.best.len >= n);
        reveal(Scene::try_one);
        assert(self.try_one(h, c, s0) == self.follow(h, c, k, s2));
        self.lemma_follow_keeps(h, c, k, s2);
        if let Chased::On(t) = self.follow(h, c, k, s2) {
            self.lemma_keeps(h, c, t);
        }
    }

    proof fn lemma_far_keeps(self, h: Hunt, s: Chase)
        requires
            s.longest >= s.best.len,
        ensures
            self.chase_far(h, s).best.len >= s.best.len,
        decreases s.tries,
    {
        if s.tries > 0 {
            reveal(Scene::try_far);
            if let Chased::On(t) = self.try_far(h, s) {
                if 0 <= t.tries < s.tries {
                    self.lemma_far_keeps(h, t);
                }
            }
        }
    }

    /// The same of an attached dictionary, where the own tables offer nothing.
    pub proof fn law_attachment_is_used(self, h: Hunt, c: Chains, n: int)
        requires
            self.hunts(h),
            h.ip == h.low,
            h.tries >= 1,
            self.index(h.ip as int) - self.low <= 65535,
            c.hash[slot(self.base, h.ip as int, self.little)] < self.low,
            self.attached matches Some(a) && {
                let l = a.hash[slot(self.base, h.ip as int, self.little)] as int;
                let at = l - a.limit;
                &&& a.limit <= l
                &&& at + n <= a.bytes.len()
                &&& a.end() <= l + self.low <= u32::MAX
                &&& self.index(h.ip as int) - self.low + a.bytes.len() - at <= 65535
                &&& forall|k: int| 0 <= k < n ==> self.base[h.ip + k] == #[trigger] a.bytes[at + k]
            },
            4 <= n,
            h.least < n <= h.high - h.ip,
        ensures
            self.wider(h, c).len >= n,
    {
        reveal(Scene::try_far);
        let ip = h.ip as int;
        let a = self.attached->0;
        let l = a.hash[slot(self.base, ip, self.little)] as int;
        let at = l - a.limit;
        let s0 = Chase {
            mi: l,
            tries: h.tries as int,
            hop: 0,
            longest: h.least as int,
            best: Found { len: 0, off: 0, back: 0 },
        };
        assert(self.base[ip + 0] == a.bytes[at + 0]);
        assert(self.base[ip + 1] == a.bytes[at + 1]);
        assert(self.base[ip + 2] == a.bytes[at + 2]);
        assert(self.base[ip + 3] == a.bytes[at + 3]);
        assert forall|k: int| 0 <= k < n - 4 implies #[trigger] self.base[ip + 4 + k]
            == a.bytes[at + 4 + k] by {
            assert(self.base[ip + (4 + k)] == a.bytes[at + (4 + k)]);
        }
        lemma_agree_reaches(self.base, ip + 4, a.bytes, at + 4, h.high as int, n - 4);
        match self.try_far(h, s0) {
            Chased::End(t) => {
                assert(t.best.len >= n);
            },
            Chased::On(t) => {
                assert(t.best.len >= n);
                self.lemma_far_keeps(h, t);
            },
        }
    }
}

} // verus!
