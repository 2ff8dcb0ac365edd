//! What a block is compressed under: its bytes, what precedes them, and their
//! indices.
use vstd::prelude::*;
use crate::block::parse::common;
use crate::block::search::common_bytes;
use crate::format::LZ4_DISTANCE_MAX;
use super::{CHAIN_ENTRIES, HASH_ENTRIES};

verus! {

/// A dictionary context that is attached to a compressor.
pub struct MidDictCtx<'a> {
    pub hash_table: &'a [u32],
    pub chain_table: &'a [u16],
    pub end: usize,
    pub prefix_start: usize,
    pub dict_start: usize,
    pub dict_limit: u32,
    pub low_limit: u32,
    pub next_to_update: u32,
    pub compression_level: i16,
    pub favor_dec_speed: i8,
    pub dirty: i8,
    pub dict_ctx: usize,
    /// The dictionary: the bytes from the address `prefix_start` up to `end`.
    pub prefix: &'a [u8],
}

/// The bytes that a block is compressed from.
pub struct SrcView<'a> {
    /// The history, followed by the block.
    pub base: &'a [u8],
    /// Where the block starts in `base`.
    pub src_off: usize,
    /// The index of `base[0]`.
    pub prefix_idx: u32,
    /// A dictionary, held elsewhere.
    pub dict: &'a [u8],
    /// The index of `dict[0]`.
    pub dict_idx: u32,
}

/// An attached dictionary: its tables, the index of its first byte, and its
/// bytes.
#[verifier::ext_equal]
pub struct Attachment {
    pub hash: Seq<u32>,
    pub chain: Seq<u16>,
    pub limit: u32,
    pub bytes: Seq<u8>,
}

impl Attachment {
    /// The index that follows the last byte.
    pub open spec fn end(self) -> int {
        self.limit + self.bytes.len()
    }

    pub open spec fn wf(self) -> bool {
        &&& self.hash.len() == HASH_ENTRIES
        &&& self.chain.len() == CHAIN_ENTRIES
        &&& self.end() <= u32::MAX
    }
}

/// What a block is compressed under.
#[verifier::ext_equal]
pub struct Scene {
    /// The history, followed by the block.
    pub base: Seq<u8>,
    /// Where the block starts in `base`.
    pub start: int,
    /// The index of `base[0]`.
    pub prefix: u32,
    /// The dictionary, which ends where `base` starts.
    pub dict: Seq<u8>,
    /// The index of `dict[0]`.
    pub low: u32,
    /// An attached dictionary, which ends where `dict` starts.
    pub attached: Option<Attachment>,
    /// The byte order of the host.
    pub little: bool,
}

impl Scene {
    /// Whether the indices are those of consecutive bytes.
    pub open spec fn wf(self) -> bool {
        &&& 0 <= self.start <= self.base.len()
        &&& self.prefix == self.low + self.dict.len()
        &&& self.prefix + self.base.len() <= u32::MAX
        &&& self.attached matches Some(a) ==> a.wf()
    }

    pub open spec fn len(self) -> int {
        self.base.len() as int
    }

    /// Matches start no later than here.
    pub open spec fn mflimit(self) -> int {
        self.len() - 12
    }

    /// Matches end no later than here.
    pub open spec fn matchlimit(self) -> int {
        self.len() - 5
    }

    /// The bytes of the attached dictionary.
    pub open spec fn far(self) -> Seq<u8> {
        match self.attached {
            Some(a) => a.bytes,
            None => Seq::empty(),
        }
    }

    /// All bytes, in order.
    pub open spec fn whole(self) -> Seq<u8> {
        self.far() + self.dict + self.base
    }

    /// Where `base` starts among all bytes.
    pub open spec fn lead(self) -> int {
        (self.far().len() + self.dict.len()) as int
    }

    /// What precedes the block.
    pub open spec fn hist(self) -> Seq<u8> {
        self.far() + self.dict + self.base.take(self.start)
    }

    /// Whether the `n` bytes at `at` repeat those `off` bytes before.
    pub open spec fn repeats(self, at: int, off: int, n: int) -> bool {
        &&& 1 <= off <= LZ4_DISTANCE_MAX
        &&& 0 <= at
        &&& off <= self.lead() + at
        &&& at + n <= self.len()
        &&& forall|k: int|
            0 <= k < n ==> #[trigger] self.base[at + k] == self.whole()[self.lead() + at - off + k]
    }
}

impl<'a> MidDictCtx<'a> {
    /// Whether the tables have their sizes, and the prefix its own.
    pub open spec fn wf(&self) -> bool {
        &&& self.attachment().wf()
        &&& self.end - self.prefix_start == self.prefix@.len()
    }

    pub open spec fn attachment(&self) -> Attachment {
        Attachment {
            hash: self.hash_table@,
            chain: self.chain_table@,
            limit: self.dict_limit,
            bytes: self.prefix@,
        }
    }

    /// The index that follows the last byte of the dictionary.
    pub fn l_dict_end_index(&self) -> (n: u32)
        requires
            self.wf(),
        ensures
            n == self.attachment().end(),
    {
        (self.end - self.prefix_start) as u32 + self.dict_limit
    }
}

/// What compressing `v` with an attached dictionary on a host of the given byte
/// order is compressed under.
pub open spec fn scene_of(v: SrcView, dict_ctx: Option<&MidDictCtx>, little: bool) -> Scene {
    Scene {
        base: v.base@,
        start: v.src_off as int,
        prefix: v.prefix_idx,
        dict: v.dict@,
        low: v.dict_idx,
        attached: match dict_ctx {
            Some(d) => Some(d.attachment()),
            None => None,
        },
        little,
    }
}

/// Whether a view and an attached dictionary are in order.
pub open spec fn in_order(v: SrcView, dict_ctx: Option<&MidDictCtx>) -> bool {
    &&& scene_of(v, dict_ctx, true).wf()
    &&& dict_ctx matches Some(d) ==> d.wf()
}

/// How many bytes of `a` from `i` on, before `limit`, equal those of `b` from
/// `j` on.
pub open spec fn agree(a: Seq<u8>, i: int, b: Seq<u8>, j: int, limit: int) -> int {
    if i >= limit || j >= b.len() {
        0
    } else if limit - i < b.len() - j {
        common(a, i, b, j, limit - i)
    } else {
        common(a, i, b, j, b.len() - j)
    }
}

/// How many bytes of `a` from `i` on, before `limit`, equal those of `b` from
/// `j` on.
pub fn count_match(a: &[u8], i: usize, b: &[u8], j: usize, limit: usize) -> (n: usize)
    requires
        limit <= a.len(),
    ensures
        n == agree(a@, i as int, b@, j as int, limit as int),
        i >= limit ==> n == 0,
        i < limit ==> i + n <= limit,
        j < b.len() ==> j + n <= b.len(),
{
    if i >= limit || j >= b.len() {
        return 0;
    }
    common_bytes(a, i, b, j, (limit - i).min(b.len() - j))
}

/// How many bytes of `a` before `i` equal those of `b` before `j`, up to `n`.
pub open spec fn agree_back(a: Seq<u8>, i: int, b: Seq<u8>, j: int, n: int) -> int
    decreases n,
{
    if n <= 0 || a[i - 1] != b[j - 1] {
        0
    } else {
        1 + agree_back(a, i - 1, b, j - 1, n - 1)
    }
}

/// How many bytes of `a` before `i` equal those of `b` before `j`, up to `n`.
pub fn count_back(a: &[u8], i: usize, b: &[u8], j: usize, n: usize) -> (k: usize)
    requires
        n <= i <= a.len(),
        n <= j <= b.len(),
    ensures
        k == agree_back(a@, i as int, b@, j as int, n as int),
        k <= n,
{
    let mut k: usize = 0;
    while k < n && a[i - k - 1] == b[j - k - 1]
        invariant
            k <= n,
            n <= i <= a.len(),
            n <= j <= b.len(),
            agree_back(a@, i as int, b@, j as int, n as int) == k + agree_back(
                a@,
                i - k,
                b@,
                j - k,
                n - k,
            ),
        decreases n - k,
    {
        k = k + 1;
    }
    k
}

/// What agreeing means.
pub proof fn lemma_agree(a: Seq<u8>, i: int, b: Seq<u8>, j: int, limit: int)
    ensures
        0 <= agree(a, i, b, j, limit),
        i < limit ==> i + agree(a, i, b, j, limit) <= limit,
        i >= limit ==> agree(a, i, b, j, limit) == 0,
        j < b.len() ==> j + agree(a, i, b, j, limit) <= b.len(),
        forall|k: int| 0 <= k < agree(a, i, b, j, limit) ==> #[trigger] a[i + k] == b[j + k],
{
    if !(i >= limit || j >= b.len()) {
        if limit - i < b.len() - j {
            lemma_common(a, i, b, j, limit - i);
        } else {
            lemma_common(a, i, b, j, b.len() - j);
        }
    }
}

proof fn lemma_common(a: Seq<u8>, i: int, b: Seq<u8>, j: int, n: int)
    requires
        n >= 0,
    ensures
        0 <= common(a, i, b, j, n) <= n,
        forall|k: int| 0 <= k < common(a, i, b, j, n) ==> #[trigger] a[i + k] == b[j + k],
    decreases n,
{
    if n > 0 && a[i] == b[j] {
        lemma_common(a, i + 1, b, j + 1, n - 1);
        assert forall|k: int| 0 <= k < common(a, i, b, j, n) implies #[trigger] a[i + k] == b[j
            + k] by {
            if k > 0 {
                assert(a[(i + 1) + (k - 1)] == b[(j + 1) + (k - 1)]);
            }
        }
    }
}

/// What agreeing backwards means.
pub proof fn lemma_agree_back(a: Seq<u8>, i: int, b: Seq<u8>, j: int, n: int)
    ensures
        0 <= agree_back(a, i, b, j, n),
        n >= 0 ==> agree_back(a, i, b, j, n) <= n,
        forall|k: int|
            1 <= k <= agree_back(a, i, b, j, n) ==> #[trigger] a[i - k] == b[j - k],
    decreases n,
{
    if n > 0 && a[i - 1] == b[j - 1] {
        lemma_agree_back(a, i - 1, b, j - 1, n - 1);
        assert forall|k: int| 1 <= k <= agree_back(a, i, b, j, n) implies #[trigger] a[i - k]
            == b[j - k] by {
            if k > 1 {
                assert(a[(i - 1) - (k - 1)] == b[(j - 1) - (k - 1)]);
            }
        }
    }
}

/// Whether four bytes of `b` equal those of `a`.
pub open spec fn same4(a: Seq<u8>, i: int, b: Seq<u8>, j: int) -> bool {
    a[i] == b[j] && a[i + 1] == b[j + 1] && a[i + 2] == b[j + 2] && a[i + 3] == b[j + 3]
}

/// Whether four bytes of `b` equal those of `a`.
pub fn four_equal(a: &[u8], i: usize, b: &[u8], j: usize) -> (r: bool)
    requires
        i + 4 <= a.len(),
        j + 4 <= b.len(),
    ensures
        r == same4(a@, i as int, b@, j as int),
{
    a[i] == b[j] && a[i + 1] == b[j + 1] && a[i + 2] == b[j + 2] && a[i + 3] == b[j + 3]
}

} // verus!
