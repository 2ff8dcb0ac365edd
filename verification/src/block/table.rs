//! The hash table of the fast compressor, and the hashes that index it.
use vstd::prelude::*;

verus! {

/// Two to this many entries of 32 bits make up a table.
pub const HASHLOG: u32 = 12;
/// Entries of a table of 32-bit indices.
pub const U32_ENTRIES: usize = 4096;
/// Entries of a table of 16-bit indices: the same memory, one more hash bit.
pub const U16_ENTRIES: usize = 8192;

/// How wide the indices in a table are.
#[derive(Clone, Copy, PartialEq, Eq, Structural)]
pub enum TableType {
    U16,
    U32,
}

/// The two bytes of `x`, low byte first or high byte first.
pub open spec fn laid_out(x: u16, little: bool) -> Seq<u8> {
    if little {
        seq![(x % 256) as u8, (x / 256) as u8]
    } else {
        seq![(x / 256) as u8, (x % 256) as u8]
    }
}

/// `u16::to_ne_bytes`: the two bytes of `x` in the order in which the host
/// keeps them in memory, low byte first or high byte first. Which of the two
/// the host uses is not stated.
#[verifier::external_body]
fn native_bytes(x: u16) -> (r: [u8; 2])
    ensures
        r@ == laid_out(x, true) || r@ == laid_out(x, false),
{
    x.to_ne_bytes()
}

/// Whether the number one lies in `bytes` with its low byte first.
pub fn low_byte_first(bytes: [u8; 2]) -> (little: bool)
    ensures
        little == (bytes@[0] == 1),
        forall|order: bool| bytes@ == #[trigger] laid_out(1, order) ==> little == order,
{
    bytes[0] == 1
}

/// Whether the host keeps the low byte of an integer first. The answer is the
/// host's own: either is possible.
pub(crate) fn host_little_endian() -> (little: bool) {
    low_byte_first(native_bytes(1))
}

/// The four bytes at `at` as a host of the given byte order loads them.
pub open spec fn word32(s: Seq<u8>, at: int, little: bool) -> u32 {
    if little {
        (s[at] + 0x100 * s[at + 1] + 0x1_0000 * s[at + 2] + 0x100_0000 * s[at + 3]) as u32
    } else {
        (s[at + 3] + 0x100 * s[at + 2] + 0x1_0000 * s[at + 1] + 0x100_0000 * s[at]) as u32
    }
}

/// The eight bytes at `at` as a host of the given byte order loads them.
pub open spec fn word64(s: Seq<u8>, at: int, little: bool) -> u64 {
    if little {
        (word32(s, at, true) + 0x1_0000_0000 * word32(s, at + 4, true)) as u64
    } else {
        (word32(s, at + 4, false) + 0x1_0000_0000 * word32(s, at, false)) as u64
    }
}

pub open spec fn hash4_spec(sequence: u32, tt: TableType) -> u32 {
    let log: u32 = match tt {
        TableType::U16 => 13,
        TableType::U32 => 12,
    };
    sequence.wrapping_mul(2654435761u32) >> ((32 - log) as u32)
}

pub open spec fn hash5_spec(sequence: u64, tt: TableType, little: bool) -> u32 {
    let log: u64 = match tt {
        TableType::U16 => 13,
        TableType::U32 => 12,
    };
    if little {
        ((sequence << 24u64).wrapping_mul(889523592379u64) >> ((64 - log) as u64)) as u32
    } else {
        ((sequence >> 24u64).wrapping_mul(11400714785074694791u64) >> ((64 - log) as u64)) as u32
    }
}

/// The hash of the bytes at `at`. Tables of 16-bit indices hash four bytes,
/// also where the host could hash five.
#[verifier::opaque]
pub open spec fn hash_at(s: Seq<u8>, at: int, tt: TableType, little: bool) -> u32 {
    if usize::BITS == 64 && tt == TableType::U32 {
        hash5_spec(word64(s, at, little), tt, little)
    } else {
        hash4_spec(word32(s, at, little), tt)
    }
}

/// How many entries a table of the given type has.
pub open spec fn entries(tt: TableType) -> int {
    match tt {
        TableType::U16 => U16_ENTRIES as int,
        TableType::U32 => U32_ENTRIES as int,
    }
}

pub fn load32(s: &[u8], at: usize, little: bool) -> (w: u32)
    requires
        at + 4 <= s.len(),
    ensures
        w == word32(s@, at as int, little),
{
    let (a, b, c, d) = (s[at] as u32, s[at + 1] as u32, s[at + 2] as u32, s[at + 3] as u32);
    if little {
        a + 0x100 * b + 0x1_0000 * c + 0x100_0000 * d
    } else {
        d + 0x100 * c + 0x1_0000 * b + 0x100_0000 * a
    }
}

fn load64(s: &[u8], at: usize, little: bool) -> (w: u64)
    requires
        at + 8 <= s.len(),
    ensures
        w == word64(s@, at as int, little),
{
    let a = load32(s, at, little) as u64;
    let b = load32(s, at + 4, little) as u64;
    if little {
        a + 0x1_0000_0000 * b
    } else {
        b + 0x1_0000_0000 * a
    }
}

pub fn hash4(sequence: u32, tt: TableType) -> (h: u32)
    ensures
        h == hash4_spec(sequence, tt),
        h < entries(tt),
{
    let log: u32 = match tt {
        TableType::U16 => HASHLOG + 1,
        TableType::U32 => HASHLOG,
    };
    let x = sequence.wrapping_mul(2654435761);
    assert(x >> 19u32 < 8192) by (bit_vector);
    assert(x >> 20u32 < 4096) by (bit_vector);
    x >> (32 - log)
}

pub fn hash5(sequence: u64, tt: TableType, little: bool) -> (h: u32)
    ensures
        h == hash5_spec(sequence, tt, little),
        h < entries(tt),
{
    let log: u64 = match tt {
        TableType::U16 => 13,
        TableType::U32 => 12,
    };
    let x = if little {
        (sequence << 24u64).wrapping_mul(889523592379)
    } else {
        (sequence >> 24u64).wrapping_mul(11400714785074694791)
    };
    assert(x >> 51u64 < 8192) by (bit_vector);
    assert(x >> 52u64 < 4096) by (bit_vector);
    (x >> (64 - log)) as u32
}

/// The hash of the input bytes at `at`.
pub fn hash_position(s: &[u8], at: usize, tt: TableType, little: bool) -> (h: u32)
    requires
        at + 8 <= s.len(),
    ensures
        h == hash_at(s@, at as int, tt, little),
        h < entries(tt),
{
    reveal(hash_at);
    if usize::BITS == 64 && tt == TableType::U32 {
        hash5(load64(s, at, little), tt, little)
    } else {
        hash4(load32(s, at, little), tt)
    }
}

/// The hash table. How wide an entry is follows its type.
pub enum Table {
    U16(Vec<u16>),
    U32(Vec<u32>),
}

/// What a table holds.
#[verifier::ext_equal]
pub struct Cells {
    pub tt: TableType,
    pub at: Seq<int>,
}

impl Cells {
    /// The table with `idx` stored at `h`, as far as an entry can hold it.
    pub open spec fn put(self, h: int, idx: int) -> Cells {
        let v = match self.tt {
            TableType::U16 => idx % 0x1_0000,
            TableType::U32 => idx,
        };
        Cells { tt: self.tt, at: self.at.update(h, v) }
    }

    pub open spec fn wf(self) -> bool {
        self.at.len() == entries(self.tt)
    }

    /// A table whose entries are all zero.
    pub open spec fn zero(tt: TableType) -> Cells {
        Cells { tt, at: Seq::new(entries(tt) as nat, |i: int| 0) }
    }
}

impl View for Table {
    type V = Cells;

    open spec fn view(&self) -> Cells {
        match self {
            Table::U16(t) => Cells {
                tt: TableType::U16,
                at: Seq::new(t@.len(), |i: int| t@[i] as int),
            },
            Table::U32(t) => Cells {
                tt: TableType::U32,
                at: Seq::new(t@.len(), |i: int| t@[i] as int),
            },
        }
    }
}

/// The 32-bit words that a table of this kind is kept in.
pub open spec fn unpack(words: Seq<u32>, tt: TableType, little: bool) -> Cells {
    match tt {
        TableType::U32 => Cells { tt, at: Seq::new(words.len(), |i: int| words[i] as int) },
        TableType::U16 => Cells {
            tt,
            at: Seq::new(
                2 * words.len(),
                |i: int|
                    if (i % 2 == 0) == little {
                        words[i / 2] as int % 0x1_0000
                    } else {
                        words[i / 2] as int / 0x1_0000
                    },
            ),
        },
    }
}

impl Table {
    /// A table of zeros.
    pub fn new(tt: TableType) -> (t: Table)
        ensures
            t@ == Cells::zero(tt),
    {
        let t = match tt {
            TableType::U16 => Table::U16(vec![0u16; U16_ENTRIES]),
            TableType::U32 => Table::U32(vec![0u32; U32_ENTRIES]),
        };
        assert(t@ =~= Cells::zero(tt));
        t
    }

    /// The entry at `h`.
    pub fn get(&self, h: u32) -> (idx: u32)
        requires
            h < self@.at.len(),
        ensures
            idx == self@.at[h as int],
    {
        match self {
            Table::U16(t) => t[h as usize] as u32,
            Table::U32(t) => t[h as usize],
        }
    }

    /// Stores `idx` at `h`.
    pub fn put(&mut self, h: u32, idx: u32)
        requires
            h < old(self)@.at.len(),
        ensures
            final(self)@ == old(self)@.put(h as int, idx as int),
    {
        let ghost before = self@;
        match self {
            Table::U16(t) => {
                assert(idx as u16 == idx % 0x1_0000) by (bit_vector);
                t[h as usize] = idx as u16;
            },
            Table::U32(t) => {
                t[h as usize] = idx;
            },
        }
        assert(self@ =~= before.put(h as int, idx as int));
    }

    /// Sets every entry to zero.
    pub fn clear(&mut self)
        requires
            old(self)@.wf(),
        ensures
            final(self)@ == Cells::zero(old(self)@.tt),
    {
        *self = match self {
            Table::U16(_) => Table::new(TableType::U16),
            Table::U32(_) => Table::new(TableType::U32),
        };
    }

    /// The table kept in `words`, with the halves of each word in host order.
    pub fn from_abi(words: &[u32; U32_ENTRIES], tt: TableType, little: bool) -> (t: Table)
        ensures
            t@ == unpack(words@, tt, little),
    {
        match tt {
            TableType::U32 => {
                let mut v: Vec<u32> = Vec::new();
                let mut i: usize = 0;
                while i < U32_ENTRIES
                    invariant
                        i <= U32_ENTRIES,
                        v@ == words@.take(i as int),
                    decreases U32_ENTRIES - i,
                {
                    v.push(words[i]);
                    i = i + 1;
                    assert(v@ =~= words@.take(i as int));
                }
                let t = Table::U32(v);
                assert(t@ =~= unpack(words@, tt, little));
                t
            },
            TableType::U16 => {
                let mut v: Vec<u16> = Vec::new();
                let mut i: usize = 0;
                while i < U32_ENTRIES
                    invariant
                        i <= U32_ENTRIES,
                        v@.len() == 2 * i,
                        forall|k: int|
                            0 <= k < 2 * i ==> #[trigger] v@[k] == unpack(
                                words@,
                                TableType::U16,
                                little,
                            ).at[k],
                    decreases U32_ENTRIES - i,
                {
                    let lo = (words[i] % 0x1_0000) as u16;
                    let hi = (words[i] / 0x1_0000) as u16;
                    if little {
                        v.push(lo);
                        v.push(hi);
                    } else {
                        v.push(hi);
                        v.push(lo);
                    }
                    i = i + 1;
                }
                let t = Table::U16(v);
                assert(t@ =~= unpack(words@, tt, little));
                t
            },
        }
    }

    /// Writes the table to `words`, the halves of each word in host order.
    pub fn store_abi(&self, words: &mut [u32; U32_ENTRIES], little: bool)
        requires
            self@.wf(),
        ensures
            unpack(final(words)@, self@.tt, little) == self@,
    {
        let ghost tt = self@.tt;
        match self {
            Table::U32(t) => {
                let mut i: usize = 0;
                while i < U32_ENTRIES
                    invariant
                        i <= U32_ENTRIES,
                        t@.len() == U32_ENTRIES,
                        forall|k: int| 0 <= k < i ==> #[trigger] words@[k] == t@[k],
                    decreases U32_ENTRIES - i,
                {
                    words[i] = t[i];
                    i = i + 1;
                }
            },
            Table::U16(t) => {
                let mut i: usize = 0;
                while i < U32_ENTRIES
                    invariant
                        i <= U32_ENTRIES,
                        t@.len() == U16_ENTRIES,
                        forall|k: int|
                            0 <= k < i ==> #[trigger] words@[k] == (if little {
                                t@[2 * k] + 0x1_0000 * t@[2 * k + 1]
                            } else {
                                t@[2 * k + 1] + 0x1_0000 * t@[2 * k]
                            }),
                    decreases U32_ENTRIES - i,
                {
                    let a = t[2 * i] as u32;
                    let b = t[2 * i + 1] as u32;
                    words[i] = if little {
                        a + 0x1_0000 * b
                    } else {
                        b + 0x1_0000 * a
                    };
                    i = i + 1;
                }
                assert forall|k: int| 0 <= k < U16_ENTRIES implies #[trigger] unpack(
                    words@,
                    tt,
                    little,
                ).at[k] == self@.at[k] by {
                    let w = words@[k / 2];
                    let lo = if little {
                        t@[2 * (k / 2)]
                    } else {
                        t@[2 * (k / 2) + 1]
                    };
                    let hi = if little {
                        t@[2 * (k / 2) + 1]
                    } else {
                        t@[2 * (k / 2)]
                    };
                    assert(w == lo + 0x1_0000 * hi);
                }
            },
        }
        assert(unpack(words@, tt, little) =~= self@);
    }
}

} // verus!
