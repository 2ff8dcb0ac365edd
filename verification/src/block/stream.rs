//! What the fast compressor keeps from one block to the next.
use vstd::prelude::*;
use super::table::{
    hash_at, hash_position, host_little_endian, unpack, Cells, Table, TableType, U32_ENTRIES,
};

verus! {

/// How far back a match can reach, and how far indices of unrelated blocks are
/// kept apart.
pub const WINDOW: u32 = 0x1_0000;
/// Bytes hashed at a time when a dictionary is loaded.
pub const HASH_UNIT: usize = 8;
/// Words that fill the stream state up to its fixed size, where a pointer takes
/// eight bytes.
pub const ABI_STREAM_PADDING_WORDS: usize = 1;

/// The hash table of a stream of blocks, with the index of the next byte.
pub struct StreamState {
    pub table: Table,
    /// The index that the next block starts at. Entries of the table are
    /// indices too, so it survives from block to block.
    pub current_offset: u32,
    /// How much history precedes the next block.
    pub dict_size: u32,
    pub tt: TableType,
}

/// The state of a stream in caller-owned memory of a fixed layout.
pub struct AbiStreamState {
    pub hash_table: [u32; U32_ENTRIES],
    pub dictionary: usize,
    pub dict_ctx: usize,
    pub current_offset: u32,
    pub table_type: u32,
    pub dict_size: u32,
    pub padding: [u32; ABI_STREAM_PADDING_WORDS],
}

impl Clone for AbiStreamState {
    fn clone(&self) -> (s: AbiStreamState)
        ensures
            s == *self,
    {
        AbiStreamState {
            hash_table: self.hash_table,
            dictionary: self.dictionary,
            dict_ctx: self.dict_ctx,
            current_offset: self.current_offset,
            table_type: self.table_type,
            dict_size: self.dict_size,
            padding: self.padding,
        }
    }
}

/// The state of a stream decoder in caller-owned memory of a fixed layout.
#[derive(Clone, Copy)]
pub struct AbiDecodeState {
    pub external_dict: usize,
    pub prefix_end: usize,
    pub ext_dict_size: usize,
    pub prefix_size: usize,
}

impl Default for AbiDecodeState {
    fn default() -> (s: AbiDecodeState)
        ensures
            s == (AbiDecodeState {
                external_dict: 0,
                prefix_end: 0,
                ext_dict_size: 0,
                prefix_size: 0,
            }),
    {
        AbiDecodeState { external_dict: 0, prefix_end: 0, ext_dict_size: 0, prefix_size: 0 }
    }
}

/// A table with every third position of `d` from `p` on entered; the byte at
/// `p` has the index `idx`.
pub open spec fn enter_thirds(cells: Cells, d: Seq<u8>, p: int, idx: int, little: bool) -> Cells
    decreases d.len() - p,
{
    if p + HASH_UNIT > d.len() {
        cells
    } else {
        enter_thirds(
            cells.put(hash_at(d, p, TableType::U32, little) as int, idx),
            d,
            p + 3,
            idx + 3,
            little,
        )
    }
}

/// A table with every position of `d` from `p` on entered where nothing of the
/// dictionary stands yet.
pub open spec fn enter_missing(cells: Cells, d: Seq<u8>, p: int, idx: int, limit: int, little: bool) -> Cells
    decreases d.len() - p,
{
    if p + HASH_UNIT > d.len() {
        cells
    } else {
        let h = hash_at(d, p, TableType::U32, little) as int;
        let cells2 = if cells.at[h] <= limit {
            cells.put(h, idx)
        } else {
            cells
        };
        enter_missing(cells2, d, p + 1, idx + 1, limit, little)
    }
}

/// The part of a dictionary that matches can reach.
pub open spec fn reachable(dict: Seq<u8>) -> Seq<u8> {
    if dict.len() > WINDOW {
        dict.skip(dict.len() - WINDOW)
    } else {
        dict
    }
}

/// The table of a stream with a dictionary loaded.
pub open spec fn dict_cells(dict: Seq<u8>, slow: bool, little: bool) -> Cells {
    let d = reachable(dict);
    let idx = WINDOW - d.len();
    if dict.len() < HASH_UNIT {
        Cells::zero(TableType::U32)
    } else {
        let cells = enter_thirds(Cells::zero(TableType::U32), d, 0, idx, little);
        if slow {
            enter_missing(cells, d, 0, idx, 0, little)
        } else {
            cells
        }
    }
}

impl StreamState {
    /// Whether the table has its size and the history its indices.
    pub open spec fn wf(&self) -> bool {
        &&& self.table@.wf()
        &&& self.dict_size <= self.current_offset
    }

    /// The state of a stream with a dictionary loaded.
    pub open spec fn holds_dict(&self, dict: Seq<u8>, slow: bool, little: bool) -> bool {
        &&& self.table@ == dict_cells(dict, slow, little)
        &&& self.current_offset == WINDOW
        &&& self.dict_size == (if dict.len() < HASH_UNIT {
            0
        } else {
            reachable(dict).len() as int
        })
        &&& self.tt == TableType::U32
    }

    pub fn new() -> (s: StreamState)
        ensures
            s.wf(),
            s.table@ == Cells::zero(TableType::U32),
            s.current_offset == 0,
            s.dict_size == 0,
            s.tt == TableType::U32,
    {
        StreamState {
            table: Table::new(TableType::U32),
            current_offset: 0,
            dict_size: 0,
            tt: TableType::U32,
        }
    }

    /// Drops the history but keeps the table: entries stay valid, since the
    /// indices go on.
    pub fn reset_fast(&mut self)
        ensures
            final(self).dict_size == 0,
            final(self).table == old(self).table,
            final(self).current_offset == old(self).current_offset,
            final(self).tt == old(self).tt,
            old(self).wf() ==> final(self).wf(),
    {
        self.dict_size = 0;
    }

    /// Starts over, with a table of zeros.
    pub fn reset(&mut self)
        requires
            old(self).table@.wf(),
        ensures
            final(self).wf(),
            final(self).table@ == Cells::zero(old(self).table@.tt),
            final(self).current_offset == 0,
            final(self).dict_size == 0,
            final(self).tt == TableType::U32,
    {
        self.table.clear();
        self.current_offset = 0;
        self.dict_size = 0;
        self.tt = TableType::U32;
    }

    /// Declares how much history is retained, after that many trailing bytes
    /// were put somewhere safe.
    pub fn save_dict(&mut self, retained: usize)
        ensures
            final(self).dict_size <= retained,
            final(self).dict_size <= WINDOW,
            final(self).dict_size <= old(self).dict_size,
            final(self).dict_size == retained || final(self).dict_size == WINDOW
                || final(self).dict_size == old(self).dict_size,
            final(self).table == old(self).table,
            final(self).current_offset == old(self).current_offset,
            final(self).tt == old(self).tt,
            old(self).wf() ==> final(self).wf(),
    {
        let retained: u32 = if retained < WINDOW as usize {
            retained as u32
        } else {
            WINDOW
        };
        if retained < self.dict_size {
            self.dict_size = retained;
        }
    }

    /// Loads a dictionary as the history of the next block, and returns how
    /// much of it is used. With `slow`, a second pass favours positions near
    /// its start.
    pub fn load_dict(&mut self, dict: &[u8], slow: bool) -> (n: usize)
        requires
            old(self).table@.wf(),
            old(self).table@.tt == TableType::U32,
        ensures
            final(self).wf(),
            final(self).table@.tt == TableType::U32,
            n == final(self).dict_size,
            exists|little: bool| #[trigger] final(self).holds_dict(dict@, slow, little),
    {
        let little = host_little_endian();
        self.load_dict_ordered(dict, slow, little)
    }

    /// `load_dict` on a host of the given byte order.
    pub fn load_dict_ordered(&mut self, dict: &[u8], slow: bool, little: bool) -> (n: usize)
        requires
            old(self).table@.wf(),
            old(self).table@.tt == TableType::U32,
        ensures
            final(self).wf(),
            final(self).table@.tt == TableType::U32,
            n == final(self).dict_size,
            final(self).holds_dict(dict@, slow, little),
    {
        self.reset();
        // A whole window even for a shorter dictionary, so that no index of
        // it is below what a match may refer to.
        self.current_offset = WINDOW;
        if dict.len() < HASH_UNIT {
            return 0;
        }
        let start = dict.len().saturating_sub(WINDOW as usize);
        let d = &dict[start..dict.len()];
        assert(d@ =~= reachable(dict@));
        self.dict_size = d.len() as u32;
        let first = WINDOW - self.dict_size;
        let ghost cells0 = Cells::zero(TableType::U32);
        let mut idx32: u32 = first;
        let mut p: usize = 0;
        while p <= d.len() - HASH_UNIT
            invariant
                8 <= d.len() <= WINDOW,
                p <= d.len(),
                idx32 == first + p,
                first == WINDOW - d.len(),
                self.table@.wf(),
                self.table@.tt == TableType::U32,
                self.current_offset == WINDOW,
                self.dict_size == d.len(),
                self.tt == TableType::U32,
                enter_thirds(cells0, d@, 0, first as int, little) == enter_thirds(
                    self.table@,
                    d@,
                    p as int,
                    idx32 as int,
                    little,
                ),
            decreases d.len() - p,
        {
            let h = hash_position(d, p, TableType::U32, little);
            self.table.put(h, idx32);
            p = p + 3;
            idx32 = idx32 + 3;
        }
        if slow {
            let ghost cells1 = self.table@;
            let mut idx32: u32 = first;
            let mut p: usize = 0;
            while p <= d.len() - HASH_UNIT
                invariant
                    8 <= d.len() <= WINDOW,
                    p <= d.len(),
                    idx32 == first + p,
                    first == WINDOW - d.len(),
                    self.table@.wf(),
                    self.table@.tt == TableType::U32,
                    self.current_offset == WINDOW,
                    self.dict_size == d.len(),
                    self.tt == TableType::U32,
                    enter_missing(cells1, d@, 0, first as int, 0, little) == enter_missing(
                        self.table@,
                        d@,
                        p as int,
                        idx32 as int,
                        0,
                        little,
                    ),
                decreases d.len() - p,
            {
                let h = hash_position(d, p, TableType::U32, little);
                if self.table.get(h) == 0 {
                    self.table.put(h, idx32);
                }
                p = p + 1;
                idx32 = idx32 + 1;
            }
        }
        self.dict_size as usize
    }
}

impl Default for StreamState {
    fn default() -> (s: StreamState)
        ensures
            s.wf(),
            s.table@ == Cells::zero(TableType::U32),
            s.current_offset == 0,
            s.dict_size == 0,
            s.tt == TableType::U32,
    {
        StreamState::new()
    }
}

/// Sets every word to zero.
fn zero_words(words: &mut [u32; U32_ENTRIES])
    ensures
        forall|i: int| 0 <= i < U32_ENTRIES ==> #[trigger] final(words)@[i] == 0,
{
    let mut i: usize = 0;
    while i < U32_ENTRIES
        invariant
            i <= U32_ENTRIES,
            forall|k: int| 0 <= k < i ==> #[trigger] words@[k] == 0,
        decreases U32_ENTRIES - i,
    {
        words[i] = 0;
        i = i + 1;
    }
}

/// Whether all words are zero.
pub open spec fn all_zero(words: Seq<u32>) -> bool {
    forall|i: int| 0 <= i < words.len() ==> #[trigger] words[i] == 0
}

impl AbiStreamState {
    /// The type of table that the state says it holds.
    pub open spec fn tt(&self) -> TableType {
        if self.table_type == 3 {
            TableType::U16
        } else {
            TableType::U32
        }
    }

    /// Starts over, with everything zero.
    pub fn reset(&mut self)
        ensures
            all_zero(final(self).hash_table@),
            final(self).dictionary == 0,
            final(self).dict_ctx == 0,
            final(self).current_offset == 0,
            final(self).table_type == 0,
            final(self).dict_size == 0,
            all_zero(final(self).padding@),
    {
        zero_words(&mut self.hash_table);
        self.dictionary = 0;
        self.dict_ctx = 0;
        self.current_offset = 0;
        self.table_type = 0;
        self.dict_size = 0;
        self.padding[0] = 0;
    }

    /// Drops the history. The table is kept where its indices can go on.
    pub fn reset_fast(&mut self)
        ensures
            ({
                let clear = old(self).table_type != 0 && (old(self).table_type != 2
                    || old(self).current_offset > 0x4000_0000);
                &&& clear ==> all_zero(final(self).hash_table@) && final(self).current_offset == 0
                    && final(self).table_type == 0
                &&& !clear ==> final(self).hash_table == old(self).hash_table
                    && final(self).table_type == old(self).table_type
                    && final(self).current_offset == (if old(self).current_offset == 0 {
                    0
                } else {
                    old(self).current_offset.wrapping_add(WINDOW)
                })
            }),
            final(self).dictionary == 0,
            final(self).dict_ctx == 0,
            final(self).dict_size == 0,
            final(self).padding == old(self).padding,
    {
        if self.table_type != 0 && (self.table_type != 2 || self.current_offset > 0x4000_0000) {
            zero_words(&mut self.hash_table);
            self.current_offset = 0;
            self.table_type = 0;
        }
        if self.current_offset != 0 {
            self.current_offset = self.current_offset.wrapping_add(WINDOW);
        }
        self.dictionary = 0;
        self.dict_ctx = 0;
        self.dict_size = 0;
    }

    /// Moves all indices down by a common amount, if `next_size` more bytes
    /// would take them too far.
    pub fn renormalize(&mut self, next_size: usize)
        requires
            old(self).current_offset + next_size > 0x8000_0000 ==> old(self).current_offset
                >= WINDOW,
        ensures
            old(self).current_offset + next_size <= 0x8000_0000 ==> *final(self) == *old(self),
            old(self).current_offset + next_size > 0x8000_0000 ==> {
                let delta = old(self).current_offset - WINDOW;
                let dict_end = if old(self).dictionary + old(self).dict_size > usize::MAX {
                    usize::MAX as int
                } else {
                    old(self).dictionary + old(self).dict_size
                };
                &&& forall|i: int|
                    0 <= i < U32_ENTRIES ==> #[trigger] final(self).hash_table@[i] == (if old(
                        self,
                    ).hash_table@[i] < delta {
                        0
                    } else {
                        old(self).hash_table@[i] - delta
                    })
                &&& final(self).current_offset == WINDOW
                &&& final(self).dict_size == (if old(self).dict_size < WINDOW {
                    old(self).dict_size
                } else {
                    WINDOW
                })
                &&& final(self).dictionary == (if dict_end < final(self).dict_size {
                    0
                } else {
                    dict_end - final(self).dict_size
                })
                &&& final(self).dict_ctx == old(self).dict_ctx
                &&& final(self).table_type == old(self).table_type
                &&& final(self).padding == old(self).padding
            },
    {
        let offset: usize = self.current_offset as usize;
        if next_size > 0x8000_0000 || offset > 0x8000_0000 - next_size {
            let delta = self.current_offset - WINDOW;
            let dict_end = self.dictionary.saturating_add(self.dict_size as usize);
            let ghost words0 = self.hash_table@;
            let mut i: usize = 0;
            while i < U32_ENTRIES
                invariant
                    i <= U32_ENTRIES,
                    words0 == old(self).hash_table@,
                    delta == old(self).current_offset - WINDOW,
                    self.current_offset == old(self).current_offset,
                    self.dict_size == old(self).dict_size,
                    self.dict_ctx == old(self).dict_ctx,
                    self.table_type == old(self).table_type,
                    self.padding == old(self).padding,
                    forall|k: int|
                        0 <= k < i ==> #[trigger] self.hash_table@[k] == (if words0[k] < delta {
                            0
                        } else {
                            words0[k] - delta
                        }),
                    forall|k: int|
                        i <= k < U32_ENTRIES ==> #[trigger] self.hash_table@[k] == words0[k],
                decreases U32_ENTRIES - i,
            {
                let entry: u32 = self.hash_table[i];
                self.hash_table[i] = if entry < delta {
                    0
                } else {
                    entry - delta
                };
                i = i + 1;
            }
            self.current_offset = WINDOW;
            if self.dict_size > WINDOW {
                self.dict_size = WINDOW;
            }
            self.dictionary = dict_end.saturating_sub(self.dict_size as usize);
        }
    }

    /// Loads a dictionary as the history of the next block.
    pub fn load_dict(&mut self, dict: &[u8], slow: bool) -> (n: usize)
        ensures
            exists|little: bool|
                unpack(final(self).hash_table@, TableType::U32, little) == #[trigger] dict_cells(
                    dict@,
                    slow,
                    little,
                ),
            final(self).dict_size == (if dict@.len() < HASH_UNIT {
                0
            } else {
                reachable(dict@).len() as int
            }),
            n == final(self).dict_size,
            final(self).current_offset == WINDOW,
            final(self).table_type == 2,
            final(self).dictionary == 0,
            final(self).dict_ctx == 0,
            all_zero(final(self).padding@),
    {
        let little = host_little_endian();
        self.reset();
        let mut state = StreamState::new();
        let n = state.load_dict_ordered(dict, slow, little);
        self.store(&state, little);
        n
    }

    /// A stream that works on a copy of the table.
    pub fn working(&self, little: bool) -> (s: StreamState)
        ensures
            s.table@ == unpack(self.hash_table@, self.tt(), little),
            s.table@.wf(),
            s.current_offset == self.current_offset,
            s.dict_size == self.dict_size,
            s.tt == self.tt(),
    {
        let tt = if self.table_type == 3 {
            TableType::U16
        } else {
            TableType::U32
        };
        StreamState {
            table: Table::from_abi(&self.hash_table, tt, little),
            current_offset: self.current_offset,
            dict_size: self.dict_size,
            tt,
        }
    }

    /// Takes over what a working stream has become.
    pub fn store(&mut self, state: &StreamState, little: bool)
        requires
            state.table@.wf(),
        ensures
            unpack(final(self).hash_table@, state.table@.tt, little) == state.table@,
            final(self).current_offset == state.current_offset,
            final(self).dict_size == state.dict_size,
            final(self).table_type == (if state.tt == TableType::U16 {
                3
            } else {
                2u32
            }),
            final(self).dictionary == old(self).dictionary,
            final(self).dict_ctx == old(self).dict_ctx,
            final(self).padding == old(self).padding,
    {
        state.table.store_abi(&mut self.hash_table, little);
        self.current_offset = state.current_offset;
        self.dict_size = state.dict_size;
        self.table_type = if state.tt == TableType::U16 {
            3
        } else {
            2
        };
    }

    /// Whether the table must be cleared before a block of `input_size` bytes
    /// is compressed with indices of type `tt`.
    pub open spec fn stale(&self, input_size: int, tt: TableType) -> bool {
        self.table_type != 0 && (self.table_type != (if tt == TableType::U16 {
            3u32
        } else {
            2
        }) || (tt == TableType::U16 && self.current_offset + input_size >= 0xFFFF) || (tt
            == TableType::U32 && self.current_offset > 0x4000_0000) || input_size >= 0x1000)
    }

    /// Readies the state for a block that has no history.
    pub fn prepare(&mut self, input_size: usize, tt: TableType)
        ensures
            ({
                let stale = old(self).stale(input_size as int, tt);
                let offset = if stale {
                    0
                } else {
                    old(self).current_offset
                };
                &&& stale ==> all_zero(final(self).hash_table@) && final(self).table_type == 0
                &&& !stale ==> final(self).hash_table == old(self).hash_table
                    && final(self).table_type == old(self).table_type
                &&& final(self).current_offset == (if offset != 0 && tt == TableType::U32 {
                    offset.wrapping_add(WINDOW)
                } else {
                    offset
                })
            }),
            final(self).dictionary == 0,
            final(self).dict_ctx == 0,
            final(self).dict_size == 0,
            final(self).padding == old(self).padding,
    {
        let table_type: u32 = if tt == TableType::U16 {
            3
        } else {
            2
        };
        if self.table_type != 0 && (self.table_type != table_type || (tt == TableType::U16
            && self.current_offset as u64 + input_size.min(0x1000) as u64 >= 0xFFFF) || (tt
            == TableType::U32 && self.current_offset > 0x4000_0000) || input_size >= 0x1000) {
            zero_words(&mut self.hash_table);
            self.current_offset = 0;
            self.table_type = 0;
        }
        if self.current_offset != 0 && tt == TableType::U32 {
            self.current_offset = self.current_offset.wrapping_add(WINDOW);
        }
        self.dictionary = 0;
        self.dict_ctx = 0;
        self.dict_size = 0;
    }
}

} // verus!
