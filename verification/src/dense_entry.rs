//! One entry of the reviewed CPython 3.12/3.13 dense Unicode-key table,
//! read from modeled memory without changing the iteration position.
//!
//! Memory is a byte allocation at a fixed address; uninitialized bytes are
//! `None`. Object pointers are addresses and are copied, never followed.

use vstd::prelude::*;

verus! {

/// Byte offset of the base-2 logarithm of the index width.
pub const DK_LOG2_INDEX_BYTES_OFFSET: usize = 9;
/// Byte offset of the table kind.
pub const DK_KIND_OFFSET: usize = 10;
/// Byte offset of the entry count.
pub const DK_NENTRIES_OFFSET: usize = 24;
/// Byte offset of the index array.
pub const DK_INDICES_OFFSET: usize = 32;
/// Size of one key/value entry.
pub const ENTRY_BYTES: usize = 16;
/// Address of the modeled allocation; 8-aligned and not null.
pub const TABLE_BASE: usize = 4096;
/// Largest modeled allocation.
pub const MAX_TABLE_BYTES: usize = 0x1000_0000;

/// Copied object pointers carry no owners and no references to table storage.
#[derive(Clone, Copy, Debug, PartialEq, Eq, Structural)]
pub enum EntryLookup {
    Fallback,
    End,
    Entry { key: u64, value: u64 },
}

/// Little-endian 64-bit value of eight bytes.
pub open spec fn word_of(b: Seq<u8>) -> u64 {
    (b[0] as u64) | ((b[1] as u64) << 8u64) | ((b[2] as u64) << 16u64) | ((b[3] as u64) << 24u64)
        | ((b[4] as u64) << 32u64) | ((b[5] as u64) << 40u64) | ((b[6] as u64) << 48u64) | ((
    b[7] as u64) << 56u64)
}

/// Little-endian bytes of a 64-bit value.
pub open spec fn bytes_of(v: u64) -> Seq<u8> {
    seq![
        v as u8,
        (v >> 8u64) as u8,
        (v >> 16u64) as u8,
        (v >> 24u64) as u8,
        (v >> 32u64) as u8,
        (v >> 40u64) as u8,
        (v >> 48u64) as u8,
        (v >> 56u64) as u8,
    ]
}

/// The `n` bytes at `address` lie in the allocation and are initialized.
pub open spec fn readable(memory: Seq<Option<u8>>, address: int, n: int) -> bool {
    &&& TABLE_BASE <= address
    &&& address + n <= TABLE_BASE + memory.len()
    &&& forall|i: int| address <= i < address + n ==> (#[trigger] memory[i - TABLE_BASE]) is Some
}

/// The initialized byte at `address`.
pub open spec fn byte_at(memory: Seq<Option<u8>>, address: int) -> u8 {
    memory[address - TABLE_BASE]->0
}

/// The little-endian word at `address`.
pub open spec fn word_at(memory: Seq<Option<u8>>, address: int) -> u64 {
    word_of(Seq::new(8, |i: int| byte_at(memory, address + i)))
}

/// Offset of entry `position` from the table header, when the arithmetic and
/// extent checks admit it.
pub open spec fn entry_offset(position: int, log2_index_bytes: u8) -> Option<int> {
    if log2_index_bytes >= usize::BITS {
        None
    } else {
        let offset = position * ENTRY_BYTES + DK_INDICES_OFFSET + vstd::arithmetic::power2::pow2(
            log2_index_bytes as nat,
        );
        if position * ENTRY_BYTES > usize::MAX || position * ENTRY_BYTES + DK_INDICES_OFFSET
            > usize::MAX || offset > usize::MAX || offset + ENTRY_BYTES > isize::MAX {
            None
        } else {
            Some(offset)
        }
    }
}

/// Address of the entry at `offset`, wrapping like pointer arithmetic.
pub open spec fn entry_address(keys: u64, offset: int) -> int {
    (keys + offset) % 0x1_0000_0000_0000_0000
}

/// The lookup before any entry is read: a refusal, the end, or the address
/// of the selected entry.
pub open spec fn header_step(memory: Seq<Option<u8>>, keys: u64, used: isize, position: isize) -> Result<int, EntryLookup> {
    if used <= 0 || position < 0 || keys == 0 || keys % 8 != 0 {
        Err(EntryLookup::Fallback)
    } else if byte_at(memory, keys + DK_KIND_OFFSET) != 1 {
        Err(EntryLookup::Fallback)
    } else if word_at(memory, keys + DK_NENTRIES_OFFSET) as isize != used {
        Err(EntryLookup::Fallback)
    } else if position >= used {
        Err(EntryLookup::End)
    } else {
        match entry_offset(position as int, byte_at(memory, keys + DK_LOG2_INDEX_BYTES_OFFSET)) {
            None => Err(EntryLookup::Fallback),
            Some(offset) => if entry_address(keys, offset) % 8 != 0 {
                Err(EntryLookup::Fallback)
            } else {
                Ok(entry_address(keys, offset))
            },
        }
    }
}

/// Every byte that the lookup reads is initialized and in the allocation:
/// the kind byte after the early refusals, the count for kind 1, the index
/// width for an in-range dense position, the key once the arithmetic admits
/// the entry, and the value after a non-null key.
pub open spec fn reads_initialized(memory: Seq<Option<u8>>, keys: u64, used: isize, position: isize) -> bool {
    if used <= 0 || position < 0 || keys == 0 || keys % 8 != 0 {
        true
    } else {
        &&& readable(memory, keys + DK_KIND_OFFSET, 1)
        &&& byte_at(memory, keys + DK_KIND_OFFSET) == 1 ==> {
            &&& readable(memory, keys + DK_NENTRIES_OFFSET, 8)
            &&& (word_at(memory, keys + DK_NENTRIES_OFFSET) as isize == used && position < used) ==> {
                &&& readable(memory, keys + DK_LOG2_INDEX_BYTES_OFFSET, 1)
                &&& header_step(memory, keys, used, position) matches Ok(entry) ==> {
                    &&& readable(memory, entry, 8)
                    &&& word_at(memory, entry) != 0 ==> readable(memory, entry + 8, 8)
                }
            }
        }
    }
}

/// What the lookup returns.
pub open spec fn lookup(memory: Seq<Option<u8>>, keys: u64, used: isize, position: isize) -> EntryLookup {
    match header_step(memory, keys, used, position) {
        Err(result) => result,
        Ok(entry) => {
            let key = word_at(memory, entry);
            let value = word_at(memory, entry + 8);
            if key == 0 || value == 0 {
                EntryLookup::Fallback
            } else {
                EntryLookup::Entry { key, value }
            }
        },
    }
}

/// A modeled key-table allocation; tests initialize only each branch's
/// required fields.
pub struct KeyTable {
    cells: Vec<Option<u8>>,
    // Byte offset of the modeled header within the allocation.
    start: usize,
}

impl KeyTable {
    /// The allocation's bytes, `None` where uninitialized.
    pub closed spec fn memory(&self) -> Seq<Option<u8>> {
        self.cells@
    }

    /// The allocation is bounded and contains its header offset.
    pub closed spec fn wf(&self) -> bool {
        &&& self.cells@.len() <= MAX_TABLE_BYTES
        &&& self.start <= self.cells@.len()
    }

    /// Offset of the header in the allocation.
    pub closed spec fn header_offset(&self) -> usize {
        self.start
    }

    /// An uninitialized allocation of `bytes` bytes with the header at `start`.
    pub fn new(bytes: usize, start: usize) -> (table: Self)
        requires
            bytes != 0,
            start <= bytes <= MAX_TABLE_BYTES,
        ensures
            table.wf(),
            table.memory() == Seq::new(bytes as nat, |i: int| None::<u8>),
            table.header_offset() == start,
    {
        let mut cells: Vec<Option<u8>> = Vec::with_capacity(bytes);
        let mut i: usize = 0;
        while i < bytes
            invariant
                i <= bytes,
                cells@ == Seq::new(i as nat, |j: int| None::<u8>),
            decreases bytes - i,
        {
            cells.push(None);
            i = i + 1;
            proof {
                assert(cells@ =~= Seq::new(i as nat, |j: int| None::<u8>));
            }
        }
        KeyTable { cells, start }
    }

    /// Address of the header.
    pub fn pointer(&self) -> (address: u64)
        requires
            self.wf(),
        ensures
            address == TABLE_BASE + self.header_offset(),
    {
        TABLE_BASE as u64 + self.start as u64
    }

    /// Initialize bytes at `offset` from the header.
    pub fn write(&mut self, offset: usize, value: &[u8])
        requires
            old(self).wf(),
            old(self).header_offset() + offset + value@.len() <= old(self).memory().len(),
        ensures
            final(self).wf(),
            final(self).header_offset() == old(self).header_offset(),
            final(self).memory().len() == old(self).memory().len(),
            forall|i: int|
                0 <= i < final(self).memory().len() ==> #[trigger] final(self).memory()[i] == (if old(
                    self,
                ).header_offset() + offset <= i < old(self).header_offset() + offset + value@.len() {
                    Some(value@[i - old(self).header_offset() - offset])
                } else {
                    old(self).memory()[i]
                }),
    {
        let base = self.start + offset;
        let mut i: usize = 0;
        while i < value.len()
            invariant
                base == old(self).header_offset() + offset,
                self.cells@.len() <= MAX_TABLE_BYTES,
                self.start <= self.cells@.len(),
                base + value@.len() <= old(self).memory().len(),
                i <= value@.len(),
                self.start == old(self).start,
                self.cells@.len() == old(self).cells@.len(),
                forall|k: int|
                    0 <= k < self.cells@.len() ==> #[trigger] self.cells@[k] == (if base <= k < base + i {
                        Some(value@[k - base])
                    } else {
                        old(self).cells@[k]
                    }),
            decreases value@.len() - i,
        {
            self.cells.set(base + i, Some(value[i]));
            i = i + 1;
        }
    }

    /// Initialize a little-endian word at `offset` from the header.
    pub fn write_word(&mut self, offset: usize, value: u64)
        requires
            old(self).wf(),
            old(self).header_offset() + offset + 8 <= old(self).memory().len(),
        ensures
            final(self).wf(),
            final(self).header_offset() == old(self).header_offset(),
            final(self).memory().len() == old(self).memory().len(),
            forall|i: int|
                0 <= i < final(self).memory().len() ==> #[trigger] final(self).memory()[i] == (if old(
                    self,
                ).header_offset() + offset <= i < old(self).header_offset() + offset + 8 {
                    Some(bytes_of(value)[i - old(self).header_offset() - offset])
                } else {
                    old(self).memory()[i]
                }),
    {
        let bytes = [
            value as u8,
            (value >> 8u64) as u8,
            (value >> 16u64) as u8,
            (value >> 24u64) as u8,
            (value >> 32u64) as u8,
            (value >> 40u64) as u8,
            (value >> 48u64) as u8,
            (value >> 56u64) as u8,
        ];
        proof {
            assert(bytes@ =~= bytes_of(value));
        }
        self.write(offset, &bytes);
    }

    /// Write a dense kind-1 header: the entry count and the index width.
    pub fn dense(&mut self, entries: isize, log2_index_bytes: u8)
        requires
            old(self).wf(),
            old(self).header_offset() + 32 <= old(self).memory().len(),
        ensures
            final(self).wf(),
            final(self).header_offset() == old(self).header_offset(),
            final(self).memory().len() == old(self).memory().len(),
            forall|i: int|
                0 <= i < final(self).memory().len() ==> #[trigger] final(self).memory()[i] == {
                    let h = old(self).header_offset() as int;
                    if i == h + DK_KIND_OFFSET {
                        Some(1u8)
                    } else if i == h + DK_LOG2_INDEX_BYTES_OFFSET {
                        Some(log2_index_bytes)
                    } else if h + DK_NENTRIES_OFFSET <= i < h + DK_NENTRIES_OFFSET + 8 {
                        Some(bytes_of(entries as u64)[i - h - DK_NENTRIES_OFFSET])
                    } else {
                        old(self).memory()[i]
                    }
                },
    {
        self.write(DK_KIND_OFFSET, &[1u8]);
        self.write_word(DK_NENTRIES_OFFSET, entries as u64);
        self.write(DK_LOG2_INDEX_BYTES_OFFSET, &[log2_index_bytes]);
    }

    /// Write the key and value addresses of entry `position`.
    pub fn entry(&mut self, log2_index_bytes: u8, position: usize, key: u64, value: u64)
        requires
            old(self).wf(),
            log2_index_bytes < usize::BITS,
            position * 16 + 32 + vstd::arithmetic::power2::pow2(log2_index_bytes as nat)
                + old(self).header_offset() + 16 <= old(self).memory().len(),
        ensures
            final(self).wf(),
            final(self).header_offset() == old(self).header_offset(),
            final(self).memory().len() == old(self).memory().len(),
            forall|i: int|
                0 <= i < final(self).memory().len() ==> #[trigger] final(self).memory()[i] == {
                    let start = old(self).header_offset() + position * ENTRY_BYTES + DK_INDICES_OFFSET
                        + vstd::arithmetic::power2::pow2(log2_index_bytes as nat);
                    if start <= i < start + 8 {
                        Some(bytes_of(key)[i - start])
                    } else if start + 8 <= i < start + 16 {
                        Some(bytes_of(value)[i - start - 8])
                    } else {
                        old(self).memory()[i]
                    }
                },
    {
        proof {
            vstd::arithmetic::power2::lemma_pow2_pos(log2_index_bytes as nat);
            lemma_shl_is_pow2(log2_index_bytes);
        }
        let indices = 1usize << (log2_index_bytes as usize);
        let offset = position * 16 + 32 + indices;
        self.write_word(offset, key);
        self.write_word(offset + 8, value);
    }
}

/// `1 << shift` is 2^shift for shifts below the word width.
pub proof fn lemma_shl_is_pow2(shift: u8)
    requires
        shift < usize::BITS,
    ensures
        (1usize << (shift as usize)) as int == vstd::arithmetic::power2::pow2(shift as nat),
{
    vstd::bits::lemma_usize_pow2_no_overflow(shift as nat);
    vstd::bits::lemma_usize_shl_is_mul(1usize, shift as usize);
}

impl KeyTable {
    /// The initialized byte at `address`.
    fn load_byte(&self, address: u64) -> (byte: u8)
        requires
            self.wf(),
            readable(self.memory(), address as int, 1),
        ensures
            byte == byte_at(self.memory(), address as int),
    {
        assert(self.memory()[address - TABLE_BASE] is Some);
        self.cells[(address - TABLE_BASE as u64) as usize].unwrap()
    }

    /// The little-endian word at `address`.
    fn load_word(&self, address: u64) -> (word: u64)
        requires
            self.wf(),
            readable(self.memory(), address as int, 8),
        ensures
            word == word_at(self.memory(), address as int),
    {
        let mut bytes = [0u8; 8];
        let mut i: usize = 0;
        while i < 8
            invariant
                i <= 8,
                self.wf(),
                readable(self.memory(), address as int, 8),
                forall|j: int| 0 <= j < i ==> bytes@[j] == byte_at(self.memory(), address + j),
            decreases 8 - i,
        {
            bytes[i] = self.load_byte(address + i as u64);
            i = i + 1;
        }
        let ghost expected = Seq::new(8, |j: int| byte_at(self.memory(), address + j));
        assert(bytes@ =~= expected);
        (bytes[0] as u64) | ((bytes[1] as u64) << 8u64) | ((bytes[2] as u64) << 16u64) | ((bytes[3] as u64)
            << 24u64) | ((bytes[4] as u64) << 32u64) | ((bytes[5] as u64) << 40u64) | ((bytes[6] as u64)
            << 48u64) | ((bytes[7] as u64) << 56u64)
    }
}

/// Read one dense entry without changing the iteration position.
///
/// Nonpositive `used`, negative positions, null and misaligned headers are
/// refused before any read. A kind other than 1 or a count other than `used`
/// falls back; a position at or past the count ends iteration. Index widths
/// that overflow, entry offsets that overflow, extents beyond `isize::MAX`
/// and misaligned entries fall back before the entry is read. A null key or
/// value falls back; the value is read only after a non-null key.
pub fn read_entry(table: &KeyTable, keys: u64, used: isize, position: isize) -> (result: EntryLookup)
    requires
        table.wf(),
        reads_initialized(table.memory(), keys, used, position),
    ensures
        result == lookup(table.memory(), keys, used, position),
{
    if used <= 0 || position < 0 || keys == 0 || keys % 8 != 0 {
        return EntryLookup::Fallback;
    }
    if table.load_byte(keys + DK_KIND_OFFSET as u64) != 1 {
        return EntryLookup::Fallback;
    }
    let entries = table.load_word(keys + DK_NENTRIES_OFFSET as u64) as isize;
    if entries != used {
        return EntryLookup::Fallback;
    }
    if position >= entries {
        return EntryLookup::End;
    }
    let log2_index_bytes = table.load_byte(keys + DK_LOG2_INDEX_BYTES_OFFSET as u64);
    if log2_index_bytes as u32 >= usize::BITS {
        return EntryLookup::Fallback;
    }
    proof {
        lemma_shl_is_pow2(log2_index_bytes);
    }
    let index_bytes = 1usize << (log2_index_bytes as usize);
    let p = position as usize;
    let offset = match p.checked_mul(ENTRY_BYTES) {
        None => {
            return EntryLookup::Fallback;
        },
        Some(o) => match o.checked_add(DK_INDICES_OFFSET) {
            None => {
                return EntryLookup::Fallback;
            },
            Some(o) => match o.checked_add(index_bytes) {
                None => {
                    return EntryLookup::Fallback;
                },
                Some(o) => o,
            },
        },
    };
    match offset.checked_add(ENTRY_BYTES) {
        Some(end) => {
            if end > isize::MAX as usize {
                return EntryLookup::Fallback;
            }
        },
        None => {
            return EntryLookup::Fallback;
        },
    }
    // Wrapping preserves the address and permits the alignment rejection
    // before requiring the entry to be within the allocation.
    let entry = keys.wrapping_add(offset as u64);
    proof {
        assert(entry as int == entry_address(keys, offset as int));
    }
    if entry % 8 != 0 {
        return EntryLookup::Fallback;
    }
    let key = table.load_word(entry);
    if key == 0 {
        return EntryLookup::Fallback;
    }
    let value = table.load_word(entry + 8);
    if value == 0 {
        EntryLookup::Fallback
    } else {
        EntryLookup::Entry { key, value }
    }
}

} // verus!
