//! The index: fixed-width entries mapping a record's offset, relative to its
//! segment, to the position of the record in the store.
//!
//! Each entry is the relative offset as a big-endian `u32` followed by the
//! store position as a big-endian `u64`. The mapped region is allocated at
//! its full size up front, since a mapping cannot grow, and the bytes in use
//! are tracked apart from it.
use vstd::prelude::*;

use crate::endian::{
    lemma_u32_be_round_trip, lemma_u64_be_round_trip, read_u32_be, read_u64_be, u32_be_bytes,
    u32_from_be, u64_be_bytes, u64_from_be,
};
use crate::segment::nearest_multiple;

verus! {

/// Width of the relative offset of an entry.
pub const OFFSET_WIDTH: u64 = 4;

/// Width of the store position of an entry.
pub const POSITION_WIDTH: u64 = 8;

/// Width of one entry.
pub const ENTRY_WIDTH: u64 = 12;

#[derive(Debug, Clone, Copy, PartialEq, Eq, Structural)]
pub struct SegmentConfig {
    pub max_index_bytes: u64,
}

#[derive(Debug, Clone, Copy, PartialEq, Eq, Structural)]
pub struct Config {
    pub segment: SegmentConfig,
}

#[derive(Debug, Clone, Copy, PartialEq, Eq, Structural)]
pub enum IndexError {
    /// The index has reached its maximum number of entries.
    IndexIsFull,
    /// The index, with `index_len` entries, has no entry `offset`.
    OffsetOutOfBounds { offset: u64, index_len: u64 },
}

/// The bytes of the entry `(offset, position)`.
pub open spec fn entry_bytes(offset: u32, position: u64) -> Seq<u8> {
    u32_be_bytes(offset) + u64_be_bytes(position)
}

/// The entry stored at slot `i` of the index image `b`.
pub open spec fn entry_at(b: Seq<u8>, i: int) -> (u32, u64) {
    (
        u32_from_be(b.subrange(12 * i, 12 * i + 4)),
        u64_from_be(b.subrange(12 * i + 4, 12 * i + 12)),
    )
}

/// The first `count` entries of the index image `b`.
pub open spec fn entries_of(b: Seq<u8>, count: nat) -> Seq<(u32, u64)> {
    Seq::new(count, |i: int| entry_at(b, i))
}

/// `contents` cut or zero-filled to `len` bytes.
pub open spec fn resized(contents: Seq<u8>, len: nat) -> Seq<u8> {
    Seq::new(len, |i: int| if i < contents.len() { contents[i] } else { 0u8 })
}

/// An index file, mapped at its full size.
pub struct Index {
    mmap: Vec<u8>,
    size: u64,
}

impl Index {
    /// The mapped region: the whole index file while it is open.
    pub closed spec fn bytes(&self) -> Seq<u8> {
        self.mmap@
    }

    /// How many bytes of the mapped region hold entries.
    pub closed spec fn used(&self) -> nat {
        self.size as nat
    }

    pub open spec fn capacity(&self) -> nat {
        self.bytes().len()
    }

    pub open spec fn entry_count(&self) -> nat {
        self.used() / 12
    }

    /// The entries, in the order they were written.
    pub open spec fn entries(&self) -> Seq<(u32, u64)> {
        entries_of(self.bytes(), self.entry_count())
    }

    /// Whether there is no room for another entry.
    pub open spec fn full(&self) -> bool {
        self.capacity() < self.used() + ENTRY_WIDTH
    }

    pub open spec fn wf(&self) -> bool {
        &&& self.used() % 12 == 0
        &&& self.used() <= self.capacity()
        &&& self.capacity() <= u64::MAX
    }

    /// What `read(offset)` returns.
    pub open spec fn read_result(&self, offset: u64) -> Result<u64, IndexError> {
        if offset < self.entry_count() {
            Ok(self.entries()[offset as int].1)
        } else {
            Err(IndexError::OffsetOutOfBounds { offset, index_len: self.entry_count() as u64 })
        }
    }

    /// Maps an index file whose current contents are `contents`.
    ///
    /// The file is first grown (or cut) to `max_index_bytes`. The bytes in use
    /// are what the file held before, cut to the mapped size and rounded down
    /// to whole entries: an index that was closed holds exactly its entries.
    pub fn new(contents: Vec<u8>, config: Config) -> (r: Index)
        requires
            config.segment.max_index_bytes <= usize::MAX,
        ensures
            r.wf(),
            r.bytes() == resized(contents@, config.segment.max_index_bytes as nat),
            r.used() == nearest_multiple_spec(
                min_spec(contents@.len(), config.segment.max_index_bytes as nat),
                12,
            ),
    {
        let max = config.segment.max_index_bytes as usize;
        let len = contents.len();
        let mut mmap = contents;
        if len > max {
            mmap.truncate(max);
        } else {
            mmap.resize(max, 0u8);
        }
        assert(mmap@ =~= resized(contents@, max as nat));
        let kept = if len > max {
            max
        } else {
            len
        };
        let size = nearest_multiple(kept as u64, ENTRY_WIDTH);
        Index { mmap, size }
    }

    /// How many entries the index holds.
    pub fn len(&self) -> (r: u64)
        requires
            self.wf(),
        ensures
            r == self.entry_count(),
    {
        self.size / ENTRY_WIDTH
    }

    /// Whether the index holds no entries.
    pub fn is_empty(&self) -> (r: bool)
        requires
            self.wf(),
        ensures
            r == (self.entry_count() == 0),
    {
        self.size == 0
    }

    /// Whether the index has its maximum number of entries.
    pub fn is_full(&self) -> (r: bool)
        requires
            self.wf(),
        ensures
            r == self.full(),
    {
        (self.mmap.len() as u64) - self.size < ENTRY_WIDTH
    }

    /// How many bytes hold entries.
    pub fn size(&self) -> (r: u64)
        ensures
            r == self.used(),
    {
        self.size
    }

    /// Appends the entry `(offset, position)`.
    ///
    /// Fails with `IndexIsFull`, changing nothing, where there is no room for it.
    pub fn write(&mut self, offset: u32, position: u64) -> (r: Result<(), IndexError>)
        requires
            old(self).wf(),
        ensures
            final(self).wf(),
            final(self).capacity() == old(self).capacity(),
            old(self).full() ==> r == Err::<(), IndexError>(IndexError::IndexIsFull) && *final(self)
                == *old(self),
            !old(self).full() ==> {
                &&& r == Ok::<(), IndexError>(())
                &&& final(self).used() == old(self).used() + ENTRY_WIDTH
                &&& final(self).entries() == old(self).entries().push((offset, position))
                &&& final(self).bytes() == old(self).bytes().subrange(0, old(self).used() as int)
                    + entry_bytes(offset, position) + old(self).bytes().subrange(
                    old(self).used() + ENTRY_WIDTH,
                    old(self).capacity() as int,
                )
            },
    {
        if self.is_full() {
            return Err(IndexError::IndexIsFull);
        }
        let cap = self.mmap.len();
        assert(self.size + 12 <= cap);
        let at = self.size as usize;
        self.mmap[at] = (offset >> 24u32) as u8;
        self.mmap[at + 1] = (offset >> 16u32) as u8;
        self.mmap[at + 2] = (offset >> 8u32) as u8;
        self.mmap[at + 3] = offset as u8;
        self.mmap[at + 4] = (position >> 56u64) as u8;
        self.mmap[at + 5] = (position >> 48u64) as u8;
        self.mmap[at + 6] = (position >> 40u64) as u8;
        self.mmap[at + 7] = (position >> 32u64) as u8;
        self.mmap[at + 8] = (position >> 24u64) as u8;
        self.mmap[at + 9] = (position >> 16u64) as u8;
        self.mmap[at + 10] = (position >> 8u64) as u8;
        self.mmap[at + 11] = position as u8;
        self.size = self.size + ENTRY_WIDTH;
        proof {
            let old_b = old(self).bytes();
            let new_b = self.mmap@;
            let n = old(self).entry_count() as int;
            assert(new_b =~= old_b.subrange(0, at as int) + entry_bytes(offset, position)
                + old_b.subrange(at + 12, old_b.len() as int));
            vstd::arithmetic::div_mod::lemma_fundamental_div_mod(old(self).size as int, 12);
            assert(at == 12 * n);
            assert(self.entry_count() == n + 1);
            lemma_u32_be_round_trip(offset);
            lemma_u64_be_round_trip(position);
            assert(new_b.subrange(12 * n, 12 * n + 4) =~= u32_be_bytes(offset));
            assert(new_b.subrange(12 * n + 4, 12 * n + 12) =~= u64_be_bytes(position));
            assert forall|i: int| 0 <= i < n implies entry_at(new_b, i) == entry_at(old_b, i) by {
                assert(12 * i + 12 <= 12 * n) by (nonlinear_arith)
                    requires
                        i < n,
                ;
                assert(new_b.subrange(12 * i, 12 * i + 4) =~= old_b.subrange(12 * i, 12 * i + 4));
                assert(new_b.subrange(12 * i + 4, 12 * i + 12) =~= old_b.subrange(
                    12 * i + 4,
                    12 * i + 12,
                ));
            }
            assert(self.entries() =~= old(self).entries().push((offset, position)));
        }
        Ok(())
    }

    /// Returns the store position of entry `offset`, counted from the first
    /// entry of the index.
    ///
    /// Fails with `OffsetOutOfBounds` where the index holds no such entry.
    pub fn read(&self, offset: u64) -> (r: Result<u64, IndexError>)
        requires
            self.wf(),
        ensures
            r == self.read_result(offset),
    {
        let cap = self.mmap.len();
        let len = self.size / ENTRY_WIDTH;
        if self.size == 0 || offset >= len {
            return Err(IndexError::OffsetOutOfBounds { offset, index_len: len });
        }
        proof {
            assert(12 * offset + 12 <= self.size) by (nonlinear_arith)
                requires
                    offset < len,
                    len == self.size / 12,
                    self.size % 12 == 0,
            ;
        }
        let at = (offset * ENTRY_WIDTH) as usize + OFFSET_WIDTH as usize;
        Ok(read_u64_be(self.mmap.as_slice(), at))
    }

    /// The relative offset held by the last entry, if there is one.
    pub fn last_offset(&self) -> (r: Option<u32>)
        requires
            self.wf(),
        ensures
            self.entry_count() == 0 ==> r is None,
            self.entry_count() > 0 ==> r == Some(self.entries().last().0),
    {
        if self.size == 0 {
            return None;
        }
        let cap = self.mmap.len();
        let at = (self.size - ENTRY_WIDTH) as usize;
        proof {
            vstd::arithmetic::div_mod::lemma_fundamental_div_mod(self.size as int, 12);
            assert(at == 12 * (self.entry_count() - 1));
        }
        Some(read_u32_be(self.mmap.as_slice(), at))
    }

    /// The relative offset held by entry `slot`.
    pub fn relative_offset(&self, slot: u64) -> (r: u32)
        requires
            self.wf(),
            slot < self.entry_count(),
        ensures
            r == self.entries()[slot as int].0,
    {
        let cap = self.mmap.len();
        proof {
            assert(12 * slot + 12 <= self.size) by (nonlinear_arith)
                requires
                    slot < self.size / 12,
                    self.size % 12 == 0,
            ;
        }
        read_u32_be(self.mmap.as_slice(), (slot * ENTRY_WIDTH) as usize)
    }

    /// The bytes in use: the entries, in the order they were written.
    pub fn contents(&self) -> (r: &[u8])
        requires
            self.wf(),
        ensures
            r@ == self.bytes().subrange(0, self.used() as int),
    {
        let cap = self.mmap.len();
        vstd::slice::slice_subrange(self.mmap.as_slice(), 0, self.size as usize)
    }

    /// Ends the index, handing back the file contents cut to the bytes in use.
    pub fn close(self) -> (r: Vec<u8>)
        requires
            self.wf(),
        ensures
            r@ == self.bytes().subrange(0, self.used() as int),
    {
        let mut mmap = self.mmap;
        mmap.truncate(self.size as usize);
        mmap
    }
}

pub open spec fn nearest_multiple_spec(j: nat, k: nat) -> nat
    recommends
        k > 0,
{
    (j / k) * k
}

pub open spec fn min_spec(a: nat, b: nat) -> nat {
    if a < b {
        a
    } else {
        b
    }
}

/// The entries of an index depend only on the bytes in use.
pub proof fn lemma_entries_of_prefix(a: Seq<u8>, b: Seq<u8>, count: nat)
    requires
        12 * count <= a.len(),
        12 * count <= b.len(),
        a.subrange(0, 12 * count as int) == b.subrange(0, 12 * count as int),
    ensures
        entries_of(a, count) == entries_of(b, count),
{
    assert forall|i: int| 0 <= i < count implies entry_at(a, i) == entry_at(b, i) by {
        assert(12 * i + 12 <= 12 * count) by (nonlinear_arith)
            requires
                i < count,
        ;
        assert(a.subrange(12 * i, 12 * i + 4) =~= a.subrange(0, 12 * count as int).subrange(
            12 * i,
            12 * i + 4,
        ));
        assert(b.subrange(12 * i, 12 * i + 4) =~= b.subrange(0, 12 * count as int).subrange(
            12 * i,
            12 * i + 4,
        ));
        assert(a.subrange(12 * i + 4, 12 * i + 12) =~= a.subrange(0, 12 * count as int).subrange(
            12 * i + 4,
            12 * i + 12,
        ));
        assert(b.subrange(12 * i + 4, 12 * i + 12) =~= b.subrange(0, 12 * count as int).subrange(
            12 * i + 4,
            12 * i + 12,
        ));
    }
    assert(entries_of(a, count) =~= entries_of(b, count));
}

/// After a fresh index has taken the entries `written`, reading slot `i`
/// gives the position written `i`-th.
pub proof fn lemma_positions_read_back(index: Index, written: Seq<(u32, u64)>)
    requires
        index.wf(),
        index.entries() == written,
    ensures
        forall|i: int|
            0 <= i < written.len() ==> #[trigger] index.read_result(i as u64) == Ok::<
                u64,
                IndexError,
            >(written[i].1),
{
}

} // verus!
