//! A segment: one store and one index covering a contiguous range of offsets.
use vstd::prelude::*;

use crate::commit_log::CommitLogError;
use crate::index::{self, entries_of, min_spec, nearest_multiple_spec, resized, Index, SegmentConfig};
use crate::record::{decode_record, encode_record, record_bytes, value_len_fits, Record};
use crate::store::{
    entry_payload, lemma_entry_payload_extend, lemma_read_after_append, store_entry, Store,
};

verus! {

/// Caps of one segment.
#[derive(Debug, Clone, Copy, PartialEq, Eq, Structural)]
pub struct Config {
    pub max_index_bytes: u64,
    pub max_store_bytes: u64,
    pub initial_offset: u64,
}

/// Returns the greatest multiple of `k` that is at most `j`.
pub fn nearest_multiple(j: u64, k: u64) -> (r: u64)
    requires
        k > 0,
    ensures
        r == (j / k) * k,
        r <= j,
        j - r < k,
        r % k == 0,
{
    let q = j / k;
    proof {
        vstd::arithmetic::div_mod::lemma_fundamental_div_mod(j as int, k as int);
        vstd::arithmetic::mul::lemma_mul_is_commutative(q as int, k as int);
        vstd::arithmetic::div_mod::lemma_mod_multiples_basic(q as int, k as int);
    }
    q * k
}


/// The byte images of the two files of a segment.
#[derive(Debug, PartialEq, Eq)]
pub struct SegmentFiles {
    pub base_offset: u64,
    pub store: Vec<u8>,
    pub index: Vec<u8>,
}

/// The entries that an index file with contents `index_file` holds once
/// mapped at `max_index_bytes`.
pub open spec fn recovered_entries(index_file: Seq<u8>, max_index_bytes: u64) -> Seq<(u32, u64)> {
    entries_of(
        resized(index_file, max_index_bytes as nat),
        nearest_multiple_spec(min_spec(index_file.len(), max_index_bytes as nat), 12) / 12,
    )
}

/// Entry `i` of the index describes record `i` of the segment.
pub open spec fn dense(entries: Seq<(u32, u64)>) -> bool {
    forall|i: int| 0 <= i < entries.len() ==> (#[trigger] entries[i]).0 == i
}

/// Whether a segment at `base_offset` can be opened over an index file with
/// contents `index_file`.
pub open spec fn recoverable(base_offset: u64, max_index_bytes: u64, index_file: Seq<u8>) -> bool {
    let e = recovered_entries(index_file, max_index_bytes);
    dense(e) && base_offset + e.len() <= u64::MAX
}

/// A store paired with an index.
pub struct Segment {
    store: Store,
    index: Index,
    base_offset: u64,
    next_offset: u64,
    config: Config,
}

impl Segment {
    /// The contents of the store file.
    pub closed spec fn store_view(&self) -> Seq<u8> {
        self.store@
    }

    pub closed spec fn idx(&self) -> Index {
        self.index
    }

    /// The lowest offset this segment can hold.
    pub closed spec fn base(&self) -> u64 {
        self.base_offset
    }

    /// The offset the next append will be given.
    pub closed spec fn next(&self) -> u64 {
        self.next_offset
    }

    pub closed spec fn cfg(&self) -> Config {
        self.config
    }

    pub open spec fn entry_count(&self) -> nat {
        self.idx().entry_count()
    }

    pub open spec fn wf(&self) -> bool {
        &&& self.idx().wf()
        &&& self.idx().capacity() == self.cfg().max_index_bytes
        &&& self.cfg().max_index_bytes <= usize::MAX
        &&& self.next() == self.base() + self.entry_count()
        &&& dense(self.idx().entries())
    }

    /// The segment holds the record values `vals`: the `i`-th index entry
    /// points at a store entry whose payload encodes `{base + i, vals[i]}`.
    pub open spec fn holds(&self, vals: Seq<Seq<u8>>) -> bool {
        &&& vals.len() == self.entry_count()
        &&& forall|i: int|
            0 <= i < vals.len() ==> #[trigger] entry_payload(
                self.store_view(),
                self.idx().entries()[i].1 as int,
            ) == Some(record_bytes((self.base() + i) as u64, vals[i]))
    }

    /// At or past either cap: the store holds `max_store_bytes` or more, or the
    /// index has no room for another entry.
    pub open spec fn maxed(&self) -> bool {
        ||| self.store_view().len() >= self.cfg().max_store_bytes
        ||| self.entry_count() >= self.cfg().max_index_bytes / 12
    }

    /// Why appending `value` fails, if it does.
    pub open spec fn append_error(&self, value: Seq<u8>) -> Option<CommitLogError> {
        if self.idx().full() || self.next() - self.base() > u32::MAX {
            Some(CommitLogError::IndexFull)
        } else if !value_len_fits(value.len()) {
            Some(CommitLogError::EncodingFailure)
        } else if self.store_view().len() + 8 + record_bytes(self.next(), value).len() > u64::MAX {
            Some(CommitLogError::IoFailure)
        } else {
            None
        }
    }

    /// The segment was opened at `base_offset` with `config` over files with
    /// contents `store_file` and `index_file`.
    pub open spec fn opened_from(
        &self,
        base_offset: u64,
        config: Config,
        store_file: Seq<u8>,
        index_file: Seq<u8>,
    ) -> bool {
        &&& self.wf()
        &&& self.base() == base_offset
        &&& self.cfg() == config
        &&& self.store_view() == store_file
        &&& self.idx().entries() == recovered_entries(index_file, config.max_index_bytes)
    }

    /// Opens the segment at `base_offset` whose files hold `store_file` and
    /// `index_file` (both empty for a new segment).
    ///
    /// The next offset comes from the index alone: the base offset if it is
    /// empty, else one past the relative offset of its last entry. Fails with
    /// `CorruptDirectory` where entry `i` of the index does not hold relative
    /// offset `i`, or where the offsets would pass `u64::MAX`.
    pub fn new(base_offset: u64, config: Config, store_file: Vec<u8>, index_file: Vec<u8>) -> (r:
        Result<Segment, CommitLogError>)
        requires
            config.max_index_bytes <= usize::MAX,
        ensures
            recoverable(base_offset, config.max_index_bytes, index_file@) ==> (r matches Ok(s)
                && s.opened_from(base_offset, config, store_file@, index_file@)),
            !recoverable(base_offset, config.max_index_bytes, index_file@) ==> r == Err::<
                Segment,
                CommitLogError,
            >(CommitLogError::CorruptDirectory),
    {
        let ghost index_image = index_file@;
        let store = Store::new(store_file);
        let index = Index::new(
            index_file,
            index::Config { segment: SegmentConfig { max_index_bytes: config.max_index_bytes } },
        );
        let ghost e = recovered_entries(index_image, config.max_index_bytes);
        assert(index.entries() == e);
        let count = index.len();
        let mut i: u64 = 0;
        while i < count
            invariant
                i <= count,
                index.wf(),
                count == index.entry_count(),
                index.entries() == e,
                e == recovered_entries(index_image, config.max_index_bytes),
                index_image == index_file@,
                forall|j: int| 0 <= j < i ==> (#[trigger] e[j]).0 == j,
            decreases count - i,
        {
            if index.relative_offset(i) as u64 != i {
                assert(e[i as int].0 != i);
                return Err(CommitLogError::CorruptDirectory);
            }
            i = i + 1;
        }
        if count > u64::MAX - base_offset {
            return Err(CommitLogError::CorruptDirectory);
        }
        let next_offset = match index.last_offset() {
            Some(last) => base_offset + last as u64 + 1,
            None => base_offset,
        };
        Ok(Segment { store, index, base_offset, next_offset, config })
    }

    /// Appends a record holding `value` and returns the offset it was given.
    ///
    /// The index is checked before anything is written: where it has no room
    /// for the entry, the append fails with `IndexFull` and the store is left
    /// as it was. A failing append changes nothing.
    pub fn append(&mut self, value: Vec<u8>) -> (r: Result<u64, CommitLogError>)
        requires
            old(self).wf(),
            old(self).next() < u64::MAX,
        ensures
            final(self).wf(),
            final(self).base() == old(self).base(),
            final(self).cfg() == old(self).cfg(),
            match old(self).append_error(value@) {
                Some(e) => r == Err::<u64, CommitLogError>(e) && *final(self) == *old(self),
                None => {
                    &&& r == Ok::<u64, CommitLogError>(old(self).next())
                    &&& final(self).next() == old(self).next() + 1
                    &&& final(self).store_view() == old(self).store_view() + store_entry(
                        record_bytes(old(self).next(), value@),
                    )
                    &&& forall|vals: Seq<Seq<u8>>|
                        old(self).holds(vals) ==> #[trigger] final(self).holds(vals.push(value@))
                },
            },
    {
        let offset = self.next_offset;
        let rel = offset - self.base_offset;
        if self.index.is_full() || rel > u32::MAX as u64 {
            return Err(CommitLogError::IndexFull);
        }
        if value.len() > (isize::MAX as usize) - 32 {
            return Err(CommitLogError::EncodingFailure);
        }
        let bytes = encode_record(offset, value.as_slice());
        let out = match self.store.append(bytes.as_slice()) {
            Ok(out) => out,
            Err(e) => {
                return Err(e);
            },
        };
        match self.index.write(rel as u32, out.appended_at) {
            Ok(()) => {},
            Err(_) => {
                return Err(CommitLogError::IndexFull);
            },
        }
        self.next_offset = offset + 1;
        proof {
            let old_s = old(self).store_view();
            let rb = record_bytes(offset, value@);
            lemma_read_after_append(old_s, rb);
            assert forall|vals: Seq<Seq<u8>>| old(self).holds(vals) implies #[trigger] self.holds(
                vals.push(value@),
            ) by {
                let nv = vals.push(value@);
                assert forall|i: int| 0 <= i < nv.len() implies #[trigger] entry_payload(
                    self.store_view(),
                    self.idx().entries()[i].1 as int,
                ) == Some(record_bytes((self.base() + i) as u64, nv[i])) by {
                    if i < vals.len() {
                        assert(self.idx().entries()[i] == old(self).idx().entries()[i]);
                        assert(entry_payload(old_s, old(self).idx().entries()[i].1 as int)
                            == Some(record_bytes((self.base() + i) as u64, vals[i])));
                        lemma_entry_payload_extend(
                            old_s,
                            store_entry(rb),
                            old(self).idx().entries()[i].1 as int,
                        );
                    }
                }
            }
        }
        Ok(offset)
    }

    /// Returns the record at `offset`.
    ///
    /// Fails with `OffsetOutOfBounds` where the offset lies outside
    /// `[base_offset, next_offset)`. Within that range a segment that holds
    /// values `vals` returns `{offset, vals[offset - base_offset]}`; one whose
    /// files were damaged may fail with `IoFailure` (the entry runs past the
    /// end of the store) or `EncodingFailure` (its payload is no record).
    pub fn read(&self, offset: u64) -> (r: Result<Record, CommitLogError>)
        requires
            self.wf(),
        ensures
            !(self.base() <= offset < self.next()) ==> r == Err::<Record, CommitLogError>(
                CommitLogError::OffsetOutOfBounds(offset),
            ),
            self.base() <= offset < self.next() ==> forall|vals: Seq<Seq<u8>>|
                #[trigger] self.holds(vals) ==> (r matches Ok(rec) && rec.offset == offset
                    && rec.value@ == vals[offset - self.base()]),
            self.base() <= offset < self.next() ==> (r is Ok || r == Err::<Record, CommitLogError>(
                CommitLogError::IoFailure,
            ) || r == Err::<Record, CommitLogError>(CommitLogError::EncodingFailure)),
    {
        if offset < self.base_offset {
            return Err(CommitLogError::OffsetOutOfBounds(offset));
        }
        let rel = offset - self.base_offset;
        let position = match self.index.read(rel) {
            Ok(p) => p,
            Err(_) => {
                return Err(CommitLogError::OffsetOutOfBounds(offset));
            },
        };
        let bytes = match self.store.read(position) {
            Ok(b) => b,
            Err(e) => {
                return Err(e);
            },
        };
        let r = decode_record(bytes.as_slice());
        proof {
            assert forall|vals: Seq<Seq<u8>>| #[trigger] self.holds(vals) implies (r matches Ok(rec)
                && rec.offset == offset && rec.value@ == vals[offset - self.base()]) by {
                let i = rel as int;
                assert(entry_payload(self.store_view(), self.idx().entries()[i].1 as int) == Some(
                    record_bytes((self.base() + i) as u64, vals[i]),
                ));
                assert(bytes@ == record_bytes(offset, vals[i]));
            }
        }
        r
    }

    /// Whether the segment has reached either cap, so the log must roll over.
    pub fn is_maxed(&self) -> (r: bool)
        requires
            self.wf(),
        ensures
            r == self.maxed(),
    {
        self.store.size() >= self.config.max_store_bytes || self.index.len()
            >= self.config.max_index_bytes / 12
    }

    /// The segment's store.
    pub fn store(&self) -> (r: &Store)
        ensures
            r@ == self.store_view(),
    {
        &self.store
    }

    /// The segment's index.
    pub fn index(&self) -> (r: &Index)
        ensures
            *r == self.idx(),
    {
        &self.index
    }

    /// Returns the segment's base offset.
    pub fn base_offset(&self) -> (r: u64)
        ensures
            r == self.base(),
    {
        self.base_offset
    }

    /// Returns the offset the next append will be given.
    pub fn next_offset(&self) -> (r: u64)
        ensures
            r == self.next(),
    {
        self.next_offset
    }

    /// Closes the store and the index, handing back the contents their files
    /// are left with: the index cut to the entries in use.
    pub fn close(self) -> (r: SegmentFiles)
        requires
            self.wf(),
        ensures
            r.base_offset == self.base(),
            r.store@ == self.store_view(),
            r.index@ == self.idx().bytes().subrange(0, self.idx().used() as int),
    {
        SegmentFiles { base_offset: self.base_offset, store: self.store.close(), index: self.index.close() }
    }
}

/// Closing a segment and reopening its files gives back its entries.
pub proof fn lemma_reopen_segment(s: Segment)
    requires
        s.wf(),
    ensures
        recovered_entries(
            s.idx().bytes().subrange(0, s.idx().used() as int),
            s.cfg().max_index_bytes,
        ) == s.idx().entries(),
        recoverable(
            s.base(),
            s.cfg().max_index_bytes,
            s.idx().bytes().subrange(0, s.idx().used() as int),
        ),
{
    let used = s.idx().used();
    let max = s.cfg().max_index_bytes;
    let f = s.idx().bytes().subrange(0, used as int);
    vstd::arithmetic::div_mod::lemma_fundamental_div_mod(used as int, 12);
    assert(min_spec(f.len(), max as nat) == used);
    assert(nearest_multiple_spec(used, 12) == used);
    let r = resized(f, max as nat);
    let count = used / 12;
    assert(r.subrange(0, 12 * count as int) =~= s.idx().bytes().subrange(0, 12 * count as int));
    index::lemma_entries_of_prefix(r, s.idx().bytes(), count);
}

/// Two segments with the same base offset, store and index entries hold the
/// same values.
pub proof fn lemma_holds_transfer(a: Segment, b: Segment, vals: Seq<Seq<u8>>)
    requires
        a.base() == b.base(),
        a.store_view() == b.store_view(),
        a.idx().entries() == b.idx().entries(),
        a.holds(vals),
    ensures
        b.holds(vals),
{
    assert(a.idx().entries().len() == a.entry_count());
    assert(b.idx().entries().len() == b.entry_count());
}

} // verus!
