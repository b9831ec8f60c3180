//! The log: an ordered chain of segments with one active tail.
use vstd::prelude::*;

use crate::record::{lemma_record_len, record_bytes, record_len, Record};
use crate::segment::{
    self, lemma_holds_transfer, lemma_reopen_segment, recoverable, recovered_entries, Segment,
    SegmentFiles,
};
use crate::store::store_entry;

verus! {

/// Errors surfaced by the storage engine.
#[derive(Debug, Clone, Copy, PartialEq, Eq, Structural)]
pub enum CommitLogError {
    /// No segment contains the requested offset.
    OffsetOutOfBounds(u64),
    /// The index has no room for another entry.
    IndexFull,
    /// The recovered segments do not form a valid chain.
    CorruptDirectory,
    /// A read or write of a segment file could not be carried out.
    IoFailure,
    /// A record could not be encoded or decoded.
    EncodingFailure,
}

/// Settings of a log.
#[derive(Debug, Clone, Copy, PartialEq, Eq, Structural)]
pub struct Config {
    /// Base offset of the first segment of a new log.
    pub initial_offset: u64,
    /// A segment whose store reaches this many bytes is rolled over.
    pub max_store_bytes_per_segment: u64,
    /// Size of each index file; a segment whose index is full is rolled over.
    pub max_index_bytes_per_segment: u64,
}

impl Default for Config {
    fn default() -> (r: Config)
        ensures
            r.initial_offset == 0,
            r.max_store_bytes_per_segment == 1024,
            r.max_index_bytes_per_segment == 1024,
    {
        Config {
            initial_offset: 0,
            max_store_bytes_per_segment: 1024,
            max_index_bytes_per_segment: 1024,
        }
    }
}

/// The caps a log gives each of its segments.
pub open spec fn segment_config(c: Config) -> segment::Config {
    segment::Config {
        max_index_bytes: c.max_index_bytes_per_segment,
        max_store_bytes: c.max_store_bytes_per_segment,
        initial_offset: 0,
    }
}

/// The files found in a log directory can be opened as a log: each index is
/// dense, and each segment starts where the one before it ends, above that
/// one's base offset.
pub open spec fn recovery_ok(c: Config, files: Seq<SegmentFiles>) -> bool {
    &&& forall|k: int|
        0 <= k < files.len() ==> recoverable(
            (#[trigger] files[k]).base_offset,
            c.max_index_bytes_per_segment,
            files[k].index@,
        )
    &&& forall|k: int|
        0 <= k < files.len() - 1 ==> {
            &&& (#[trigger] files[k]).base_offset + recovered_entries(
                files[k].index@,
                c.max_index_bytes_per_segment,
            ).len() == files[k + 1].base_offset
            &&& files[k].base_offset < files[k + 1].base_offset
        }
}

/// Index of the segment that `truncate(lowest)` keeps first: the last one
/// whose next offset is at most `lowest + 1`, or the first if there is none.
pub open spec fn cut_point(segs: Seq<Segment>, lowest: u64) -> int
    decreases segs.len(),
{
    if segs.len() == 0 {
        0
    } else if segs.last().next() <= lowest + 1 {
        segs.len() - 1
    } else {
        cut_point(segs.drop_last(), lowest)
    }
}

/// Every segment is well formed and has the caps that `c` gives.
pub open spec fn all_wf(segs: Seq<Segment>, c: Config) -> bool {
    forall|k: int|
        0 <= k < segs.len() ==> (#[trigger] segs[k]).wf() && segs[k].cfg() == segment_config(c)
}

/// Each segment ends at or before any later one starts, and starts above it.
pub open spec fn ordered(segs: Seq<Segment>) -> bool {
    forall|j: int, k: int|
        0 <= j < k < segs.len() ==> (#[trigger] segs[j]).next() <= (#[trigger] segs[k]).base()
            && segs[j].base() < segs[k].base()
}

/// Each segment starts where the one before it ends.
pub open spec fn gap_free(segs: Seq<Segment>) -> bool {
    forall|k: int| 0 <= k < segs.len() - 1 ==> (#[trigger] segs[k]).next() == segs[k + 1].base()
}

/// The chain holds `vals`: `vals[i]` is the value at offset `base + i`, where
/// `base` is that of the first segment, for each offset a segment covers.
pub open spec fn chain_holds(segs: Seq<Segment>, vals: Seq<Seq<u8>>) -> bool {
    let lo = segs[0].base();
    &&& vals.len() == segs.last().next() - lo
    &&& forall|k: int|
        0 <= k < segs.len() ==> (#[trigger] segs[k]).holds(
            vals.subrange(segs[k].base() - lo, segs[k].next() - lo),
        )
}

/// `f` holds what the files of `s` are left with once it is closed.
pub open spec fn closed_file(s: Segment, f: SegmentFiles) -> bool {
    &&& f.base_offset == s.base()
    &&& f.store@ == s.store_view()
    &&& f.index@ == s.idx().bytes().subrange(0, s.idx().used() as int)
}

/// `files` hold what the files of `segs` are left with once they are closed.
pub open spec fn closed_files(segs: Seq<Segment>, files: Seq<SegmentFiles>) -> bool {
    &&& files.len() == segs.len()
    &&& forall|k: int| 0 <= k < segs.len() ==> closed_file(#[trigger] segs[k], files[k])
}

/// Base offset, next offset and store size of each segment: all that decides
/// where appends go and when segments roll over.
pub open spec fn shape(segs: Seq<Segment>) -> Seq<(u64, u64, nat)> {
    segs.map_values(|s: Segment| (s.base(), s.next(), s.store_view().len()))
}

/// Whether a segment spanning `[base, next)` with a store of `store_len`
/// bytes is maxed once it takes a record whose value is `len` bytes long.
pub open spec fn rolls_over_at(c: Config, base: u64, next: u64, store_len: nat, len: nat) -> bool {
    ||| store_len + 8 + record_len(next, len) >= c.max_store_bytes_per_segment
    ||| (next - base) + 1 >= c.max_index_bytes_per_segment / 12
}

/// The shape of a chain after an append of a `len`-byte value to its last
/// segment: that segment grows by one entry, and a new empty segment follows
/// it where it is then maxed.
pub open spec fn shape_after_append(sh: Seq<(u64, u64, nat)>, c: Config, len: nat) -> Seq<
    (u64, u64, nat),
> {
    let (b, n, sl) = sh.last();
    let grown = sh.drop_last().push((b, (n + 1) as u64, sl + 8 + record_len(n, len)));
    if rolls_over_at(c, b, n, sl, len) {
        grown.push(((n + 1) as u64, (n + 1) as u64, 0nat))
    } else {
        grown
    }
}

/// A commit log: segments ordered by base offset, the last one active.
pub struct Log {
    directory: String,
    config: Config,
    active_segment: usize,
    segments: Vec<Segment>,
}

impl Log {
    pub closed spec fn segs(&self) -> Seq<Segment> {
        self.segments@
    }

    pub closed spec fn cfg(&self) -> Config {
        self.config
    }

    pub closed spec fn dir(&self) -> Seq<char> {
        self.directory@
    }

    pub closed spec fn active_index(&self) -> int {
        self.active_segment as int
    }

    pub open spec fn active(&self) -> Segment {
        self.segs().last()
    }

    pub open spec fn lowest(&self) -> u64 {
        self.segs()[0].base()
    }

    pub open spec fn highest(&self) -> u64 {
        self.active().next()
    }

    pub open spec fn wf(&self) -> bool {
        &&& self.segs().len() >= 1
        &&& self.active_index() == self.segs().len() - 1
        &&& self.cfg().max_index_bytes_per_segment <= usize::MAX
        &&& all_wf(self.segs(), self.cfg())
        &&& ordered(self.segs())
    }

    /// No gaps: each segment starts where the one before it ends.
    pub open spec fn contiguous(&self) -> bool {
        gap_free(self.segs())
    }

    /// Some segment's range `[base_offset, next_offset)` holds `offset`.
    pub open spec fn contains(&self, offset: u64) -> bool {
        exists|k: int|
            0 <= k < self.segs().len() && (#[trigger] self.segs()[k]).base() <= offset
                < self.segs()[k].next()
    }

    /// The log holds the values `vals`, `vals[i]` being the value at offset
    /// `lowest + i` wherever a segment covers that offset.
    pub open spec fn holds(&self, vals: Seq<Seq<u8>>) -> bool {
        chain_holds(self.segs(), vals)
    }

    /// Whether an append of `value` rolls the active segment over.
    pub open spec fn rolls_over(&self, value: Seq<u8>) -> bool {
        let a = self.active();
        rolls_over_at(self.cfg(), a.base(), a.next(), a.store_view().len(), value.len())
    }

    /// The log was opened with `config` over the segment files `files`.
    pub open spec fn recovered_from(&self, config: Config, files: Seq<SegmentFiles>) -> bool {
        &&& self.wf()
        &&& self.cfg() == config
        &&& self.segs().len() == files.len()
        &&& forall|k: int|
            0 <= k < files.len() ==> (#[trigger] self.segs()[k]).opened_from(
                files[k].base_offset,
                segment_config(config),
                files[k].store@,
                files[k].index@,
            )
    }
}


impl Log {
    fn segment_config(config: &Config) -> (r: segment::Config)
        ensures
            r == segment_config(*config),
    {
        segment::Config {
            max_index_bytes: config.max_index_bytes_per_segment,
            max_store_bytes: config.max_store_bytes_per_segment,
            initial_offset: 0,
        }
    }

    /// Reopens each pair of segment files, checking that they chain.
    #[verifier::rlimit(80)]
    fn open_segments(config: &Config, files: Vec<SegmentFiles>) -> (r: Result<
        Vec<Segment>,
        CommitLogError,
    >)
        requires
            config.max_index_bytes_per_segment <= usize::MAX,
        ensures
            recovery_ok(*config, files@) ==> (r matches Ok(segs) && segs@.len() == files@.len()
                && forall|k: int|
                0 <= k < files@.len() ==> (#[trigger] segs@[k]).opened_from(
                    files@[k].base_offset,
                    segment_config(*config),
                    files@[k].store@,
                    files@[k].index@,
                )),
            !recovery_ok(*config, files@) ==> r == Err::<Vec<Segment>, CommitLogError>(
                CommitLogError::CorruptDirectory,
            ),
    {
        let seg_config = Self::segment_config(config);
        let ghost all = files@;
        let n = files.len();
        let mut rest = files;
        let mut segments: Vec<Segment> = Vec::new();
        let mut i: usize = 0;
        while i < n
            invariant
                all == files@,
                n == all.len(),
                i <= n,
                rest@ == all.subrange(i as int, n as int),
                segments@.len() == i,
                seg_config == segment_config(*config),
                config.max_index_bytes_per_segment <= usize::MAX,
                forall|k: int|
                    0 <= k < i ==> (#[trigger] segments@[k]).opened_from(
                        all[k].base_offset,
                        seg_config,
                        all[k].store@,
                        all[k].index@,
                    ),
                forall|k: int|
                    0 <= k < i ==> recoverable(
                        (#[trigger] all[k]).base_offset,
                        config.max_index_bytes_per_segment,
                        all[k].index@,
                    ),
                forall|k: int|
                    0 <= k < i - 1 ==> {
                        &&& (#[trigger] all[k]).base_offset + recovered_entries(
                            all[k].index@,
                            config.max_index_bytes_per_segment,
                        ).len() == all[k + 1].base_offset
                        &&& all[k].base_offset < all[k + 1].base_offset
                    },
            decreases n - i,
        {
            let f = rest.remove(0);
            assert(f == all[i as int]);
            let base = f.base_offset;
            let seg = match Segment::new(base, seg_config, f.store, f.index) {
                Ok(seg) => seg,
                Err(e) => {
                    return Err(e);
                },
            };
            if i > 0 {
                let prev = &segments[i - 1];
                if prev.next_offset() != base || prev.base_offset() >= base {
                    assert(!recovery_ok(*config, all)) by {
                        let k = i - 1;
                        assert(segments@[k].opened_from(
                            all[k].base_offset,
                            seg_config,
                            all[k].store@,
                            all[k].index@,
                        ));
                    }
                    return Err(CommitLogError::CorruptDirectory);
                }
            }
            segments.push(seg);
            i = i + 1;
        }
        Ok(segments)
    }

    /// Opens the log kept in `directory` with `config`. `files` are the
    /// segment files found there, ordered by base offset.
    ///
    /// With no files, the log starts with one empty segment at
    /// `config.initial_offset`. Otherwise each file pair is reopened as a
    /// segment; where an index is not dense, or a segment does not start
    /// where the one before it ends, the open fails with `CorruptDirectory`.
    pub fn new(directory: String, config: Config, files: Vec<SegmentFiles>) -> (r: Result<
        Log,
        CommitLogError,
    >)
        requires
            config.max_index_bytes_per_segment <= usize::MAX,
        ensures
            files@.len() == 0 ==> (r matches Ok(log) && {
                &&& log.wf()
                &&& log.cfg() == config
                &&& log.segs().len() == 1
                &&& shape(log.segs()) == seq![(config.initial_offset, config.initial_offset, 0nat)]
                &&& log.lowest() == config.initial_offset
                &&& log.highest() == config.initial_offset
                &&& log.contiguous()
                &&& log.holds(Seq::empty())
            }),
            files@.len() > 0 && recovery_ok(config, files@) ==> (r matches Ok(log)
                && log.recovered_from(config, files@) && log.contiguous()),
            files@.len() > 0 && !recovery_ok(config, files@) ==> r == Err::<Log, CommitLogError>(
                CommitLogError::CorruptDirectory,
            ),
    {
        let ghost all = files@;
        let n = files.len();
        let mut segments = match Self::open_segments(&config, files) {
            Ok(segments) => segments,
            Err(e) => {
                return Err(e);
            },
        };
        if n == 0 {
            let seg_config = Self::segment_config(&config);
            proof {
                lemma_empty_index_recoverable(
                    config.initial_offset,
                    config.max_index_bytes_per_segment,
                );
            }
            let first = match Segment::new(
                config.initial_offset,
                seg_config,
                Vec::new(),
                Vec::new(),
            ) {
                Ok(seg) => seg,
                Err(e) => {
                    return Err(e);
                },
            };
            segments.push(first);
        }
        let active_segment = segments.len() - 1;
        let log = Log { directory, config, active_segment, segments };
        proof {
            if n == 0 {
                assert(log.segs()[0].entry_count() == 0);
                assert(log.segs()[0].store_view() =~= Seq::<u8>::empty());
                assert(shape(log.segs()) =~= seq![(config.initial_offset, config.initial_offset, 0nat)]);
                assert(Seq::<Seq<u8>>::empty().subrange(0, 0) =~= Seq::<Seq<u8>>::empty());
            } else {
                lemma_recovered_ordered(log.segs(), config, all);
            }
        }
        Ok(log)
    }

    /// Appends a record holding `value` to the active segment and returns
    /// its offset.
    ///
    /// Where the active segment is maxed after the append, a new empty
    /// segment starting at the next offset becomes the active one. A failing
    /// append (the active segment's error) changes nothing.
    pub fn append(&mut self, value: Vec<u8>) -> (r: Result<u64, CommitLogError>)
        requires
            old(self).wf(),
            old(self).highest() < u64::MAX,
        ensures
            final(self).wf(),
            final(self).cfg() == old(self).cfg(),
            final(self).dir() == old(self).dir(),
            final(self).lowest() == old(self).lowest(),
            match old(self).active().append_error(value@) {
                Some(e) => r == Err::<u64, CommitLogError>(e) && final(self).segs() == old(
                    self,
                ).segs(),
                None => {
                    &&& r == Ok::<u64, CommitLogError>(old(self).highest())
                    &&& final(self).highest() == old(self).highest() + 1
                    &&& final(self).segs().len() == old(self).segs().len() + if old(
                        self,
                    ).rolls_over(value@) {
                        1int
                    } else {
                        0int
                    }
                    &&& shape(final(self).segs()) == shape_after_append(
                        shape(old(self).segs()),
                        old(self).cfg(),
                        value@.len(),
                    )
                    &&& old(self).contiguous() ==> final(self).contiguous()
                    &&& forall|vals: Seq<Seq<u8>>|
                        old(self).holds(vals) ==> #[trigger] final(self).holds(vals.push(value@))
                },
            },
    {
        let ghost v = value@;
        let ghost before = self.segments@;
        let mut seg = match self.segments.pop() {
            Some(seg) => seg,
            None => {
                return Err(CommitLogError::IndexFull);
            },
        };
        assert(seg == before.last());
        assert(seg.wf());
        let r = seg.append(value);
        let offset = match r {
            Ok(offset) => offset,
            Err(e) => {
                self.segments.push(seg);
                assert(self.segments@ =~= before);
                return Err(e);
            },
        };
        let maxed = seg.is_maxed();
        self.segments.push(seg);
        proof {
            lemma_append_to_last(before, self.segments@, self.config, v);
            lemma_record_len(offset, v);
            assert(shape(self.segments@) =~= shape(before).drop_last().push(
                (
                    seg.base(),
                    (offset + 1) as u64,
                    before.last().store_view().len() + 8 + record_len(offset, v.len()),
                ),
            ));
        }
        if maxed {
            let seg_config = Self::segment_config(&self.config);
            proof {
                lemma_empty_index_recoverable((offset + 1) as u64, self.config.max_index_bytes_per_segment);
            }
            let fresh = match Segment::new(offset + 1, seg_config, Vec::new(), Vec::new()) {
                Ok(fresh) => fresh,
                Err(e) => {
                    return Err(e);
                },
            };
            let ghost mid = self.segments@;
            self.segments.push(fresh);
            proof {
                assert(fresh.store_view() =~= Seq::<u8>::empty());
                assert(shape(self.segments@) =~= shape(mid).push(
                    ((offset + 1) as u64, (offset + 1) as u64, 0nat),
                ));
                lemma_push_empty(mid, fresh, self.config);
                assert forall|vals: Seq<Seq<u8>>| chain_holds(mid, vals) implies #[trigger] chain_holds(
                    self.segments@,
                    vals,
                ) by {
                    assert(vals + Seq::<Seq<u8>>::empty() =~= vals);
                    assert(chain_holds(mid.push(fresh), vals + Seq::<Seq<u8>>::empty()));
                }
            }
        }
        self.active_segment = self.segments.len() - 1;
        Ok(offset)
    }

    /// Removes the oldest segments: those before the last segment whose next
    /// offset is at most `lowest + 1`, which itself is kept. Returns the base
    /// offsets of the removed segments, whose files are to be deleted.
    pub fn truncate(&mut self, lowest: u64) -> (r: Vec<u64>)
        requires
            old(self).wf(),
        ensures
            final(self).wf(),
            final(self).cfg() == old(self).cfg(),
            final(self).dir() == old(self).dir(),
            ({
                let k = cut_point(old(self).segs(), lowest);
                &&& 0 <= k < old(self).segs().len()
                &&& final(self).segs() == old(self).segs().subrange(k, old(self).segs().len() as int)
                &&& r@ == old(self).segs().subrange(0, k).map_values(|s: Segment| s.base())
            }),
            final(self).highest() == old(self).highest(),
            old(self).contiguous() ==> final(self).contiguous(),
            forall|vals: Seq<Seq<u8>>|
                old(self).holds(vals) ==> #[trigger] final(self).holds(
                    vals.subrange(final(self).lowest() - old(self).lowest(), vals.len() as int),
                ),
    {
        let ghost before = self.segments@;
        let n = self.segments.len();
        let mut end_index: usize = 0;
        let mut i: usize = 0;
        while i < n
            invariant
                self.segments@ == before,
                n == before.len(),
                i <= n,
                end_index == cut_point(before.subrange(0, i as int), lowest),
                end_index <= i,
                i > 0 ==> end_index < i,
            decreases n - i,
        {
            let next = self.segments[i].next_offset();
            assert(before.subrange(0, i + 1).drop_last() =~= before.subrange(0, i as int));
            if next == 0 || next - 1 <= lowest {
                end_index = i;
            }
            i = i + 1;
        }
        assert(before.subrange(0, n as int) =~= before);
        let mut removed = self.segments.split_off(end_index);
        std::mem::swap(&mut self.segments, &mut removed);
        self.active_segment = self.segments.len() - 1;
        let mut bases: Vec<u64> = Vec::new();
        let mut j: usize = 0;
        while j < removed.len()
            invariant
                removed@ == before.subrange(0, end_index as int),
                j <= removed@.len(),
                bases@ == removed@.subrange(0, j as int).map_values(|s: Segment| s.base()),
            decreases removed@.len() - j,
        {
            bases.push(removed[j].base_offset());
            assert(removed@.subrange(0, j + 1) =~= removed@.subrange(0, j as int).push(removed@[j as int]));
            assert(bases@ =~= removed@.subrange(0, j + 1).map_values(|s: Segment| s.base()));
            j = j + 1;
        }
        assert(removed@.subrange(0, j as int) =~= removed@);
        proof {
            lemma_suffix(before, self.config, end_index as int);
        }
        bases
    }

    /// Makes a new, empty segment starting at `offset` the active one.
    ///
    /// Fails with `OffsetOutOfBounds`, changing nothing, where `offset` is
    /// below the highest offset or not above the active segment's base
    /// offset, so that segments would overlap or share a base offset.
    pub fn new_segment(&mut self, offset: u64) -> (r: Result<(), CommitLogError>)
        requires
            old(self).wf(),
        ensures
            final(self).wf(),
            final(self).cfg() == old(self).cfg(),
            final(self).dir() == old(self).dir(),
            offset >= old(self).highest() && offset > old(self).active().base() ==> {
                &&& r == Ok::<(), CommitLogError>(())
                &&& final(self).segs().drop_last() == old(self).segs()
                &&& final(self).active().base() == offset
                &&& final(self).active().entry_count() == 0
                &&& final(self).lowest() == old(self).lowest()
                &&& final(self).highest() == offset
                &&& (old(self).contiguous() && offset == old(self).highest()) ==> final(self).contiguous()
                &&& forall|vals: Seq<Seq<u8>>, gap: Seq<Seq<u8>>|
                    old(self).holds(vals) && gap.len() == offset - old(self).highest()
                        ==> #[trigger] final(self).holds(vals + gap)
            },
            !(offset >= old(self).highest() && offset > old(self).active().base()) ==> {
                &&& r == Err::<(), CommitLogError>(CommitLogError::OffsetOutOfBounds(offset))
                &&& final(self).segs() == old(self).segs()
            },
    {
        let n = self.segments.len();
        let active = &self.segments[n - 1];
        if offset < active.next_offset() || offset <= active.base_offset() {
            return Err(CommitLogError::OffsetOutOfBounds(offset));
        }
        let seg_config = Self::segment_config(&self.config);
        proof {
            lemma_empty_index_recoverable(offset, self.config.max_index_bytes_per_segment);
        }
        let fresh = match Segment::new(offset, seg_config, Vec::new(), Vec::new()) {
            Ok(fresh) => fresh,
            Err(e) => {
                return Err(e);
            },
        };
        let ghost before = self.segments@;
        self.segments.push(fresh);
        self.active_segment = self.segments.len() - 1;
        proof {
            lemma_push_empty(before, fresh, self.config);
            assert(self.segments@.drop_last() =~= before);
        }
        Ok(())
    }

    /// Closes every segment in order, handing back the contents their files
    /// are left with.
    pub fn close(self) -> (r: Vec<SegmentFiles>)
        requires
            self.wf(),
        ensures
            closed_files(self.segs(), r@),
    {
        let ghost segs = self.segments@;
        let mut rest = self.segments;
        let n = rest.len();
        let mut files: Vec<SegmentFiles> = Vec::new();
        let mut i: usize = 0;
        while i < n
            invariant
                n == segs.len(),
                i <= n,
                rest@ == segs.subrange(i as int, n as int),
                files@.len() == i,
                forall|k: int| 0 <= k < n ==> (#[trigger] segs[k]).wf(),
                forall|k: int| 0 <= k < i ==> closed_file(#[trigger] segs[k], files@[k]),
            decreases n - i,
        {
            let seg = rest.remove(0);
            assert(seg == segs[i as int]);
            files.push(seg.close());
            i = i + 1;
        }
        files
    }

    /// Returns the base offset of the first segment.
    pub fn lowest_offset(&self) -> (r: u64)
        requires
            self.wf(),
        ensures
            r == self.lowest(),
    {
        self.segments[0].base_offset()
    }

    /// Returns the next offset of the last segment: the offset the next
    /// append will be given.
    pub fn highest_offset(&self) -> (r: u64)
        requires
            self.wf(),
        ensures
            r == self.highest(),
    {
        self.segments[self.segments.len() - 1].next_offset()
    }

    /// The segments, oldest first.
    pub fn segments(&self) -> (r: &Vec<Segment>)
        ensures
            r@ == self.segs(),
    {
        &self.segments
    }

    /// The log's settings.
    pub fn config(&self) -> (r: Config)
        ensures
            r == self.cfg(),
    {
        self.config
    }

    /// The directory the log is kept in.
    pub fn directory(&self) -> (r: &String)
        ensures
            r@ == self.dir(),
    {
        &self.directory
    }

    /// Reads the record at `offset`.
    ///
    /// Fails with `OffsetOutOfBounds` where no segment's range holds the
    /// offset. A log that holds values `vals` returns
    /// `{offset, vals[offset - lowest_offset]}` for every offset it holds;
    /// one reopened over damaged files may fail there with `IoFailure` or
    /// `EncodingFailure`.
    pub fn read(&self, offset: u64) -> (r: Result<Record, CommitLogError>)
        requires
            self.wf(),
        ensures
            !self.contains(offset) ==> r == Err::<Record, CommitLogError>(
                CommitLogError::OffsetOutOfBounds(offset),
            ),
            self.contains(offset) ==> forall|vals: Seq<Seq<u8>>|
                #[trigger] self.holds(vals) ==> (r matches Ok(rec) && rec.offset == offset
                    && rec.value@ == vals[offset - self.lowest()]),
            self.contains(offset) ==> (r is Ok || r == Err::<Record, CommitLogError>(
                CommitLogError::IoFailure,
            ) || r == Err::<Record, CommitLogError>(CommitLogError::EncodingFailure)),
    {
        let n = self.segments.len();
        let mut i: usize = 0;
        while i < n
            invariant
                self.wf(),
                n == self.segs().len(),
                i <= n,
                forall|j: int|
                    0 <= j < i ==> !((#[trigger] self.segs()[j]).base() <= offset
                        < self.segs()[j].next()),
            decreases n - i,
        {
            let seg = &self.segments[i];
            if seg.base_offset() <= offset && offset < seg.next_offset() {
                let r = seg.read(offset);
                proof {
                    assert forall|vals: Seq<Seq<u8>>| #[trigger] self.holds(vals) implies (r matches Ok(
                        rec,
                    ) && rec.offset == offset && rec.value@ == vals[offset - self.lowest()]) by {
                        let k = i as int;
                        let lo = self.lowest();
                        if k > 0 {
                            assert(self.segs()[0].next() <= self.segs()[k].base());
                        }
                        let sub = vals.subrange(seg.base() - lo, seg.next() - lo);
                        assert(seg.holds(sub));
                        assert(sub[offset - seg.base()] == vals[offset - lo]);
                    }
                }
                return r;
            }
            i = i + 1;
        }
        Err(CommitLogError::OffsetOutOfBounds(offset))
    }
}

/// Segments reopened from files that pass `recovery_ok` form an ordered,
/// gap-free chain.
proof fn lemma_recovered_ordered(segs: Seq<Segment>, config: Config, files: Seq<SegmentFiles>)
    requires
        recovery_ok(config, files),
        segs.len() == files.len(),
        forall|k: int|
            0 <= k < files.len() ==> (#[trigger] segs[k]).opened_from(
                files[k].base_offset,
                segment_config(config),
                files[k].store@,
                files[k].index@,
            ),
    ensures
        forall|k: int| 0 <= k < segs.len() - 1 ==> (#[trigger] segs[k]).next() == segs[k + 1].base(),
        forall|j: int, k: int|
            0 <= j < k < segs.len() ==> (#[trigger] segs[j]).next() <= (#[trigger] segs[k]).base()
                && segs[j].base() < segs[k].base(),
{
    assert forall|k: int| 0 <= k < segs.len() - 1 implies (#[trigger] segs[k]).next() == segs[k
        + 1].base() && segs[k].base() < segs[k + 1].base() by {
        assert(segs[k].opened_from(
            files[k].base_offset,
            segment_config(config),
            files[k].store@,
            files[k].index@,
        ));
        assert(segs[k + 1].opened_from(
            files[k + 1].base_offset,
            segment_config(config),
            files[k + 1].store@,
            files[k + 1].index@,
        ));
        assert(files[k].base_offset < files[k + 1].base_offset);
    }
    assert forall|j: int, k: int| 0 <= j < k < segs.len() implies (#[trigger] segs[j]).next() <= (
    #[trigger] segs[k]).base() && segs[j].base() < segs[k].base() by {
        lemma_chain_ordered(segs, j, k);
    }
}

/// Replacing the last segment by the result of a successful append to it
/// keeps the chain in order and holding its values, with `v` added.
proof fn lemma_append_to_last(before: Seq<Segment>, after: Seq<Segment>, c: Config, v: Seq<u8>)
    requires
        before.len() >= 1,
        after.len() == before.len(),
        all_wf(before, c),
        ordered(before),
        forall|k: int| 0 <= k < before.len() - 1 ==> after[k] == before[k],
        ({
            let a = before.last();
            let b = after.last();
            &&& b.wf()
            &&& b.base() == a.base()
            &&& b.cfg() == a.cfg()
            &&& b.next() == a.next() + 1
            &&& b.store_view() == a.store_view() + store_entry(record_bytes(a.next(), v))
            &&& forall|vals: Seq<Seq<u8>>| a.holds(vals) ==> #[trigger] b.holds(vals.push(v))
        }),
    ensures
        all_wf(after, c),
        ordered(after),
        after[0].base() == before[0].base(),
        after.last().next() == before.last().next() + 1,
        gap_free(before) ==> gap_free(after),
        forall|vals: Seq<Seq<u8>>|
            chain_holds(before, vals) ==> #[trigger] chain_holds(after, vals.push(v)),
{
    let m = before.len() - 1;
    assert forall|j: int, k: int| 0 <= j < k < after.len() implies (#[trigger] after[j]).next() <= (
    #[trigger] after[k]).base() && after[j].base() < after[k].base() by {
        assert(before[j].next() <= before[k].base());
    }
    if m == 0 {
        assert(after[0] == after.last());
    }
    assert forall|vals: Seq<Seq<u8>>| chain_holds(before, vals) implies #[trigger] chain_holds(
        after,
        vals.push(v),
    ) by {
        let lo = before[0].base();
        let nv = vals.push(v);
        assert forall|k: int| 0 <= k < after.len() implies (#[trigger] after[k]).holds(
            nv.subrange(after[k].base() - lo, after[k].next() - lo),
        ) by {
            if k < m {
                assert(before[k].next() <= before[m].base());
                assert(before[m].base() <= before[m].next());
                assert(nv.subrange(after[k].base() - lo, after[k].next() - lo) =~= vals.subrange(
                    before[k].base() - lo,
                    before[k].next() - lo,
                ));
                assert(before[k].holds(vals.subrange(before[k].base() - lo, before[k].next() - lo)));
            } else {
                if m > 0 {
                    assert(before[0].next() <= before[m].base());
                }
                let sub = vals.subrange(before[m].base() - lo, before[m].next() - lo);
                assert(before[m].holds(sub));
                assert(nv.subrange(after[k].base() - lo, after[k].next() - lo) =~= sub.push(v));
            }
        }
    }
}

/// Pushing an empty segment that starts at or after the end of the chain
/// keeps it in order, gap-free if it was and the new one starts right at
/// the end, and holding its values followed by any values for the gap.
proof fn lemma_push_empty(segs: Seq<Segment>, fresh: Segment, c: Config)
    requires
        segs.len() >= 1,
        all_wf(segs, c),
        ordered(segs),
        fresh.wf(),
        fresh.cfg() == segment_config(c),
        fresh.entry_count() == 0,
        fresh.base() >= segs.last().next(),
        segs.last().base() < fresh.base(),
    ensures
        all_wf(segs.push(fresh), c),
        ordered(segs.push(fresh)),
        segs.push(fresh)[0].base() == segs[0].base(),
        segs.push(fresh).last().next() == fresh.base(),
        gap_free(segs) && fresh.base() == segs.last().next() ==> gap_free(segs.push(fresh)),
        forall|vals: Seq<Seq<u8>>, gap: Seq<Seq<u8>>|
            chain_holds(segs, vals) && gap.len() == fresh.base() - segs.last().next()
                ==> #[trigger] chain_holds(segs.push(fresh), vals + gap),
{
    let after = segs.push(fresh);
    let m = segs.len() - 1;
    assert forall|j: int, k: int| 0 <= j < k < after.len() implies (#[trigger] after[j]).next() <= (
    #[trigger] after[k]).base() && after[j].base() < after[k].base() by {
        if k == after.len() - 1 && j < m {
            assert(segs[j].next() <= segs[m].base());
        }
    }
    assert forall|vals: Seq<Seq<u8>>, gap: Seq<Seq<u8>>|
        chain_holds(segs, vals) && gap.len() == fresh.base() - segs.last().next()
            implies #[trigger] chain_holds(after, vals + gap) by {
        let lo = segs[0].base();
        let nv = vals + gap;
        if m > 0 {
            assert(segs[0].next() <= segs[m].base());
        }
        assert forall|k: int| 0 <= k < after.len() implies (#[trigger] after[k]).holds(
            nv.subrange(after[k].base() - lo, after[k].next() - lo),
        ) by {
            if k == after.len() - 1 {
                assert(nv.subrange(after[k].base() - lo, after[k].next() - lo) =~= Seq::<
                    Seq<u8>,
                >::empty());
            } else {
                if k < m {
                    assert(segs[k].next() <= segs[m].base());
                }
                assert(nv.subrange(after[k].base() - lo, after[k].next() - lo) =~= vals.subrange(
                    segs[k].base() - lo,
                    segs[k].next() - lo,
                ));
                assert(segs[k].holds(vals.subrange(segs[k].base() - lo, segs[k].next() - lo)));
            }
        }
    }
}

/// Dropping the first `k` segments keeps the chain in order, gap-free if it
/// was, and holding the values from the new first segment on.
proof fn lemma_suffix(segs: Seq<Segment>, c: Config, k: int)
    requires
        0 <= k < segs.len(),
        all_wf(segs, c),
        ordered(segs),
    ensures
        all_wf(segs.subrange(k, segs.len() as int), c),
        ordered(segs.subrange(k, segs.len() as int)),
        gap_free(segs) ==> gap_free(segs.subrange(k, segs.len() as int)),
        forall|vals: Seq<Seq<u8>>|
            chain_holds(segs, vals) ==> #[trigger] chain_holds(
                segs.subrange(k, segs.len() as int),
                vals.subrange(segs[k].base() - segs[0].base(), vals.len() as int),
            ),
{
    let after = segs.subrange(k, segs.len() as int);
    assert forall|i: int, j: int| 0 <= i < j < after.len() implies (#[trigger] after[i]).next() <= (
    #[trigger] after[j]).base() && after[i].base() < after[j].base() by {
        assert(after[i] == segs[i + k]);
        assert(after[j] == segs[j + k]);
    }
    assert forall|i: int| 0 <= i < after.len() - 1 && gap_free(segs) implies (#[trigger] after[i]).next()
        == after[i + 1].base() by {
        assert(after[i] == segs[i + k]);
        assert(after[i + 1] == segs[i + 1 + k]);
    }
    assert forall|vals: Seq<Seq<u8>>| chain_holds(segs, vals) implies #[trigger] chain_holds(
        after,
        vals.subrange(segs[k].base() - segs[0].base(), vals.len() as int),
    ) by {
        let lo = segs[0].base();
        let lo2 = segs[k].base();
        let nv = vals.subrange(lo2 - lo, vals.len() as int);
        if k > 0 {
            assert(segs[0].next() <= segs[k].base());
        }
        assert(after.last() == segs.last());
        if k < segs.len() - 1 {
            assert(segs[k].next() <= segs.last().base());
        }
        assert forall|i: int| 0 <= i < after.len() implies (#[trigger] after[i]).holds(
            nv.subrange(after[i].base() - lo2, after[i].next() - lo2),
        ) by {
            let j = i + k;
            assert(after[i] == segs[j]);
            if j > k {
                assert(segs[k].next() <= segs[j].base());
            }
            if j < segs.len() - 1 {
                assert(segs[j].next() <= segs.last().base());
            }
            assert(nv.subrange(after[i].base() - lo2, after[i].next() - lo2) =~= vals.subrange(
                segs[j].base() - lo,
                segs[j].next() - lo,
            ));
            assert(segs[j].holds(vals.subrange(segs[j].base() - lo, segs[j].next() - lo)));
        }
    }
}

/// An empty index file can always be reopened.
proof fn lemma_empty_index_recoverable(base_offset: u64, max_index_bytes: u64)
    ensures
        recoverable(base_offset, max_index_bytes, Seq::empty()),
        recovered_entries(Seq::empty(), max_index_bytes).len() == 0,
{
}

/// In a chain where each segment starts where the one before ends, and above
/// its base, a segment ends before any later one starts.
proof fn lemma_chain_ordered(segs: Seq<Segment>, j: int, k: int)
    requires
        0 <= j < k < segs.len(),
        forall|m: int| 0 <= m < segs.len() ==> (#[trigger] segs[m]).wf(),
        forall|m: int|
            0 <= m < segs.len() - 1 ==> (#[trigger] segs[m]).next() == segs[m + 1].base()
                && segs[m].base() < segs[m + 1].base(),
    ensures
        segs[j].next() <= segs[k].base(),
        segs[j].base() < segs[k].base(),
    decreases k - j,
{
    if k > j + 1 {
        lemma_chain_ordered(segs, j, k - 1);
        assert(segs[k - 1].next() == segs[k].base());
    }
}

/// Where an append goes, whether it fails, and whether it rolls the active
/// segment over depend on the payload only through its length: two logs of
/// the same shape take payloads of equal length alike and keep equal shapes.
pub proof fn lemma_rollover_depends_on_lengths(a: Log, b: Log, va: Seq<u8>, vb: Seq<u8>)
    requires
        a.wf(),
        b.wf(),
        a.cfg() == b.cfg(),
        shape(a.segs()) == shape(b.segs()),
        va.len() == vb.len(),
    ensures
        a.active().append_error(va) == b.active().append_error(vb),
        a.rolls_over(va) == b.rolls_over(vb),
        shape_after_append(shape(a.segs()), a.cfg(), va.len()) == shape_after_append(
            shape(b.segs()),
            b.cfg(),
            vb.len(),
        ),
{
    let m = a.segs().len() - 1;
    assert(shape(a.segs()).len() == a.segs().len());
    assert(shape(b.segs()).len() == b.segs().len());
    let x = a.active();
    let y = b.active();
    assert(shape(a.segs())[m] == (x.base(), x.next(), x.store_view().len()));
    assert(shape(b.segs())[m] == (y.base(), y.next(), y.store_view().len()));
    assert(x.base() == y.base() && x.next() == y.next() && x.store_view().len() == y.store_view().len());
    assert(x.wf() && y.wf());
    assert(x.cfg() == y.cfg());
    vstd::arithmetic::div_mod::lemma_fundamental_div_mod(x.idx().used() as int, 12);
    vstd::arithmetic::div_mod::lemma_fundamental_div_mod(y.idx().used() as int, 12);
    lemma_record_len(x.next(), va);
    lemma_record_len(y.next(), vb);
}

proof fn lemma_covered(segs: Seq<Segment>, k: int, offset: u64)
    requires
        0 <= k < segs.len(),
        forall|m: int| 0 <= m < segs.len() ==> (#[trigger] segs[m]).wf(),
        gap_free(segs),
        segs[0].base() <= offset < segs[k].next(),
    ensures
        exists|j: int| 0 <= j <= k && (#[trigger] segs[j]).base() <= offset < segs[j].next(),
    decreases k,
{
    if offset < segs[k].base() {
        assert(k > 0);
        assert(segs[k - 1].next() == segs[k].base());
        lemma_covered(segs, k - 1, offset);
    } else {
        assert(segs[k].base() <= offset < segs[k].next());
    }
}

/// In a gap-free log every offset from `lowest_offset` up to
/// `highest_offset` lies in some segment. So in a log that holds `vals`,
/// such as one made by appending `vals` to a fresh log, `read(lowest + i)`
/// returns `{lowest + i, vals[i]}` for every `i` below `vals.len()`.
pub proof fn lemma_gap_free_log_reads_back(log: Log, vals: Seq<Seq<u8>>, i: int)
    requires
        log.wf(),
        log.contiguous(),
        log.holds(vals),
        0 <= i < vals.len(),
    ensures
        log.contains((log.lowest() + i) as u64),
        vals[i] == vals[(log.lowest() + i) as u64 - log.lowest()],
{
    let segs = log.segs();
    assert(segs[0].wf());
    lemma_covered(segs, segs.len() - 1, (log.lowest() + i) as u64);
}

/// No segment holds the highest offset, so reading it fails with
/// `OffsetOutOfBounds`.
pub proof fn lemma_highest_not_held(log: Log)
    requires
        log.wf(),
    ensures
        !log.contains(log.highest()),
{
    let segs = log.segs();
    let m = segs.len() - 1;
    assert forall|k: int| 0 <= k < segs.len() implies !((#[trigger] segs[k]).base() <= log.highest()
        < segs[k].next()) by {
        if k < m {
            assert(segs[k].next() <= segs[m].base());
            assert(segs[m].wf());
        }
    }
}

/// No segment holds an offset below the lowest one, so reading it fails
/// with `OffsetOutOfBounds`.
pub proof fn lemma_below_lowest_not_held(log: Log, offset: u64)
    requires
        log.wf(),
        offset < log.lowest(),
    ensures
        !log.contains(offset),
{
    let segs = log.segs();
    assert forall|k: int| 0 <= k < segs.len() implies !((#[trigger] segs[k]).base() <= offset
        < segs[k].next()) by {
        if k > 0 {
            assert(segs[0].base() < segs[k].base());
        }
    }
}

proof fn lemma_closed_files_recover(log: Log, files: Seq<SegmentFiles>)
    requires
        log.wf(),
        log.contiguous(),
        closed_files(log.segs(), files),
    ensures
        recovery_ok(log.cfg(), files),
        forall|k: int|
            0 <= k < files.len() ==> recovered_entries(
                (#[trigger] files[k]).index@,
                log.cfg().max_index_bytes_per_segment,
            ) == log.segs()[k].idx().entries(),
{
    let segs = log.segs();
    let c = log.cfg();
    assert forall|k: int| 0 <= k < files.len() implies {
        &&& recovered_entries((#[trigger] files[k]).index@, c.max_index_bytes_per_segment)
            == segs[k].idx().entries()
        &&& recoverable(files[k].base_offset, c.max_index_bytes_per_segment, files[k].index@)
    } by {
        assert(closed_file(segs[k], files[k]));
        assert(segs[k].wf() && segs[k].cfg() == segment_config(c));
        lemma_reopen_segment(segs[k]);
    }
    assert forall|k: int| 0 <= k < files.len() - 1 implies {
        &&& (#[trigger] files[k]).base_offset + recovered_entries(
            files[k].index@,
            c.max_index_bytes_per_segment,
        ).len() == files[k + 1].base_offset
        &&& files[k].base_offset < files[k + 1].base_offset
    } by {
        assert(closed_file(segs[k], files[k]));
        assert(closed_file(segs[k + 1], files[k + 1]));
        assert(segs[k].wf());
        assert(segs[k].next() == segs[k + 1].base());
        assert(segs[k].base() < segs[k + 1].base());
    }
}

proof fn lemma_segment_reopened(s: Segment, f: SegmentFiles, r: Segment, c: Config)
    requires
        s.wf(),
        s.cfg() == segment_config(c),
        closed_file(s, f),
        recovered_entries(f.index@, c.max_index_bytes_per_segment) == s.idx().entries(),
        r.opened_from(f.base_offset, segment_config(c), f.store@, f.index@),
    ensures
        r.base() == s.base(),
        r.next() == s.next(),
        forall|vals: Seq<Seq<u8>>| s.holds(vals) ==> #[trigger] r.holds(vals),
{
    assert(r.idx().entries().len() == r.entry_count());
    assert(s.idx().entries().len() == s.entry_count());
    assert forall|vals: Seq<Seq<u8>>| s.holds(vals) implies #[trigger] r.holds(vals) by {
        lemma_holds_transfer(s, r, vals);
    }
}

#[verifier::spinoff_prover]
proof fn lemma_reopened_matches(
    segs: Seq<Segment>,
    c: Config,
    vals: Seq<Seq<u8>>,
    files: Seq<SegmentFiles>,
    rs: Seq<Segment>,
)
    requires
        segs.len() >= 1,
        all_wf(segs, c),
        gap_free(segs),
        chain_holds(segs, vals),
        closed_files(segs, files),
        forall|k: int|
            0 <= k < files.len() ==> recovered_entries(
                (#[trigger] files[k]).index@,
                c.max_index_bytes_per_segment,
            ) == segs[k].idx().entries(),
        rs.len() == files.len(),
        forall|k: int|
            0 <= k < files.len() ==> (#[trigger] rs[k]).opened_from(
                files[k].base_offset,
                segment_config(c),
                files[k].store@,
                files[k].index@,
            ),
    ensures
        chain_holds(rs, vals),
        rs[0].base() == segs[0].base(),
        rs.last().next() == segs.last().next(),
        gap_free(rs),
{
    assert forall|k: int| 0 <= k < rs.len() implies {
        &&& (#[trigger] rs[k]).base() == segs[k].base()
        &&& rs[k].next() == segs[k].next()
        &&& forall|v: Seq<Seq<u8>>| segs[k].holds(v) ==> #[trigger] rs[k].holds(v)
    } by {
        assert(closed_file(segs[k], files[k]));
        assert(recovered_entries(files[k].index@, c.max_index_bytes_per_segment)
            == segs[k].idx().entries());
        lemma_segment_reopened(segs[k], files[k], rs[k], c);
    }
    let lo = segs[0].base();
    assert(rs[0].base() == segs[0].base());
    assert(rs[rs.len() - 1].next() == segs[segs.len() - 1].next());
    assert forall|k: int| 0 <= k < rs.len() implies (#[trigger] rs[k]).holds(
        vals.subrange(rs[k].base() - lo, rs[k].next() - lo),
    ) by {
        let sub = vals.subrange(segs[k].base() - lo, segs[k].next() - lo);
        assert(segs[k].holds(sub));
    }
    assert forall|k: int| 0 <= k < rs.len() - 1 implies (#[trigger] rs[k]).next() == rs[k
        + 1].base() by {
        assert(rs[k].next() == segs[k].next());
        assert(rs[k + 1].base() == segs[k + 1].base());
    }
}

/// Closing a log and reopening it over the files it leaves: the files pass
/// recovery, and the reopened log holds the same values over the same
/// offsets.
pub proof fn lemma_reopen_round_trip(
    log: Log,
    vals: Seq<Seq<u8>>,
    files: Seq<SegmentFiles>,
    reopened: Log,
)
    requires
        log.wf(),
        log.contiguous(),
        log.holds(vals),
        closed_files(log.segs(), files),
    ensures
        recovery_ok(log.cfg(), files),
        reopened.recovered_from(log.cfg(), files) ==> {
            &&& reopened.holds(vals)
            &&& reopened.lowest() == log.lowest()
            &&& reopened.highest() == log.highest()
            &&& reopened.contiguous()
        },
{
    lemma_closed_files_recover(log, files);
    if reopened.recovered_from(log.cfg(), files) {
        lemma_reopened_matches(log.segs(), log.cfg(), vals, files, reopened.segs());
    }
}

proof fn lemma_cut_point(segs: Seq<Segment>, t: u64)
    requires
        forall|m: int| 0 <= m < segs.len() ==> (#[trigger] segs[m]).wf(),
        ordered(segs),
    ensures
        segs.len() == 0 ==> cut_point(segs, t) == 0,
        segs.len() > 0 ==> 0 <= cut_point(segs, t) < segs.len(),
        forall|j: int|
            cut_point(segs, t) < j < segs.len() ==> (#[trigger] segs[j]).next() > t + 1,
        forall|j: int| 0 <= j < cut_point(segs, t) ==> (#[trigger] segs[j]).next() <= t + 1,
    decreases segs.len(),
{
    if segs.len() > 0 {
        let m = segs.len() - 1;
        if segs.last().next() <= t + 1 {
            assert forall|j: int| 0 <= j < m implies (#[trigger] segs[j]).next() <= t + 1 by {
                assert(segs[j].next() <= segs[m].base());
                assert(segs[m].wf());
            }
        } else {
            let d = segs.drop_last();
            assert forall|i: int, j: int| 0 <= i < j < d.len() implies (#[trigger] d[i]).next() <= (
            #[trigger] d[j]).base() && d[i].base() < d[j].base() by {
                assert(d[i] == segs[i] && d[j] == segs[j]);
            }
            lemma_cut_point(d, t);
            let k = cut_point(d, t);
            assert forall|j: int| k < j < segs.len() implies (#[trigger] segs[j]).next() > t + 1 by {
                if j < m {
                    assert(d[j] == segs[j]);
                }
            }
            assert forall|j: int| 0 <= j < k implies (#[trigger] segs[j]).next() <= t + 1 by {
                assert(d[j] == segs[j]);
            }
        }
    }
}

/// `truncate(t)` keeps a suffix of the segments, starting at index
/// `cut_point(segs, t)`: every segment it removes has a next offset of at
/// most `t + 1`, and every segment it keeps, but the first, has a next
/// offset above `t + 1`.
pub proof fn lemma_truncate_keeps_suffix(log: Log, t: u64)
    requires
        log.wf(),
    ensures
        0 <= cut_point(log.segs(), t) < log.segs().len(),
        forall|j: int|
            0 <= j < cut_point(log.segs(), t) ==> (#[trigger] log.segs()[j]).next() <= t + 1,
        forall|j: int|
            cut_point(log.segs(), t) < j < log.segs().len() ==> (#[trigger] log.segs()[j]).next()
                > t + 1,
{
    lemma_cut_point(log.segs(), t);
}

} // verus!
