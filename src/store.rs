//! The store: a file of length-prefixed entries written back to back.
//!
//! Each entry is the payload length as a big-endian `u64` followed by the
//! payload itself; there is no header, footer or padding.
use vstd::prelude::*;
use vstd::slice::{slice_subrange, slice_to_vec};

use crate::commit_log::CommitLogError;
use crate::endian::{lemma_u64_be_round_trip, push_u64_be, read_u64_be, u64_be_bytes, u64_from_be};

verus! {

/// Width of the length prefix of a store entry.
pub const LEN_WIDTH: u64 = 8;

/// Where an appended entry begins and how many bytes it took.
#[derive(Debug, Clone, Copy, PartialEq, Eq, Structural)]
pub struct AppendOutput {
    pub appended_at: u64,
    pub bytes_written: u64,
}

/// The bytes that store one payload: its length, then the payload.
pub open spec fn store_entry(payload: Seq<u8>) -> Seq<u8> {
    u64_be_bytes(payload.len() as u64) + payload
}

/// The payload of the entry that starts at `pos` of the store image `s`, if
/// the length prefix and the payload it announces both lie within `s`.
pub open spec fn entry_payload(s: Seq<u8>, pos: int) -> Option<Seq<u8>> {
    if 0 <= pos && pos + 8 <= s.len() {
        let len = u64_from_be(s.subrange(pos, pos + 8));
        if pos + 8 + len <= s.len() {
            Some(s.subrange(pos + 8, pos + 8 + len))
        } else {
            None
        }
    } else {
        None
    }
}

/// The file of a segment that holds the records themselves.
pub struct Store {
    buf: Vec<u8>,
}

impl View for Store {
    type V = Seq<u8>;

    /// The contents of the store file.
    closed spec fn view(&self) -> Seq<u8> {
        self.buf@
    }
}

impl Store {
    /// Wraps the current contents of a store file; its size is where the
    /// next entry will go.
    pub fn new(contents: Vec<u8>) -> (r: Store)
        ensures
            r@ == contents@,
    {
        Store { buf: contents }
    }

    /// Appends `[len][buffer]` and returns where the entry begins and its size.
    ///
    /// Fails with `IoFailure`, leaving the store as it was, where the file
    /// would outgrow a 64-bit size.
    pub fn append(&mut self, buffer: &[u8]) -> (r: Result<AppendOutput, CommitLogError>)
        ensures
            old(self)@.len() + LEN_WIDTH + buffer@.len() <= u64::MAX ==> {
                &&& r == Ok::<AppendOutput, CommitLogError>(
                    AppendOutput {
                        appended_at: old(self)@.len() as u64,
                        bytes_written: (LEN_WIDTH + buffer@.len()) as u64,
                    },
                )
                &&& final(self)@ == old(self)@ + store_entry(buffer@)
            },
            old(self)@.len() + LEN_WIDTH + buffer@.len() > u64::MAX ==> {
                &&& r == Err::<AppendOutput, CommitLogError>(CommitLogError::IoFailure)
                &&& *final(self) == *old(self)
            },
    {
        let size = self.buf.len() as u64;
        let len = buffer.len() as u64;
        if size > u64::MAX - LEN_WIDTH || len > u64::MAX - LEN_WIDTH - size {
            return Err(CommitLogError::IoFailure);
        }
        push_u64_be(&mut self.buf, len);
        self.buf.extend_from_slice(buffer);
        assert(self.buf@ =~= old(self)@ + store_entry(buffer@));
        Ok(AppendOutput { appended_at: size, bytes_written: LEN_WIDTH + len })
    }

    /// Returns the payload of the entry that begins at `position`.
    ///
    /// Fails with `IoFailure` where the file ends before the entry does.
    pub fn read(&self, position: u64) -> (r: Result<Vec<u8>, CommitLogError>)
        ensures
            match entry_payload(self@, position as int) {
                Some(p) => r matches Ok(v) && v@ == p,
                None => r == Err::<Vec<u8>, CommitLogError>(CommitLogError::IoFailure),
            },
    {
        let n = self.buf.len();
        if position > n as u64 || (n as u64) - position < LEN_WIDTH {
            return Err(CommitLogError::IoFailure);
        }
        let p = position as usize;
        let len = read_u64_be(self.buf.as_slice(), p);
        if len > (n - p - 8) as u64 {
            return Err(CommitLogError::IoFailure);
        }
        let start = p + 8;
        let end = start + len as usize;
        Ok(slice_to_vec(slice_subrange(self.buf.as_slice(), start, end)))
    }

    /// Fills `buffer` with the payload bytes of the entry that begins at
    /// `position`, skipping its length prefix.
    ///
    /// Fails with `IoFailure`, leaving `buffer` as it was, where the file
    /// ends before `buffer` is full.
    pub fn read_at(&self, buffer: &mut [u8], position: u64) -> (r: Result<(), CommitLogError>)
        ensures
            position + LEN_WIDTH + old(buffer)@.len() <= self@.len() ==> {
                &&& r is Ok
                &&& final(buffer)@ == self@.subrange(
                    position + LEN_WIDTH,
                    position + LEN_WIDTH + old(buffer)@.len(),
                )
            },
            position + LEN_WIDTH + old(buffer)@.len() > self@.len() ==> {
                &&& r == Err::<(), CommitLogError>(CommitLogError::IoFailure)
                &&& final(buffer)@ == old(buffer)@
            },
    {
        let n = self.buf.len();
        let k = buffer.len();
        if position > n as u64 || (n as u64) - position < LEN_WIDTH || ((n as u64) - position
            - LEN_WIDTH) < k as u64 {
            return Err(CommitLogError::IoFailure);
        }
        let start = position as usize + 8;
        let mut i: usize = 0;
        while i < k
            invariant
                0 <= i <= k,
                k == buffer@.len(),
                start + k <= n,
                n == self.buf@.len(),
                start == position + LEN_WIDTH,
                forall|j: int| 0 <= j < i ==> buffer@[j] == self.buf@[start + j],
            decreases k - i,
        {
            buffer[i] = self.buf[start + i];
            i = i + 1;
        }
        assert(buffer@ =~= self@.subrange(start as int, start + k));
        Ok(())
    }

    /// The size of the store file: the sum of its entries' sizes.
    pub fn size(&self) -> (r: u64)
        ensures
            r == self@.len(),
    {
        self.buf.len() as u64
    }

    /// The contents of the store file.
    pub fn contents(&self) -> (r: &[u8])
        ensures
            r@ == self@,
    {
        self.buf.as_slice()
    }

    /// Ends the store, handing back the file contents to be written out.
    pub fn close(self) -> (r: Vec<u8>)
        ensures
            r@ == self@,
    {
        self.buf
    }
}

/// Reading where an entry was appended gives back its payload.
pub proof fn lemma_read_after_append(before: Seq<u8>, payload: Seq<u8>)
    requires
        before.len() + LEN_WIDTH + payload.len() <= u64::MAX,
    ensures
        entry_payload(before + store_entry(payload), before.len() as int) == Some(payload),
{
    let s = before + store_entry(payload);
    let pos = before.len() as int;
    lemma_u64_be_round_trip(payload.len() as u64);
    assert(s.subrange(pos, pos + 8) =~= u64_be_bytes(payload.len() as u64));
    assert(s.subrange(pos + 8, pos + 8 + payload.len()) =~= payload);
}

/// Appending to a store leaves every entry already in it readable as before.
pub proof fn lemma_entry_payload_extend(s: Seq<u8>, t: Seq<u8>, pos: int)
    requires
        entry_payload(s, pos) is Some,
    ensures
        entry_payload(s + t, pos) == entry_payload(s, pos),
{
    let u = s + t;
    assert(u.subrange(pos, pos + 8) =~= s.subrange(pos, pos + 8));
    let len = u64_from_be(s.subrange(pos, pos + 8));
    assert(u.subrange(pos + 8, pos + 8 + len) =~= s.subrange(pos + 8, pos + 8 + len));
}

} // verus!
