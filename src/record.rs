//! Records and their wire form: a protobuf message with the value as field 1
//! (length-delimited) and the offset as field 2 (varint), fields holding
//! their default value left out.
use vstd::prelude::*;
use vstd::slice::{slice_subrange, slice_to_vec};

use crate::commit_log::CommitLogError;

verus! {

/// Key of the value field: field number 1, wire type 2.
pub const VALUE_KEY: u8 = 0x0a;

/// Key of the offset field: field number 2, wire type 0.
pub const OFFSET_KEY: u8 = 0x10;

/// A record of the log: the offset it was given and its payload.
#[derive(Debug, PartialEq, Eq)]
pub struct Record {
    pub offset: u64,
    pub value: Vec<u8>,
}

/// The LEB128 form of `v`: seven bits per byte, least significant group
/// first, the high bit set on every byte but the last.
pub open spec fn varint(v: u64) -> Seq<u8>
    decreases v,
{
    if v < 128 {
        seq![v as u8]
    } else {
        seq![(v % 128 + 128) as u8] + varint(v / 128)
    }
}

/// The encoded form of the record `{offset, value}`.
pub open spec fn record_bytes(offset: u64, value: Seq<u8>) -> Seq<u8> {
    value_field(value) + offset_field(offset)
}

pub open spec fn value_field(value: Seq<u8>) -> Seq<u8> {
    if value.len() == 0 {
        seq![]
    } else {
        seq![VALUE_KEY] + varint(value.len() as u64) + value
    }
}

pub open spec fn offset_field(offset: u64) -> Seq<u8> {
    if offset == 0 {
        seq![]
    } else {
        seq![OFFSET_KEY] + varint(offset)
    }
}

/// Whether `p` is the start of `s`.
pub open spec fn starts_with(s: Seq<u8>, p: Seq<u8>) -> bool {
    p.len() <= s.len() && s.subrange(0, p.len() as int) == p
}

/// Largest payload a record can carry: the encoded record must stay well
/// below `isize::MAX` bytes.
pub open spec fn value_len_fits(len: nat) -> bool {
    len + 32 <= isize::MAX
}

pub open spec fn pow128(k: nat) -> nat
    decreases k,
{
    if k == 0 {
        1
    } else {
        128 * pow128((k - 1) as nat)
    }
}

proof fn lemma_varint_len_bound(v: u64, k: nat)
    requires
        k >= 1,
        v < pow128(k),
    ensures
        1 <= varint(v).len() <= k,
    decreases v,
{
    if v >= 128 {
        if k == 1 {
            assert(pow128(1) == 128 * pow128(0));
        } else {
            let p = pow128((k - 1) as nat);
            assert(v / 128 < p) by (nonlinear_arith)
                requires
                    v < 128 * p,
            ;
            lemma_varint_len_bound(v / 128, (k - 1) as nat);
        }
    }
}

/// A varint is between one and ten bytes long.
pub proof fn lemma_varint_len(v: u64)
    ensures
        1 <= varint(v).len() <= 10,
{
    reveal_with_fuel(pow128, 11);
    assert(pow128(10) == 1180591620717411303424nat);
    lemma_varint_len_bound(v, 10);
}

/// Relies on prost::encoding::encode_varint: appends the LEB128 form of `value`
/// to the buffer (ten bytes at most, which a `Vec` under `isize::MAX` bytes can take).
#[verifier::external_body]
fn put_varint(value: u64, buf: &mut Vec<u8>)
    requires
        old(buf)@.len() + 10 <= isize::MAX,
    ensures
        final(buf)@ == old(buf)@ + varint(value),
{
    prost::encoding::encode_varint(value, buf)
}

/// Relies on prost::encoding::decode_varint: reads one LEB128 integer from the
/// front of `bytes`. Returns it with the number of bytes left after it; where
/// `bytes` starts with the LEB128 form of some `v`, that is what it reads.
#[verifier::external_body]
fn take_varint(bytes: &[u8]) -> (r: Option<(u64, usize)>)
    ensures
        r matches Some((_, left)) ==> left < bytes@.len(),
        forall|v: u64|
            #![trigger varint(v)]
            starts_with(bytes@, varint(v)) ==> r == Some((v, (bytes@.len() - varint(v).len()) as usize)),
{
    let mut rest = bytes;
    match prost::encoding::decode_varint(&mut rest) {
        Ok(v) => Some((v, rest.len())),
        Err(_) => None,
    }
}

/// Encodes the record `{offset, value}`.
pub fn encode_record(offset: u64, value: &[u8]) -> (r: Vec<u8>)
    requires
        value_len_fits(value@.len()),
    ensures
        r@ == record_bytes(offset, value@),
{
    let mut buf: Vec<u8> = Vec::new();
    if value.len() > 0 {
        buf.push(VALUE_KEY);
        put_varint(value.len() as u64, &mut buf);
        buf.extend_from_slice(value);
    }
    assert(buf@ =~= value_field(value@));
    proof {
        lemma_varint_len(value.len() as u64);
    }
    if offset != 0 {
        buf.push(OFFSET_KEY);
        put_varint(offset, &mut buf);
    }
    assert(buf@ =~= record_bytes(offset, value@));
    buf
}


proof fn lemma_value_field_first(value: Seq<u8>, offset: u64)
    ensures
        value.len() > 0 ==> (value_field(value) + offset_field(offset))[0] == VALUE_KEY,
        value.len() == 0 ==> value_field(value) + offset_field(offset) == offset_field(offset),
        offset != 0 ==> offset_field(offset).len() >= 1 && offset_field(offset)[0] == OFFSET_KEY,
        offset == 0 ==> offset_field(offset).len() == 0,
{
    if value.len() == 0 {
        assert(value_field(value) + offset_field(offset) =~= offset_field(offset));
    }
}

/// Reads the value field, if any, from the front of `bytes`; returns the
/// value and where the field ends.
fn take_value_field(bytes: &[u8]) -> (r: Option<(Vec<u8>, usize)>)
    ensures
        r matches Some((_, end)) ==> end <= bytes@.len(),
        forall|value: Seq<u8>, offset: u64|
            #![trigger value_field(value), offset_field(offset)]
            bytes@ == value_field(value) + offset_field(offset) ==> (r matches Some((v, end)) && v@
                == value && end == value_field(value).len()),
{
    let n = bytes.len();
    if n > 0 && bytes[0] == VALUE_KEY {
        let rest = slice_subrange(bytes, 1, n);
        match take_varint(rest) {
            None => {
                assert forall|value: Seq<u8>, offset: u64|
                    #![trigger value_field(value), offset_field(offset)]
                    bytes@ == value_field(value) + offset_field(offset) implies false by {
                    lemma_value_field_first(value, offset);
                    let k = varint(value.len() as u64);
                    assert(rest@ =~= k + value + offset_field(offset));
                    assert(rest@.subrange(0, k.len() as int) =~= k);
                }
                None
            },
            Some((len, left)) => {
                let start = n - left;
                if len > left as u64 {
                    assert forall|value: Seq<u8>, offset: u64|
                        #![trigger value_field(value), offset_field(offset)]
                        bytes@ == value_field(value) + offset_field(offset) implies false by {
                        lemma_value_field_first(value, offset);
                        let k = varint(value.len() as u64);
                        assert(rest@ =~= k + value + offset_field(offset));
                        assert(rest@.subrange(0, k.len() as int) =~= k);
                    }
                    None
                } else {
                    let end = start + len as usize;
                    let v = slice_to_vec(slice_subrange(bytes, start, end));
                    assert forall|value: Seq<u8>, offset: u64|
                        #![trigger value_field(value), offset_field(offset)]
                        bytes@ == value_field(value) + offset_field(offset) implies v@ == value && end
                            == value_field(value).len() by {
                        lemma_value_field_first(value, offset);
                        let k = varint(value.len() as u64);
                        assert(rest@ =~= k + value + offset_field(offset));
                        assert(rest@.subrange(0, k.len() as int) =~= k);
                        assert(bytes@.subrange(1 + k.len() as int, 1 + k.len() as int + value.len() as int) =~= value);
                    }
                    Some((v, end))
                }
            },
        }
    } else {
        assert forall|value: Seq<u8>, offset: u64|
            #![trigger value_field(value), offset_field(offset)]
            bytes@ == value_field(value) + offset_field(offset) implies value.len() == 0 by {
            lemma_value_field_first(value, offset);
        }
        let v: Vec<u8> = Vec::new();
        assert forall|value: Seq<u8>, offset: u64|
            #![trigger value_field(value), offset_field(offset)]
            bytes@ == value_field(value) + offset_field(offset) implies v@ == value
                && value_field(value).len() == 0 by {
            assert(value.len() == 0);
            assert(v@ =~= value);
        }
        Some((v, 0))
    }
}

/// Reads the offset field, if any, that fills `bytes` from `pos` to the end.
fn take_offset_field(bytes: &[u8], pos: usize) -> (r: Option<u64>)
    requires
        pos <= bytes@.len(),
    ensures
        forall|offset: u64|
            #![trigger offset_field(offset)]
            bytes@.subrange(pos as int, bytes@.len() as int) == offset_field(offset) ==> r == Some(
                offset,
            ),
{
    let n = bytes.len();
    if pos == n {
        assert forall|offset: u64|
            #![trigger offset_field(offset)]
            bytes@.subrange(pos as int, bytes@.len() as int) == offset_field(offset) implies offset
                == 0 by {
            lemma_value_field_first(Seq::empty(), offset);
        }
        Some(0)
    } else if bytes[pos] == OFFSET_KEY {
        let rest = slice_subrange(bytes, pos + 1, n);
        let t = take_varint(rest);
        assert forall|offset: u64|
            #![trigger offset_field(offset)]
            bytes@.subrange(pos as int, bytes@.len() as int) == offset_field(offset) implies t == Some(
                (offset, 0usize),
            ) by {
            lemma_value_field_first(Seq::empty(), offset);
            let s = bytes@.subrange(pos as int, n as int);
            assert(rest@ =~= s.subrange(1, s.len() as int));
            assert(s.subrange(1, s.len() as int) =~= varint(offset));
            assert(rest@.subrange(0, varint(offset).len() as int) =~= varint(offset));
        }
        match t {
            Some((offset, left)) => {
                if left == 0 {
                    Some(offset)
                } else {
                    None
                }
            },
            None => None,
        }
    } else {
        assert forall|offset: u64|
            #![trigger offset_field(offset)]
            bytes@.subrange(pos as int, bytes@.len() as int) == offset_field(offset) implies false by {
            lemma_value_field_first(Seq::empty(), offset);
            assert(bytes@.subrange(pos as int, bytes@.len() as int)[0] == bytes@[pos as int]);
        }
        None
    }
}

/// Decodes the wire form of a record.
///
/// The encoding of any record decodes to that record; anything that cannot
/// be decoded gives `EncodingFailure`.
pub fn decode_record(bytes: &[u8]) -> (r: Result<Record, CommitLogError>)
    ensures
        r is Err ==> r == Err::<Record, CommitLogError>(CommitLogError::EncodingFailure),
        forall|offset: u64, value: Seq<u8>|
            #![trigger record_bytes(offset, value)]
            bytes@ == record_bytes(offset, value) ==> (r matches Ok(rec) && rec.offset == offset
                && rec.value@ == value),
{
    match take_value_field(bytes) {
        None => {
            assert forall|o: u64, v: Seq<u8>|
                #![trigger record_bytes(o, v)]
                bytes@ == record_bytes(o, v) implies false by {
                assert(bytes@ == value_field(v) + offset_field(o));
            }
            Err(CommitLogError::EncodingFailure)
        },
        Some((value, end)) => {
            match take_offset_field(bytes, end) {
                None => {
                    assert forall|o: u64, v: Seq<u8>|
                        #![trigger record_bytes(o, v)]
                        bytes@ == record_bytes(o, v) implies false by {
                        assert(bytes@ == value_field(v) + offset_field(o));
                        assert(bytes@.subrange(end as int, bytes@.len() as int) =~= offset_field(o));
                    }
                    Err(CommitLogError::EncodingFailure)
                },
                Some(offset) => {
                    let rec = Record { offset, value };
                    assert forall|o: u64, v: Seq<u8>|
                        #![trigger record_bytes(o, v)]
                        bytes@ == record_bytes(o, v) implies rec.offset == o && rec.value@ == v by {
                        assert(bytes@ == value_field(v) + offset_field(o));
                        assert(bytes@.subrange(end as int, bytes@.len() as int) =~= offset_field(o));
                    }
                    Ok(rec)
                },
            }
        },
    }
}

/// Length of the encoding of a record at `offset` whose value is `len`
/// bytes long.
pub open spec fn record_len(offset: u64, len: nat) -> nat {
    (if len == 0 {
        0
    } else {
        1 + varint(len as u64).len() + len
    }) + (if offset == 0 {
        0
    } else {
        1 + varint(offset).len()
    })
}

/// The length of an encoded record depends on its value only through the
/// value's length.
pub proof fn lemma_record_len(offset: u64, value: Seq<u8>)
    ensures
        record_bytes(offset, value).len() == record_len(offset, value.len()),
{
}

} // verus!
