//! Records that say their own length: a 4-byte little-endian header that
//! counts itself, then the content.

use vstd::prelude::*;
use crate::error::EncodeError;

verus! {

/// Ceiling on the size of a record, header included.
pub const WITNESS_SIZE_LIMIT: usize = 32000;

/// The four bytes of `n`, least significant first.
pub open spec fn le_bytes(n: u32) -> Seq<u8> {
    seq![
        (n % 256) as u8,
        ((n / 256) % 256) as u8,
        ((n / 65536) % 256) as u8,
        ((n / 16777216) % 256) as u8,
    ]
}

/// The number that the first four bytes of `bytes` spell, least significant first.
pub open spec fn le_value(bytes: Seq<u8>) -> nat
    recommends
        bytes.len() >= 4,
{
    (bytes[0] as nat) + 256 * (bytes[1] as nat) + 65536 * (bytes[2] as nat) + 16777216 * (
    bytes[3] as nat)
}

/// A payload framed by its own total length: the header counts itself.
pub open spec fn framed(payload: Seq<u8>) -> Seq<u8>
    recommends
        payload.len() + 4 <= u32::MAX,
{
    le_bytes((payload.len() + 4) as u32) + payload
}

/// Whether a payload fits in a record under `limit`.
pub open spec fn fits(payload_len: nat, limit: usize) -> bool {
    payload_len + 4 <= limit && payload_len + 4 <= u32::MAX
}

/// The error that reports a payload of `payload_len` bytes as too long for `limit`.
pub open spec fn oversize(payload_len: nat, limit: usize) -> EncodeError {
    EncodeError::SizeLimitExceeded {
        total: if payload_len + 4 <= usize::MAX {
            (payload_len + 4) as usize
        } else {
            usize::MAX
        },
        limit,
    }
}

/// Reading back what `le_bytes` wrote gives the number again.
pub proof fn lemma_le_round_trip(n: u32)
    ensures
        le_bytes(n).len() == 4,
        le_value(le_bytes(n)) == n,
{
}

/// A framed payload describes its own length: its first four bytes, read as a
/// little-endian number, are the length of the whole record.
pub proof fn lemma_frame_describes_itself(payload: Seq<u8>)
    requires
        payload.len() + 4 <= u32::MAX,
    ensures
        framed(payload).len() == payload.len() + 4,
        le_value(framed(payload)) == framed(payload).len(),
        framed(payload).subrange(4, framed(payload).len() as int) == payload,
{
    lemma_le_round_trip((payload.len() + 4) as u32);
    assert(framed(payload).subrange(4, framed(payload).len() as int) =~= payload);
}

/// Writes `n` as four bytes, least significant first.
pub fn u32_le_bytes(n: u32) -> (out: Vec<u8>)
    ensures
        out@ == le_bytes(n),
{
    let mut out: Vec<u8> = Vec::with_capacity(4);
    out.push((n % 256) as u8);
    out.push(((n / 256) % 256) as u8);
    out.push(((n / 65536) % 256) as u8);
    out.push(((n / 16777216) % 256) as u8);
    assert(out@ =~= le_bytes(n));
    out
}

/// Frames `raw` with its total length under the given ceiling.
///
/// Fails exactly when the record, header included, would be longer than
/// `limit` or than a 32-bit length can say.
pub fn encode_with_limit(raw: Vec<u8>, limit: usize) -> (res: Result<Vec<u8>, EncodeError>)
    ensures
        fits(raw@.len(), limit) <==> res is Ok,
        res is Ok ==> res->Ok_0@ == framed(raw@),
        res is Ok ==> le_value(res->Ok_0@) == res->Ok_0@.len(),
        res is Err ==> res->Err_0 == oversize(raw@.len(), limit),
{
    let len: usize = raw.len();
    if len > usize::MAX - 4 {
        return Err(EncodeError::SizeLimitExceeded { total: usize::MAX, limit });
    }
    let total: usize = len + 4;
    if total > limit || total > 0xffff_ffff {
        return Err(EncodeError::SizeLimitExceeded { total, limit });
    }
    let mut entity: Vec<u8> = u32_le_bytes(total as u32);
    let mut raw = raw;
    proof {
        lemma_frame_describes_itself(raw@);
    }
    entity.append(&mut raw);
    Ok(entity)
}

/// Frames `raw` with its total length under the standard witness ceiling.
pub fn prepend_molecule_like_length(raw: Vec<u8>) -> (res: Result<Vec<u8>, EncodeError>)
    ensures
        raw@.len() + 4 <= WITNESS_SIZE_LIMIT <==> res is Ok,
        res is Ok ==> res->Ok_0@ == framed(raw@),
        res is Ok ==> le_value(res->Ok_0@) == res->Ok_0@.len(),
        res is Err ==> res->Err_0 == oversize(raw@.len(), WITNESS_SIZE_LIMIT),
{
    encode_with_limit(raw, WITNESS_SIZE_LIMIT)
}

/// Reads the length that a record declares in its header, if it has one.
pub fn declared_length(record: &[u8]) -> (res: Option<u32>)
    ensures
        record@.len() < 4 ==> res is None,
        record@.len() >= 4 ==> res is Some && res->Some_0 == le_value(record@),
{
    if record.len() < 4 {
        return None;
    }
    let b0: u32 = record[0] as u32;
    let b1: u32 = record[1] as u32;
    let b2: u32 = record[2] as u32;
    let b3: u32 = record[3] as u32;
    Some(b0 + 256 * b1 + 65536 * b2 + 16777216 * b3)
}

} // verus!
