//! Output lines: a record with its content hash and witnesses, every field
//! in lowercase hexadecimal behind `0x`.

use vstd::prelude::*;
use crate::error::EncodeError;
use crate::hashing::{blake2b_256_digest, hash256};
use crate::length_prefix::{le_bytes, u32_le_bytes};

verus! {

/// The sixteen lowercase hexadecimal digits.
pub open spec fn hex_digits() -> Seq<char> {
    seq!['0', '1', '2', '3', '4', '5', '6', '7', '8', '9', 'a', 'b', 'c', 'd', 'e', 'f']
}

/// Bytes written as lowercase hexadecimal: two digits per byte, the high
/// half first, with no prefix and nothing between the bytes.
pub open spec fn hex_lower(bytes: Seq<u8>) -> Seq<char> {
    Seq::new(
        2 * bytes.len(),
        |i: int|
            if i % 2 == 0 {
                hex_digits()[bytes[i / 2] as int / 16]
            } else {
                hex_digits()[bytes[i / 2] as int % 16]
            },
    )
}

/// Calls `faster_hex::hex_string`. Trusted: it writes each byte as two
/// lowercase hexadecimal digits. It panics when the encoded length cannot be
/// represented, which `requires` leaves out.
#[verifier::external_body]
pub(crate) fn hex_string(bytes: &[u8]) -> (text: String)
    requires
        2 * bytes@.len() <= isize::MAX,
    ensures
        text@ == hex_lower(bytes@),
{
    faster_hex::hex_string(bytes)
}

/// A field of an output line: `0x`, then the bytes in hexadecimal.
pub open spec fn hex_field(bytes: Seq<u8>) -> Seq<char> {
    seq!['0', 'x'] + hex_lower(bytes)
}

/// The four fields of an output line, separated by single spaces.
pub open spec fn output_line(
    category: Seq<char>,
    content_hash: Seq<char>,
    action_witness: Seq<char>,
    payload_witness: Seq<char>,
) -> Seq<char> {
    seq!['0', 'x'] + category + seq![' ', '0', 'x'] + content_hash + seq![' ', '0', 'x']
        + action_witness + seq![' ', '0', 'x'] + payload_witness
}

/// Output lines joined by commas, with no comma before the first or after
/// the last.
pub open spec fn joined_lines(lines: Seq<Seq<char>>) -> Seq<char>
    decreases lines.len(),
{
    if lines.len() == 0 {
        Seq::<char>::empty()
    } else if lines.len() == 1 {
        lines[0]
    } else {
        joined_lines(lines.drop_last()) + seq![','] + lines.last()
    }
}

/// One record made ready for output: each field in hexadecimal, without
/// its `0x` prefix.
#[derive(Debug, Clone, PartialEq, Eq)]
pub struct EmittedRecord {
    /// The category tag, as four little-endian bytes.
    pub category_hex: String,
    /// The digest of the record's bytes.
    pub content_hash_hex: String,
    /// The witness that marks the action.
    pub action_witness_hex: String,
    /// The witness that carries the record under its category tag.
    pub payload_witness_hex: String,
}

impl EmittedRecord {
    /// The output line of this record.
    pub open spec fn line(self) -> Seq<char> {
        output_line(
            self.category_hex@,
            self.content_hash_hex@,
            self.action_witness_hex@,
            self.payload_witness_hex@,
        )
    }

    /// Renders the output line: four `0x` fields separated by spaces.
    pub fn render(&self) -> (text: String)
        ensures
            text@ == self.line(),
    {
        proof {
            reveal_strlit("0x");
            reveal_strlit(" 0x");
        }
        let mut text = String::new();
        text.append("0x");
        text.append(self.category_hex.as_str());
        text.append(" 0x");
        text.append(self.content_hash_hex.as_str());
        text.append(" 0x");
        text.append(self.action_witness_hex.as_str());
        text.append(" 0x");
        text.append(self.payload_witness_hex.as_str());
        assert("0x"@ =~= seq!['0', 'x']);
        assert(" 0x"@ =~= seq![' ', '0', 'x']);
        assert(text@ =~= self.line());
        text
    }
}

/// What emitting a record must give, once the digest of its bytes is known.
pub open spec fn emitted(
    category: u32,
    digest: Seq<u8>,
    action_witness: Seq<u8>,
    payload_witness: Seq<u8>,
    limit: usize,
    res: Result<EmittedRecord, EncodeError>,
) -> bool {
    match res {
        Ok(fields) => {
            &&& payload_witness.len() <= limit
            &&& fields.category_hex@ == hex_lower(le_bytes(category))
            &&& fields.content_hash_hex@ == hex_lower(digest)
            &&& fields.action_witness_hex@ == hex_lower(action_witness)
            &&& fields.payload_witness_hex@ == hex_lower(payload_witness)
        },
        Err(e) => {
            &&& payload_witness.len() > limit
            &&& e == (EncodeError::SizeLimitExceeded { total: payload_witness.len() as usize, limit })
        },
    }
}

/// Puts a record into its output fields, given the digest of its bytes and
/// the two witnesses that wrap it. Fails exactly when the payload witness is
/// longer than `limit`.
pub fn emit_with_digest(
    category: u32,
    digest: &[u8; 32],
    action_witness: &[u8],
    payload_witness: &[u8],
    limit: usize,
) -> (res: Result<EmittedRecord, EncodeError>)
    requires
        2 * action_witness@.len() <= isize::MAX,
        2 * payload_witness@.len() <= isize::MAX,
    ensures
        emitted(category, digest@, action_witness@, payload_witness@, limit, res),
{
    if payload_witness.len() > limit {
        return Err(EncodeError::SizeLimitExceeded { total: payload_witness.len(), limit });
    }
    let tag = u32_le_bytes(category);
    Ok(
        EmittedRecord {
            category_hex: hex_string(tag.as_slice()),
            content_hash_hex: hex_string(digest.as_slice()),
            action_witness_hex: hex_string(action_witness),
            payload_witness_hex: hex_string(payload_witness),
        },
    )
}

/// Puts a record into its output fields: the category tag, the digest of the
/// record's bytes, and the two witnesses that wrap it, each in hexadecimal.
/// The same arguments always give the same fields.
pub fn emit(
    category: u32,
    payload: &[u8],
    action_witness: &[u8],
    payload_witness: &[u8],
    limit: usize,
) -> (res: Result<EmittedRecord, EncodeError>)
    requires
        2 * action_witness@.len() <= isize::MAX,
        2 * payload_witness@.len() <= isize::MAX,
    ensures
        emitted(
            category,
            blake2b_256_digest(payload@),
            action_witness@,
            payload_witness@,
            limit,
            res,
        ),
{
    let digest = hash256(payload);
    emit_with_digest(category, &digest, action_witness, payload_witness, limit)
}

/// Joins output lines with commas.
pub fn join_lines(lines: &Vec<String>) -> (text: String)
    ensures
        text@ == joined_lines(Seq::new(lines@.len(), |i: int| lines@[i]@)),
{
    let ghost all = Seq::new(lines@.len(), |i: int| lines@[i]@);
    let mut text = String::new();
    let mut n: usize = 0;
    proof {
        reveal_strlit(",");
        assert(all.take(0) =~= Seq::<Seq<char>>::empty());
    }
    while n < lines.len()
        invariant
            n <= lines@.len(),
            all == Seq::new(lines@.len(), |i: int| lines@[i]@),
            text@ == joined_lines(all.take(n as int)),
            ","@ == seq![','],
        decreases lines@.len() - n,
    {
        proof {
            let next = all.take(n + 1);
            assert(next.drop_last() =~= all.take(n as int));
            assert(next.last() == all[n as int]);
            if n == 0 {
                assert(next[0] == all[0]);
                assert(text@ + all[0] =~= all[0]);
            }
        }
        if n > 0 {
            text.append(",");
        }
        text.append(lines[n].as_str());
        n += 1;
    }
    assert(all.take(lines@.len() as int) =~= all);
    text
}

} // verus!
