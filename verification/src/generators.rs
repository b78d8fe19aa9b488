//! The records of the configuration categories that are read from lists:
//! record keys, character sets, and the lists of accounts.

use vstd::prelude::*;
use crate::error::EncodeError;
use crate::hashing::account_id_of;
use crate::length_prefix::{fits, oversize};
use crate::list_codec::{encoded_list, list_record, list_recorded, CharacterSetNamespace};
use crate::order::{
    byte_strings, canonical, encode_sorted, lemma_canonical_ignores_order, sort_byte_strings,
    sorted_concat,
};
use crate::permutation::lemma_map_ignores_order;
use crate::profile::Profile;
use crate::record::Record;
use crate::sharder::{
    account_ids, account_ids_of, bucket_payload, lemma_shard_ignores_order, shard, sharded,
};
use crate::text::{hex_decode, hex_decoded, is_hex, line_bytes, texts, utf8_of};

verus! {

/// The record keys of a namespace, in the order they are stored: ascending
/// by their UTF-8 bytes.
pub open spec fn key_namespace_items(keys: Seq<Seq<char>>) -> Seq<Seq<u8>> {
    canonical(utf8_of(keys))
}

/// The content of the record-key namespace: every key, in ascending order,
/// closed by a zero byte.
pub open spec fn key_namespace_payload(keys: Seq<Seq<char>>) -> Seq<u8> {
    encoded_list(key_namespace_items(keys), None)
}

/// The content of a list of accounts stored by identity: the identities in
/// ascending order, one after another.
pub open spec fn account_list_payload(names: Seq<Seq<char>>, id_len: nat) -> Seq<u8> {
    sorted_concat(account_ids_of(utf8_of(names), id_len))
}

/// Whether a line holds the hash of an account in hexadecimal, long enough
/// to cut an identity of `id_len` bytes out of it.
pub open spec fn readable_hash(line: Seq<u8>, id_len: nat) -> bool {
    is_hex(line) && hex_decoded(line).len() >= id_len
}

/// The identity that a line of hexadecimal stands for.
pub open spec fn hash_id(line: Seq<u8>, id_len: nat) -> Seq<u8> {
    hex_decoded(line).subrange(0, id_len as int)
}

/// The identities that a list of lines of hexadecimal stands for.
pub open spec fn hash_ids(lines: Seq<Seq<u8>>, id_len: nat) -> Seq<Seq<u8>> {
    lines.map_values(|line: Seq<u8>| hash_id(line, id_len))
}

/// Whether `index` is the first line that holds no readable hash.
pub open spec fn first_unreadable(lines: Seq<Seq<u8>>, id_len: nat, index: int) -> bool {
    &&& 0 <= index < lines.len()
    &&& !readable_hash(lines[index], id_len)
    &&& forall|j: int| 0 <= j < index ==> readable_hash(#[trigger] lines[j], id_len)
}

/// The content of the list of unavailable accounts: the identities in
/// ascending order, one after another.
pub open spec fn unavailable_payload(lines: Seq<Seq<char>>, id_len: nat) -> Seq<u8> {
    sorted_concat(hash_ids(utf8_of(lines), id_len))
}

/// What making a record of sorted identities must give: the record, unless
/// the content is too long for `limit`.
pub open spec fn id_list_recorded(
    payload: Seq<u8>,
    category: u32,
    limit: usize,
    res: Result<Record, EncodeError>,
) -> bool {
    match res {
        Ok(record) => {
            &&& fits(payload.len(), limit)
            &&& record.category == category
            &&& record.payload@ == payload
        },
        Err(e) => !fits(payload.len(), limit) && e == oversize(payload.len(), limit),
    }
}

/// The record-key namespace does not depend on the order of the keys in
/// their source.
pub proof fn lemma_key_namespace_ignores_order(a: Seq<Seq<char>>, b: Seq<Seq<char>>)
    requires
        a.to_multiset() == b.to_multiset(),
    ensures
        key_namespace_items(a) == key_namespace_items(b),
        key_namespace_payload(a) == key_namespace_payload(b),
{
    lemma_map_ignores_order(a, b, |text: Seq<char>| vstd::utf8::encode_utf8(text));
    lemma_canonical_ignores_order(utf8_of(a), utf8_of(b));
}

/// A list of accounts stored by identity does not depend on the order of
/// the names in their source.
pub proof fn lemma_account_list_ignores_order(a: Seq<Seq<char>>, b: Seq<Seq<char>>, id_len: nat)
    requires
        a.to_multiset() == b.to_multiset(),
    ensures
        account_list_payload(a, id_len) == account_list_payload(b, id_len),
{
    lemma_map_ignores_order(a, b, |text: Seq<char>| vstd::utf8::encode_utf8(text));
    lemma_map_ignores_order(utf8_of(a), utf8_of(b), |name: Seq<u8>| account_id_of(name, id_len));
    lemma_canonical_ignores_order(
        account_ids_of(utf8_of(a), id_len),
        account_ids_of(utf8_of(b), id_len),
    );
}

/// The buckets of the reserved accounts do not depend on the order of the
/// names in their source.
pub proof fn lemma_reserved_accounts_ignore_order(
    a: Seq<Seq<char>>,
    b: Seq<Seq<char>>,
    id_len: nat,
    bucket_count: u8,
    index: int,
)
    requires
        a.to_multiset() == b.to_multiset(),
    ensures
        bucket_payload(account_ids_of(utf8_of(a), id_len), bucket_count, index) == bucket_payload(
            account_ids_of(utf8_of(b), id_len),
            bucket_count,
            index,
        ),
{
    lemma_map_ignores_order(a, b, |text: Seq<char>| vstd::utf8::encode_utf8(text));
    lemma_shard_ignores_order(utf8_of(a), utf8_of(b), id_len, bucket_count, index);
}

/// The list of unavailable accounts does not depend on the order of the
/// hashes in their source.
pub proof fn lemma_unavailable_ignores_order(a: Seq<Seq<char>>, b: Seq<Seq<char>>, id_len: nat)
    requires
        a.to_multiset() == b.to_multiset(),
    ensures
        unavailable_payload(a, id_len) == unavailable_payload(b, id_len),
{
    lemma_map_ignores_order(a, b, |text: Seq<char>| vstd::utf8::encode_utf8(text));
    lemma_map_ignores_order(utf8_of(a), utf8_of(b), |line: Seq<u8>| hash_id(line, id_len));
    lemma_canonical_ignores_order(hash_ids(utf8_of(a), id_len), hash_ids(utf8_of(b), id_len));
}

/// Makes the record of the record-key namespace from the lines of its
/// source: the keys are sorted, then each is closed by a zero byte.
pub fn gen_config_cell_record_key_namespace(lines: &Vec<String>, category: u32, limit: usize) -> (res:
    Result<Record, EncodeError>)
    ensures
        list_recorded(key_namespace_items(texts(lines@)), None, category, limit, res),
{
    let keys = line_bytes(lines);
    let sorted = sort_byte_strings(&keys);
    list_record(&sorted, None, category, limit)
}

/// Makes the records of the reserved accounts from the lines of their
/// source: one record per bucket of `profile`.
pub fn gen_config_cell_reserved_account(lines: &Vec<String>, profile: &Profile) -> (res: Result<
    Vec<Record>,
    EncodeError,
>)
    requires
        profile.valid(),
    ensures
        sharded(
            account_ids_of(utf8_of(texts(lines@)), profile.account_id_length as nat),
            *profile,
            res,
        ),
{
    let names = line_bytes(lines);
    shard(&names, profile)
}

/// What making the records of several character-set namespaces must give:
/// one record per namespace, or the failure of the first namespace that has
/// one.
pub open spec fn char_sets_recorded(
    namespaces: Seq<CharacterSetNamespace>,
    limit: usize,
    res: Result<Vec<Record>, EncodeError>,
) -> bool {
    match res {
        Ok(records) => {
            &&& records@.len() == namespaces.len()
            &&& forall|i: int|
                0 <= i < namespaces.len() ==> char_set_recorded(
                    namespaces[i],
                    limit,
                    Ok(#[trigger] records@[i]),
                )
        },
        Err(e) => exists|i: int|
            {
                &&& 0 <= i < namespaces.len()
                &&& char_set_recorded(#[trigger] namespaces[i], limit, Err(e))
                &&& forall|j: int| 0 <= j < i ==> encodable(#[trigger] namespaces[j], limit)
            },
    }
}

/// What making the record of one character-set namespace must give.
pub open spec fn char_set_recorded(
    namespace: CharacterSetNamespace,
    limit: usize,
    res: Result<Record, EncodeError>,
) -> bool {
    list_recorded(namespace.members(), Some(namespace.flag()), namespace.category, limit, res)
}

/// Whether a namespace has a record under `limit`: none of its characters
/// holds a zero byte, and its encoding is short enough.
pub open spec fn encodable(namespace: CharacterSetNamespace, limit: usize) -> bool {
    &&& namespace.well_formed()
    &&& fits(encoded_list(namespace.members(), Some(namespace.flag())).len(), limit)
}

/// Makes the records of the character-set namespaces, in the order given.
pub fn gen_config_cell_char_set(namespaces: &Vec<CharacterSetNamespace>, limit: usize) -> (res: Result<
    Vec<Record>,
    EncodeError,
>)
    ensures
        char_sets_recorded(namespaces@, limit, res),
{
    let mut records: Vec<Record> = Vec::with_capacity(namespaces.len());
    let mut n: usize = 0;
    while n < namespaces.len()
        invariant
            n <= namespaces@.len(),
            records@.len() == n,
            forall|i: int|
                0 <= i < n ==> char_set_recorded(namespaces@[i], limit, Ok(#[trigger] records@[i])),
            forall|j: int| 0 <= j < n ==> encodable(#[trigger] namespaces@[j], limit),
        decreases namespaces@.len() - n,
    {
        match namespaces[n].record(limit) {
            Ok(record) => {
                records.push(record);
            },
            Err(e) => {
                assert(char_set_recorded(namespaces@[n as int], limit, Err(e)));
                return Err(e);
            },
        }
        n += 1;
    }
    Ok(records)
}

/// Makes the record of the sub-account beta list from the lines of its
/// source: every name is hashed into its identity, and the identities are
/// stored in ascending order.
pub fn gen_config_cell_sub_account_beta_list(
    lines: &Vec<String>,
    category: u32,
    profile: &Profile,
) -> (res: Result<Record, EncodeError>)
    requires
        profile.valid(),
    ensures
        id_list_recorded(
            account_list_payload(texts(lines@), profile.account_id_length as nat),
            category,
            profile.witness_size_limit,
            res,
        ),
{
    let names = line_bytes(lines);
    let ids = account_ids(&names, profile.account_id_length);
    let payload = encode_sorted(&ids);
    Record::new(category, payload, profile.witness_size_limit)
}

/// Reads the identities out of lines of hexadecimal, or reports the first
/// line that holds no readable hash.
pub fn read_hash_ids(lines: &Vec<Vec<u8>>, id_len: usize) -> (res: Result<Vec<Vec<u8>>, EncodeError>)
    ensures
        match res {
            Ok(ids) => {
                &&& forall|i: int|
                    0 <= i < lines@.len() ==> readable_hash(
                        #[trigger] byte_strings(lines@)[i],
                        id_len as nat,
                    )
                &&& byte_strings(ids@) == hash_ids(byte_strings(lines@), id_len as nat)
            },
            Err(EncodeError::InputUnreadable { line_index }) => first_unreadable(
                byte_strings(lines@),
                id_len as nat,
                line_index as int,
            ),
            Err(_) => false,
        },
{
    let ghost all = byte_strings(lines@);
    let mut ids: Vec<Vec<u8>> = Vec::with_capacity(lines.len());
    let mut n: usize = 0;
    while n < lines.len()
        invariant
            n <= lines@.len(),
            all == byte_strings(lines@),
            ids@.len() == n,
            forall|i: int| 0 <= i < n ==> readable_hash(#[trigger] all[i], id_len as nat),
            forall|i: int| 0 <= i < n ==> (#[trigger] ids@[i])@ == hash_id(all[i], id_len as nat),
        decreases lines@.len() - n,
    {
        match hex_decode(lines[n].as_slice()) {
            Ok(hash) => {
                if hash.len() < id_len {
                    assert(first_unreadable(all, id_len as nat, n as int));
                    return Err(EncodeError::InputUnreadable { line_index: n });
                }
                let mut hash = hash;
                hash.truncate(id_len);
                ids.push(hash);
            },
            Err(_) => {
                assert(first_unreadable(all, id_len as nat, n as int));
                return Err(EncodeError::InputUnreadable { line_index: n });
            },
        }
        n += 1;
    }
    assert(byte_strings(ids@) =~= hash_ids(all, id_len as nat));
    Ok(ids)
}

/// What making the record of the unavailable accounts must give.
///
/// The first line that holds no readable hash is reported before anything
/// else; otherwise the identities, in ascending order, become the record
/// unless they are too long for `limit`.
pub open spec fn unavailable_recorded(
    lines: Seq<Seq<char>>,
    category: u32,
    id_len: nat,
    limit: usize,
    res: Result<Record, EncodeError>,
) -> bool {
    match res {
        Ok(record) => {
            &&& forall|i: int|
                0 <= i < lines.len() ==> readable_hash(#[trigger] utf8_of(lines)[i], id_len)
            &&& fits(unavailable_payload(lines, id_len).len(), limit)
            &&& record.category == category
            &&& record.payload@ == unavailable_payload(lines, id_len)
        },
        Err(EncodeError::InputUnreadable { line_index }) => first_unreadable(
            utf8_of(lines),
            id_len,
            line_index as int,
        ),
        Err(e) => {
            &&& forall|i: int|
                0 <= i < lines.len() ==> readable_hash(#[trigger] utf8_of(lines)[i], id_len)
            &&& !fits(unavailable_payload(lines, id_len).len(), limit)
            &&& e == oversize(unavailable_payload(lines, id_len).len(), limit)
        },
    }
}

/// Makes the record of the unavailable accounts from the lines of its
/// source, each the hash of an account in hexadecimal: the identities are
/// cut out of the hashes and stored in ascending order.
pub fn gen_config_cell_unavailable_account(
    lines: &Vec<String>,
    category: u32,
    profile: &Profile,
) -> (res: Result<Record, EncodeError>)
    ensures
        unavailable_recorded(
            texts(lines@),
            category,
            profile.account_id_length as nat,
            profile.witness_size_limit,
            res,
        ),
{
    let hashes = line_bytes(lines);
    match read_hash_ids(&hashes, profile.account_id_length) {
        Ok(ids) => {
            let payload = encode_sorted(&ids);
            Record::new(category, payload, profile.witness_size_limit)
        },
        Err(e) => Err(e),
    }
}

} // verus!
