//! Lists of byte strings, each closed by a zero byte.

use vstd::prelude::*;
use crate::error::EncodeError;
use crate::length_prefix::{fits, oversize};
use crate::order::byte_strings;
use crate::record::Record;
use crate::text::{clean_lines, cleaned, texts};

verus! {

/// The byte that ends every item of an encoded list.
pub const TERMINATOR: u8 = 0;

/// Whether an item holds the terminator byte, which no item may.
pub open spec fn has_terminator(item: Seq<u8>) -> bool {
    exists|k: int| 0 <= k < item.len() && item[k] == TERMINATOR
}

/// The items one after another, each followed by the terminator.
pub open spec fn terminated(items: Seq<Seq<u8>>) -> Seq<u8>
    decreases items.len(),
{
    if items.len() == 0 {
        Seq::<u8>::empty()
    } else {
        terminated(items.drop_last()) + items.last().push(TERMINATOR)
    }
}

/// The optional flag byte, as the sequence it contributes to the output.
pub open spec fn flag_bytes(global_flag: Option<u8>) -> Seq<u8> {
    match global_flag {
        Some(flag) => seq![flag],
        None => Seq::<u8>::empty(),
    }
}

/// The encoding of a list: the flag byte if there is one, then every item
/// with its terminator.
pub open spec fn encoded_list(items: Seq<Seq<u8>>, global_flag: Option<u8>) -> Seq<u8> {
    flag_bytes(global_flag) + terminated(items)
}

/// Whether `index` is the first item of `items` that holds the terminator.
pub open spec fn first_offender(items: Seq<Seq<u8>>, index: int) -> bool {
    &&& 0 <= index < items.len()
    &&& has_terminator(items[index])
    &&& forall|j: int| 0 <= j < index ==> !has_terminator(#[trigger] items[j])
}

/// Whether `item` holds the terminator byte.
pub fn contains_terminator(item: &[u8]) -> (found: bool)
    ensures
        found == has_terminator(item@),
{
    let mut k: usize = 0;
    while k < item.len()
        invariant
            k <= item@.len(),
            forall|j: int| 0 <= j < k ==> item@[j] != TERMINATOR,
        decreases item@.len() - k,
    {
        if item[k] == TERMINATOR {
            return true;
        }
        k += 1;
    }
    false
}

/// Encodes a list of byte strings for `category`, each item closed by a zero
/// byte, behind the optional flag byte.
///
/// Every item is checked before anything is written: the first item that
/// holds a zero byte is reported, and nothing else can fail.
pub fn encode_list(items: &Vec<Vec<u8>>, global_flag: Option<u8>, category: u32) -> (res: Result<
    Vec<u8>,
    EncodeError,
>)
    ensures
        match res {
            Ok(out) => {
                &&& forall|i: int|
                    0 <= i < items@.len() ==> !has_terminator(#[trigger] byte_strings(items@)[i])
                &&& out@ == encoded_list(byte_strings(items@), global_flag)
            },
            Err(e) => match e {
                EncodeError::InvalidCharacter { category: reported, item_index } => {
                    &&& reported == category
                    &&& first_offender(byte_strings(items@), item_index as int)
                },
                _ => false,
            },
        },
{
    let ghost all = byte_strings(items@);
    let mut i: usize = 0;
    while i < items.len()
        invariant
            i <= items@.len(),
            all == byte_strings(items@),
            forall|j: int| 0 <= j < i ==> !has_terminator(#[trigger] all[j]),
        decreases items@.len() - i,
    {
        if contains_terminator(items[i].as_slice()) {
            assert(first_offender(all, i as int));
            return Err(EncodeError::InvalidCharacter { category, item_index: i });
        }
        i += 1;
    }
    let mut out: Vec<u8> = Vec::new();
    match global_flag {
        Some(flag) => {
            out.push(flag);
        },
        None => {},
    }
    assert(out@ =~= flag_bytes(global_flag));
    let mut n: usize = 0;
    assert(all.take(0) =~= Seq::<Seq<u8>>::empty());
    while n < items.len()
        invariant
            n <= items@.len(),
            all == byte_strings(items@),
            out@ == flag_bytes(global_flag) + terminated(all.take(n as int)),
        decreases items@.len() - n,
    {
        let ghost before = out@;
        out.extend_from_slice(items[n].as_slice());
        out.push(TERMINATOR);
        proof {
            let next = all.take(n + 1);
            assert(next.drop_last() =~= all.take(n as int));
            assert(next.last() == all[n as int]);
            assert(out@ =~= before + all[n as int].push(TERMINATOR));
            assert(out@ =~= flag_bytes(global_flag) + terminated(next));
        }
        n += 1;
    }
    assert(all.take(items@.len() as int) =~= all);
    Ok(out)
}

/// Whether no item of a list holds the terminator.
pub open spec fn all_clean(items: Seq<Seq<u8>>) -> bool {
    forall|i: int| 0 <= i < items.len() ==> !has_terminator(#[trigger] items[i])
}

/// What making a record of a list must give.
///
/// The first item that holds a zero byte is reported before anything else.
/// A list without such an item is encoded, and its encoding becomes the
/// record unless it is too long for `limit`.
pub open spec fn list_recorded(
    items: Seq<Seq<u8>>,
    global_flag: Option<u8>,
    category: u32,
    limit: usize,
    res: Result<Record, EncodeError>,
) -> bool {
    match res {
        Ok(record) => {
            &&& all_clean(items)
            &&& fits(encoded_list(items, global_flag).len(), limit)
            &&& record.category == category
            &&& record.payload@ == encoded_list(items, global_flag)
        },
        Err(EncodeError::InvalidCharacter { category: reported, item_index }) => {
            &&& reported == category
            &&& first_offender(items, item_index as int)
        },
        Err(e) => {
            &&& all_clean(items)
            &&& !fits(encoded_list(items, global_flag).len(), limit)
            &&& e == oversize(encoded_list(items, global_flag).len(), limit)
        },
    }
}

/// An item that holds a zero byte is always rejected, wherever it stands in
/// the list: no record is made, and the error names the first such item.
pub proof fn lemma_terminator_is_rejected(
    items: Seq<Seq<u8>>,
    global_flag: Option<u8>,
    category: u32,
    limit: usize,
    res: Result<Record, EncodeError>,
    index: int,
)
    requires
        list_recorded(items, global_flag, category, limit, res),
        0 <= index < items.len(),
        has_terminator(items[index]),
    ensures
        res is Err,
        res->Err_0 is InvalidCharacter,
        res->Err_0->item_index <= index,
        first_offender(items, res->Err_0->item_index as int),
{
}

/// Encodes a list for `category` and makes a record of it under `limit`.
pub fn list_record(items: &Vec<Vec<u8>>, global_flag: Option<u8>, category: u32, limit: usize) -> (res:
    Result<Record, EncodeError>)
    ensures
        list_recorded(byte_strings(items@), global_flag, category, limit, res),
{
    match encode_list(items, global_flag, category) {
        Ok(payload) => Record::new(category, payload, limit),
        Err(e) => Err(e),
    }
}

/// A namespace of characters that account names may be written in.
#[derive(Debug, Clone, PartialEq, Eq)]
pub struct CharacterSetNamespace {
    /// The tag of the configuration category that this namespace fills.
    pub category: u32,
    /// Whether the characters may be mixed with those of every other namespace.
    pub is_global: bool,
    /// The characters, each in its UTF-8 bytes, in the order they are stored.
    pub characters: Vec<Vec<u8>>,
}

impl CharacterSetNamespace {
    /// The flag byte that opens the encoding of a namespace.
    pub open spec fn flag(self) -> u8 {
        if self.is_global {
            1u8
        } else {
            0u8
        }
    }

    /// The characters as byte strings.
    pub open spec fn members(self) -> Seq<Seq<u8>> {
        byte_strings(self.characters@)
    }

    /// A namespace can be encoded when none of its characters holds a zero byte.
    pub open spec fn well_formed(self) -> bool {
        forall|i: int| 0 <= i < self.members().len() ==> !has_terminator(#[trigger] self.members()[i])
    }

    /// Reads a namespace from the lines of its source: the whitespace around
    /// each line is stripped, and blank lines are left out.
    pub fn from_lines(category: u32, is_global: bool, lines: &Vec<String>) -> (namespace: Self)
        ensures
            namespace.category == category,
            namespace.is_global == is_global,
            namespace.members() == cleaned(texts(lines@)),
    {
        CharacterSetNamespace { category, is_global, characters: clean_lines(lines) }
    }

    /// The record of the namespace under `limit`.
    pub fn record(&self, limit: usize) -> (res: Result<Record, EncodeError>)
        ensures
            list_recorded(self.members(), Some(self.flag()), self.category, limit, res),
    {
        let flag: u8 = if self.is_global {
            1
        } else {
            0
        };
        list_record(&self.characters, Some(flag), self.category, limit)
    }

    /// Encodes the namespace: the flag byte, then every character with its
    /// terminator. Fails on the first character that holds a zero byte.
    pub fn encode(&self) -> (res: Result<Vec<u8>, EncodeError>)
        ensures
            self.well_formed() <==> res is Ok,
            res is Ok ==> res->Ok_0@ == encoded_list(self.members(), Some(self.flag())),
            res is Err ==> match res->Err_0 {
                EncodeError::InvalidCharacter { category: reported, item_index } => {
                    &&& reported == self.category
                    &&& first_offender(self.members(), item_index as int)
                },
                _ => false,
            },
    {
        let flag: u8 = if self.is_global {
            1
        } else {
            0
        };
        let res = encode_list(&self.characters, Some(flag), self.category);
        proof {
            if let Err(EncodeError::InvalidCharacter { item_index, .. }) = res {
                assert(has_terminator(self.members()[item_index as int]));
            }
        }
        res
    }
}

} // verus!
