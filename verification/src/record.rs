//! A record: the content of one configuration category under its tag.

use vstd::prelude::*;
use vstd::slice::slice_to_vec;
use crate::error::EncodeError;
use crate::length_prefix::{encode_with_limit, fits, framed, oversize};

verus! {

/// The encoded content of one configuration category.
#[derive(Debug, Clone, PartialEq, Eq)]
pub struct Record {
    /// The tag of the configuration category.
    pub category: u32,
    /// The content, without its length header.
    pub payload: Vec<u8>,
}

impl Record {
    /// A record is well formed under `limit` when its content and header fit.
    pub open spec fn well_formed(self, limit: usize) -> bool {
        fits(self.payload@.len(), limit)
    }

    /// The bytes that stand for the record: the content behind its length header.
    pub open spec fn encoding(self) -> Seq<u8> {
        framed(self.payload@)
    }

    /// Makes a record of `payload`, unless it is too long for `limit`.
    pub fn new(category: u32, payload: Vec<u8>, limit: usize) -> (res: Result<Record, EncodeError>)
        ensures
            fits(payload@.len(), limit) <==> res is Ok,
            res is Ok ==> res->Ok_0.category == category && res->Ok_0.payload@ == payload@,
            res is Err ==> res->Err_0 == oversize(payload@.len(), limit),
    {
        let len: usize = payload.len();
        if len > usize::MAX - 4 {
            return Err(EncodeError::SizeLimitExceeded { total: usize::MAX, limit });
        }
        if len + 4 > limit || len + 4 > 0xffff_ffff {
            return Err(EncodeError::SizeLimitExceeded { total: len + 4, limit });
        }
        Ok(Record { category, payload })
    }

    /// Writes the record out: the length header, then the content.
    pub fn encode(&self, limit: usize) -> (res: Result<Vec<u8>, EncodeError>)
        ensures
            self.well_formed(limit) <==> res is Ok,
            res is Ok ==> res->Ok_0@ == self.encoding(),
            res is Err ==> res->Err_0 == oversize(self.payload@.len(), limit),
    {
        encode_with_limit(slice_to_vec(self.payload.as_slice()), limit)
    }
}

} // verus!
