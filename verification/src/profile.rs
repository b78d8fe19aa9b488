//! The parameters of a deployment.

use vstd::prelude::*;
use crate::hashing::DIGEST_LEN;

verus! {

/// The parameters of a deployment, fixed before anything is encoded.
#[derive(Debug, Clone, Copy, PartialEq, Eq, Structural)]
pub struct Profile {
    /// Ceiling on the size of a record, header included.
    pub witness_size_limit: usize,
    /// Number of digest bytes that identify an account.
    pub account_id_length: usize,
    /// Number of buckets that a sharded account list is spread over.
    pub bucket_count: u8,
    /// Most members that one bucket may hold.
    pub bucket_capacity: usize,
    /// Category tag of bucket 0; bucket `i` is tagged `first_bucket_category + i`.
    pub first_bucket_category: u32,
}

impl Profile {
    /// A profile is usable when an identity is a non-empty part of a digest,
    /// there is at least one bucket, and every bucket has a category tag.
    pub open spec fn valid(self) -> bool {
        &&& 1 <= self.account_id_length <= DIGEST_LEN
        &&& self.bucket_count >= 1
        &&& self.first_bucket_category + self.bucket_count - 1 <= u32::MAX
    }

    /// Whether the profile is usable.
    pub fn is_valid(&self) -> (ok: bool)
        ensures
            ok == self.valid(),
    {
        1 <= self.account_id_length && self.account_id_length <= DIGEST_LEN && self.bucket_count
            >= 1 && self.first_bucket_category <= u32::MAX - (self.bucket_count as u32 - 1)
    }

    /// Builds a profile, or nothing when the parameters are not usable.
    pub fn new(
        witness_size_limit: usize,
        account_id_length: usize,
        bucket_count: u8,
        bucket_capacity: usize,
        first_bucket_category: u32,
    ) -> (res: Option<Profile>)
        ensures
            res is Some <==> (Profile {
                witness_size_limit,
                account_id_length,
                bucket_count,
                bucket_capacity,
                first_bucket_category,
            }).valid(),
            res is Some ==> res->Some_0 == (Profile {
                witness_size_limit,
                account_id_length,
                bucket_count,
                bucket_capacity,
                first_bucket_category,
            }),
    {
        let profile = Profile {
            witness_size_limit,
            account_id_length,
            bucket_count,
            bucket_capacity,
            first_bucket_category,
        };
        if profile.is_valid() {
            Some(profile)
        } else {
            None
        }
    }

    /// The category tag of bucket `index`.
    pub open spec fn bucket_category_of(self, index: int) -> int {
        self.first_bucket_category + index
    }

    /// The category tag of bucket `index`.
    pub fn bucket_category(&self, index: u8) -> (tag: u32)
        requires
            self.valid(),
            index < self.bucket_count,
        ensures
            tag == self.bucket_category_of(index as int),
    {
        self.first_bucket_category + index as u32
    }
}

} // verus!
