//! Sharding of account lists: identities are spread over a fixed number of
//! buckets by their first byte, and each bucket becomes one record.

use vstd::prelude::*;
use vstd::slice::slice_to_vec;
use crate::error::EncodeError;
use crate::hashing::{account_id, account_id_of};
use crate::length_prefix::{fits, oversize};
use crate::order::{
    byte_strings, encode_sorted, lemma_canonical_ignores_order, lemma_sorted_concat_len,
    sorted_concat,
};
use crate::permutation::{lemma_filter_ignores_order, lemma_map_ignores_order};
use crate::profile::Profile;
use crate::record::Record;

verus! {

/// The bucket that an account identity is routed to: its first byte, modulo
/// the number of buckets.
pub open spec fn bucket_index_of(id: Seq<u8>, bucket_count: u8) -> int
    recommends
        id.len() >= 1,
        bucket_count >= 1,
{
    (id[0] as int) % (bucket_count as int)
}

/// The test that picks the identities routed to bucket `index`.
pub open spec fn routed_to(bucket_count: u8, index: int) -> spec_fn(Seq<u8>) -> bool {
    |id: Seq<u8>| bucket_index_of(id, bucket_count) == index
}

/// The identities routed to bucket `index`, in the order they were given.
pub open spec fn bucket_members(ids: Seq<Seq<u8>>, bucket_count: u8, index: int) -> Seq<Seq<u8>> {
    ids.filter(routed_to(bucket_count, index))
}

/// The content of bucket `index`: its members in ascending order, one after
/// another.
pub open spec fn bucket_payload(ids: Seq<Seq<u8>>, bucket_count: u8, index: int) -> Seq<u8> {
    sorted_concat(bucket_members(ids, bucket_count, index))
}

/// Whether bucket `index` receives more members than a bucket may hold.
pub open spec fn overflows(ids: Seq<Seq<u8>>, profile: Profile, index: int) -> bool {
    bucket_members(ids, profile.bucket_count, index).len() > profile.bucket_capacity
}

/// Whether the content of bucket `index` is too long for a record.
pub open spec fn outgrows(ids: Seq<Seq<u8>>, profile: Profile, index: int) -> bool {
    !fits(bucket_payload(ids, profile.bucket_count, index).len(), profile.witness_size_limit)
}

/// The identities under which a list of account names is stored.
pub open spec fn account_ids_of(names: Seq<Seq<u8>>, id_len: nat) -> Seq<Seq<u8>> {
    names.map_values(|name: Seq<u8>| account_id_of(name, id_len))
}

/// What sharding the identities `ids` under `profile` must give.
///
/// Success is one record per bucket, in bucket order, none over capacity and
/// none too long. An overflowing bucket always wins: the lowest such bucket
/// is reported with its true member count. Only when no bucket overflows can
/// the lowest bucket whose content is too long be reported.
pub open spec fn sharded(ids: Seq<Seq<u8>>, profile: Profile, res: Result<Vec<Record>, EncodeError>) -> bool {
    match res {
        Ok(records) => {
            &&& records@.len() == profile.bucket_count
            &&& forall|i: int| 0 <= i < profile.bucket_count ==> !#[trigger] overflows(ids, profile, i)
            &&& forall|i: int| 0 <= i < profile.bucket_count ==> !#[trigger] outgrows(ids, profile, i)
            &&& forall|i: int|
                0 <= i < profile.bucket_count ==> {
                    &&& (#[trigger] records@[i]).category == profile.bucket_category_of(i)
                    &&& records@[i].payload@ == bucket_payload(ids, profile.bucket_count, i)
                }
        },
        Err(EncodeError::BucketOverflow { bucket_index, count, capacity }) => {
            &&& bucket_index < profile.bucket_count
            &&& capacity == profile.bucket_capacity
            &&& count == bucket_members(ids, profile.bucket_count, bucket_index as int).len()
            &&& overflows(ids, profile, bucket_index as int)
            &&& forall|j: int| 0 <= j < bucket_index ==> !#[trigger] overflows(ids, profile, j)
        },
        Err(e) => {
            &&& forall|j: int| 0 <= j < profile.bucket_count ==> !#[trigger] overflows(ids, profile, j)
            &&& exists|i: int|
                {
                    &&& 0 <= i < profile.bucket_count
                    &&& #[trigger] outgrows(ids, profile, i)
                    &&& e == oversize(
                        bucket_payload(ids, profile.bucket_count, i).len(),
                        profile.witness_size_limit,
                    )
                    &&& forall|j: int| 0 <= j < i ==> !#[trigger] outgrows(ids, profile, j)
                }
        },
    }
}

/// The content of a bucket depends on which identities were given, not on
/// the order they were given in.
pub proof fn lemma_bucket_ignores_order(a: Seq<Seq<u8>>, b: Seq<Seq<u8>>, bucket_count: u8, index: int)
    requires
        a.to_multiset() == b.to_multiset(),
    ensures
        bucket_payload(a, bucket_count, index) == bucket_payload(b, bucket_count, index),
        bucket_members(a, bucket_count, index).len() == bucket_members(b, bucket_count, index).len(),
{
    lemma_filter_ignores_order(a, b, routed_to(bucket_count, index));
    let ma = bucket_members(a, bucket_count, index);
    let mb = bucket_members(b, bucket_count, index);
    lemma_canonical_ignores_order(ma, mb);
    ma.to_multiset_ensures();
    mb.to_multiset_ensures();
}

/// Sharding a list of account names gives the same buckets in whatever order
/// the names are listed.
pub proof fn lemma_shard_ignores_order(
    a: Seq<Seq<u8>>,
    b: Seq<Seq<u8>>,
    id_len: nat,
    bucket_count: u8,
    index: int,
)
    requires
        a.to_multiset() == b.to_multiset(),
    ensures
        bucket_payload(account_ids_of(a, id_len), bucket_count, index) == bucket_payload(
            account_ids_of(b, id_len),
            bucket_count,
            index,
        ),
{
    lemma_map_ignores_order(a, b, |name: Seq<u8>| account_id_of(name, id_len));
    lemma_bucket_ignores_order(
        account_ids_of(a, id_len),
        account_ids_of(b, id_len),
        bucket_count,
        index,
    );
}

/// Sharding is deterministic: two lists with the same identities, in
/// whatever order, give the same outcome, record by record and byte by
/// byte, or the same error.
pub proof fn lemma_sharded_ignores_order(
    a: Seq<Seq<u8>>,
    b: Seq<Seq<u8>>,
    profile: Profile,
    from_a: Result<Vec<Record>, EncodeError>,
    from_b: Result<Vec<Record>, EncodeError>,
)
    requires
        a.to_multiset() == b.to_multiset(),
        sharded(a, profile, from_a),
        sharded(b, profile, from_b),
    ensures
        from_a is Ok <==> from_b is Ok,
        from_a is Err ==> from_a->Err_0 == from_b->Err_0,
        from_a is Ok ==> {
            &&& from_a->Ok_0@.len() == from_b->Ok_0@.len()
            &&& forall|i: int|
                0 <= i < from_a->Ok_0@.len() ==> {
                    &&& (#[trigger] from_a->Ok_0@[i]).category == from_b->Ok_0@[i].category
                    &&& from_a->Ok_0@[i].payload@ == from_b->Ok_0@[i].payload@
                }
        },
{
    let count = profile.bucket_count;
    assert forall|i: int| #[trigger]
        overflows(a, profile, i) == overflows(b, profile, i) by {
        lemma_bucket_ignores_order(a, b, count, i);
    }
    assert forall|i: int| #[trigger]
        outgrows(a, profile, i) == outgrows(b, profile, i) by {
        lemma_bucket_ignores_order(a, b, count, i);
    }
    assert forall|i: int| #[trigger]
        bucket_payload(a, count, i) == bucket_payload(b, count, i) by {
        lemma_bucket_ignores_order(a, b, count, i);
    }
    match (from_a, from_b) {
        (Ok(ra), Ok(rb)) => {
            assert forall|i: int| 0 <= i < ra@.len() implies (#[trigger] ra@[i]).category
                == rb@[i].category && ra@[i].payload@ == rb@[i].payload@ by {
                assert(rb@[i].payload@ == bucket_payload(b, count, i));
            }
        },
        (Err(ea), Err(eb)) => {
            if ea is BucketOverflow {
                let ia = ea->bucket_index as int;
                assert(overflows(b, profile, ia));
                assert(eb is BucketOverflow);
                let ib = eb->bucket_index as int;
                assert(overflows(a, profile, ib));
                assert(ia == ib);
                lemma_bucket_ignores_order(a, b, count, ia);
            } else {
                assert(!(eb is BucketOverflow)) by {
                    if eb is BucketOverflow {
                        assert(overflows(a, profile, eb->bucket_index as int));
                    }
                }
                let ia = choose|i: int|
                    {
                        &&& 0 <= i < count
                        &&& #[trigger] outgrows(a, profile, i)
                        &&& ea == oversize(bucket_payload(a, count, i).len(), profile.witness_size_limit)
                        &&& forall|j: int| 0 <= j < i ==> !#[trigger] outgrows(a, profile, j)
                    };
                let ib = choose|i: int|
                    {
                        &&& 0 <= i < count
                        &&& #[trigger] outgrows(b, profile, i)
                        &&& eb == oversize(bucket_payload(b, count, i).len(), profile.witness_size_limit)
                        &&& forall|j: int| 0 <= j < i ==> !#[trigger] outgrows(b, profile, j)
                    };
                assert(outgrows(b, profile, ia));
                assert(outgrows(a, profile, ib));
                assert(ia == ib);
                assert(bucket_payload(a, count, ia) == bucket_payload(b, count, ia));
            }
        },
        (Ok(ra), Err(eb)) => {
            if eb is BucketOverflow {
                assert(overflows(a, profile, eb->bucket_index as int));
            } else {
                let ib = choose|i: int|
                    {
                        &&& 0 <= i < count
                        &&& #[trigger] outgrows(b, profile, i)
                        &&& eb == oversize(bucket_payload(b, count, i).len(), profile.witness_size_limit)
                        &&& forall|j: int| 0 <= j < i ==> !#[trigger] outgrows(b, profile, j)
                    };
                assert(outgrows(a, profile, ib));
            }
        },
        (Err(ea), Ok(rb)) => {
            if ea is BucketOverflow {
                assert(overflows(b, profile, ea->bucket_index as int));
            } else {
                let ia = choose|i: int|
                    {
                        &&& 0 <= i < count
                        &&& #[trigger] outgrows(a, profile, i)
                        &&& ea == oversize(bucket_payload(a, count, i).len(), profile.witness_size_limit)
                        &&& forall|j: int| 0 <= j < i ==> !#[trigger] outgrows(a, profile, j)
                    };
                assert(outgrows(b, profile, ia));
            }
        },
    }
}

/// A bucket over capacity is fatal: whenever some bucket receives more
/// members than it may hold, sharding fails with a bucket overflow, and the
/// count it reports is the true one. No record is ever made of a part of the
/// members.
pub proof fn lemma_overflow_is_fatal(
    ids: Seq<Seq<u8>>,
    profile: Profile,
    res: Result<Vec<Record>, EncodeError>,
    index: int,
)
    requires
        sharded(ids, profile, res),
        0 <= index < profile.bucket_count,
        overflows(ids, profile, index),
    ensures
        res is Err,
        res->Err_0 is BucketOverflow,
        res->Err_0->count > res->Err_0->capacity,
        res->Err_0->count == bucket_members(
            ids,
            profile.bucket_count,
            res->Err_0->bucket_index as int,
        ).len(),
{
}

/// The content of a bucket takes the width of an identity for each of its
/// members, when all identities have one width.
pub proof fn lemma_bucket_payload_len(ids: Seq<Seq<u8>>, bucket_count: u8, index: int, width: nat)
    requires
        forall|i: int| 0 <= i < ids.len() ==> (#[trigger] ids[i]).len() == width,
    ensures
        bucket_payload(ids, bucket_count, index).len() == width * bucket_members(
            ids,
            bucket_count,
            index,
        ).len(),
{
    let keep = routed_to(bucket_count, index);
    let members = bucket_members(ids, bucket_count, index);
    crate::permutation::lemma_filter_multiset(ids, keep);
    ids.to_multiset_ensures();
    members.to_multiset_ensures();
    assert forall|i: int| 0 <= i < members.len() implies (#[trigger] members[i]).len() == width by {
        assert(members.contains(members[i]));
        assert(members.to_multiset().count(members[i]) > 0);
        assert(ids.to_multiset().filter(keep).count(members[i]) > 0);
        assert(ids.to_multiset().count(members[i]) > 0);
        assert(ids.contains(members[i]));
        let k = choose|k: int| 0 <= k < ids.len() && ids[k] == members[i];
        assert(ids[k].len() == width);
    }
    lemma_sorted_concat_len(members, width);
}

/// The bucket that an account identity is routed to.
pub fn bucket_index(id: &[u8], bucket_count: u8) -> (index: u8)
    requires
        id@.len() >= 1,
        bucket_count >= 1,
    ensures
        index == bucket_index_of(id@, bucket_count),
        index < bucket_count,
{
    id[0] % bucket_count
}

/// Picks out the identities routed to bucket `index`, keeping their order.
pub fn collect_bucket(ids: &Vec<Vec<u8>>, bucket_count: u8, index: u8) -> (members: Vec<Vec<u8>>)
    requires
        bucket_count >= 1,
        forall|i: int| 0 <= i < ids@.len() ==> (#[trigger] ids@[i])@.len() >= 1,
    ensures
        byte_strings(members@) == bucket_members(byte_strings(ids@), bucket_count, index as int),
{
    let ghost all = byte_strings(ids@);
    let ghost keep = routed_to(bucket_count, index as int);
    let mut members: Vec<Vec<u8>> = Vec::new();
    let mut n: usize = 0;
    proof {
        assert(all.take(0) =~= Seq::<Seq<u8>>::empty());
        reveal(Seq::filter);
        assert(byte_strings(members@) =~= all.take(0).filter(keep));
    }
    while n < ids.len()
        invariant
            n <= ids@.len(),
            bucket_count >= 1,
            all == byte_strings(ids@),
            keep == routed_to(bucket_count, index as int),
            forall|i: int| 0 <= i < ids@.len() ==> (#[trigger] ids@[i])@.len() >= 1,
            byte_strings(members@) == all.take(n as int).filter(keep),
        decreases ids@.len() - n,
    {
        let ghost before = byte_strings(members@);
        proof {
            assert(all.take(n + 1) =~= all.take(n as int).push(all[n as int]));
            all.take(n as int).lemma_filter_push(all[n as int], keep);
        }
        if bucket_index(ids[n].as_slice(), bucket_count) == index {
            members.push(slice_to_vec(ids[n].as_slice()));
            assert(byte_strings(members@) =~= before.push(all[n as int]));
        }
        n += 1;
    }
    assert(all.take(ids@.len() as int) =~= all);
    members
}

/// Spreads account identities over the buckets of `profile` and makes one
/// record per bucket.
pub fn shard_ids(ids: &Vec<Vec<u8>>, profile: &Profile) -> (res: Result<Vec<Record>, EncodeError>)
    requires
        profile.valid(),
        forall|i: int| 0 <= i < ids@.len() ==> (#[trigger] ids@[i])@.len() >= 1,
    ensures
        sharded(byte_strings(ids@), *profile, res),
{
    let ghost all = byte_strings(ids@);
    let count: u8 = profile.bucket_count;
    let mut buckets: Vec<Vec<Vec<u8>>> = Vec::new();
    let mut b: u8 = 0;
    while b < count
        invariant
            b <= count,
            count == profile.bucket_count,
            profile.valid(),
            all == byte_strings(ids@),
            forall|i: int| 0 <= i < ids@.len() ==> (#[trigger] ids@[i])@.len() >= 1,
            buckets@.len() == b,
            forall|j: int|
                0 <= j < b ==> byte_strings((#[trigger] buckets@[j])@) == bucket_members(
                    all,
                    count,
                    j,
                ),
            forall|j: int| 0 <= j < b ==> !#[trigger] overflows(all, *profile, j),
        decreases count - b,
    {
        let members = collect_bucket(ids, count, b);
        assert(byte_strings(members@).len() == members@.len());
        if members.len() > profile.bucket_capacity {
            return Err(
                EncodeError::BucketOverflow {
                    bucket_index: b as usize,
                    count: members.len(),
                    capacity: profile.bucket_capacity,
                },
            );
        }
        buckets.push(members);
        b += 1;
    }
    let mut records: Vec<Record> = Vec::new();
    let mut k: u8 = 0;
    while k < count
        invariant
            k <= count,
            count == profile.bucket_count,
            profile.valid(),
            all == byte_strings(ids@),
            buckets@.len() == count,
            forall|j: int|
                0 <= j < count ==> byte_strings((#[trigger] buckets@[j])@) == bucket_members(
                    all,
                    count,
                    j,
                ),
            forall|j: int| 0 <= j < count ==> !#[trigger] overflows(all, *profile, j),
            records@.len() == k,
            forall|j: int| 0 <= j < k ==> !#[trigger] outgrows(all, *profile, j),
            forall|j: int|
                0 <= j < k ==> {
                    &&& (#[trigger] records@[j]).category == profile.bucket_category_of(j)
                    &&& records@[j].payload@ == bucket_payload(all, count, j)
                },
        decreases count - k,
    {
        let payload = encode_sorted(&buckets[k as usize]);
        proof {
            assert(byte_strings(buckets@[k as int]@) == bucket_members(all, count, k as int));
            assert(payload@ == bucket_payload(all, count, k as int));
        }
        match Record::new(profile.bucket_category(k), payload, profile.witness_size_limit) {
            Ok(record) => {
                records.push(record);
            },
            Err(e) => {
                assert(outgrows(all, *profile, k as int));
                return Err(e);
            },
        }
        k += 1;
    }
    Ok(records)
}

/// Hashes every account name into its identity.
pub fn account_ids(names: &Vec<Vec<u8>>, id_len: usize) -> (ids: Vec<Vec<u8>>)
    requires
        id_len <= 32,
    ensures
        byte_strings(ids@) == account_ids_of(byte_strings(names@), id_len as nat),
        forall|i: int| 0 <= i < ids@.len() ==> (#[trigger] ids@[i])@.len() == id_len,
{
    let mut ids: Vec<Vec<u8>> = Vec::new();
    let mut n: usize = 0;
    while n < names.len()
        invariant
            n <= names@.len(),
            id_len <= 32,
            ids@.len() == n,
            forall|i: int|
                0 <= i < n ==> (#[trigger] ids@[i])@ == account_id_of(names@[i]@, id_len as nat),
            forall|i: int| 0 <= i < n ==> (#[trigger] ids@[i])@.len() == id_len,
        decreases names@.len() - n,
    {
        ids.push(account_id(names[n].as_slice(), id_len));
        n += 1;
    }
    assert(byte_strings(ids@) =~= account_ids_of(byte_strings(names@), id_len as nat));
    ids
}

/// Shards a list of account names: every name is hashed into its identity,
/// routed to a bucket by the first byte of that identity, and each bucket
/// becomes one record holding its identities in ascending order.
pub fn shard(accounts: &Vec<Vec<u8>>, profile: &Profile) -> (res: Result<Vec<Record>, EncodeError>)
    requires
        profile.valid(),
    ensures
        sharded(
            account_ids_of(byte_strings(accounts@), profile.account_id_length as nat),
            *profile,
            res,
        ),
{
    let ids = account_ids(accounts, profile.account_id_length);
    shard_ids(&ids, profile)
}

} // verus!
