//! Splits the data file into newline-terminated records and checksums them.
//!
//! A record is the bytes from the end of the previous record (or offset 0)
//! up to and including its terminating `\n`; its end offset is the offset just
//! after that `\n`, and its checksum is the XXH3 64-bit hash of exactly those
//! bytes. Bytes after the last `\n` are a record still being written.
use vstd::prelude::*;

verus! {

/// End offsets of the records that start at `i`: one per `\n` at or after `i`.
pub open spec fn ends_from(data: Seq<u8>, i: int) -> Seq<int>
    decreases data.len() - i,
{
    if i < 0 || i >= data.len() {
        seq![]
    } else if data[i] == 10 {
        seq![i + 1] + ends_from(data, i + 1)
    } else {
        ends_from(data, i + 1)
    }
}

/// Start offset of record `i` given the end offsets.
pub open spec fn record_start(ends: Seq<u64>, i: int) -> int {
    if i <= 0 {
        0
    } else {
        ends[i - 1] as int
    }
}

/// The XXH3 64-bit hash (seed 0) of `b`.
pub uninterp spec fn xxh3_64_of(b: Seq<u8>) -> u64;

/// Relies on `xxhash_rust::xxh3::xxh3_64`: the hash of the given bytes, which
/// depends on those bytes alone.
#[verifier::external_body]
pub(crate) fn checksum(data: &[u8], start: usize, end: usize) -> (r: u64)
    requires
        start <= end <= data@.len(),
    ensures
        r == xxh3_64_of(data@.subrange(start as int, end as int)),
{
    xxhash_rust::xxh3::xxh3_64(&data[start..end])
}

/// Offset of the first `\n` at or after `from`, or the length when none.
pub fn next_newline(data: &[u8], from: usize) -> (r: usize)
    requires
        from <= data@.len(),
    ensures
        from <= r <= data@.len(),
        r < data@.len() ==> data@[r as int] == 10,
        forall|k: int| from <= k < r ==> data@[k] != 10,
{
    let mut k = from;
    while k < data.len() && data[k] != 10
        invariant
            from <= k <= data@.len(),
            forall|j: int| from <= j < k ==> data@[j] != 10,
        decreases data@.len() - k,
    {
        k += 1;
    }
    k
}

/// With no `\n` in `[i, k)` and one at `k`, the next record from `i` ends at `k + 1`.
pub proof fn lemma_ends_from_step(data: Seq<u8>, i: int, k: int)
    requires
        0 <= i <= k < data.len(),
        data[k] == 10,
        forall|j: int| i <= j < k ==> data[j] != 10,
    ensures
        ends_from(data, i) == seq![k + 1] + ends_from(data, k + 1),
    decreases k - i,
{
    if i < k {
        lemma_ends_from_step(data, i + 1, k);
    }
}

/// With no `\n` from `i` on, no record ends there.
pub proof fn lemma_ends_from_none(data: Seq<u8>, i: int)
    requires
        0 <= i <= data.len(),
        forall|j: int| i <= j < data.len() ==> data[j] != 10,
    ensures
        ends_from(data, i) == Seq::<int>::empty(),
    decreases data.len() - i,
{
    if i < data.len() {
        lemma_ends_from_none(data, i + 1);
    }
}

/// Every record found from `i` on ends just after a `\n`, holds no other
/// `\n`, and ends after the previous one: the first record's end is the
/// length of that record with its separator, counted from `i`.
pub proof fn law_record_boundaries(data: Seq<u8>, i: int)
    requires
        0 <= i <= data.len(),
    ensures
        forall|k: int| #![trigger ends_from(data, i)[k]]
            0 <= k < ends_from(data, i).len() ==> {
                let start = if k == 0 {
                    i
                } else {
                    ends_from(data, i)[k - 1]
                };
                &&& start < ends_from(data, i)[k] <= data.len()
                &&& data[ends_from(data, i)[k] - 1] == 10
                &&& forall|j: int| start <= j < ends_from(data, i)[k] - 1 ==> data[j] != 10
            },
    decreases data.len() - i,
{
    if i < data.len() {
        law_record_boundaries(data, i + 1);
        let rest = ends_from(data, i + 1);
        let all = ends_from(data, i);
        assert forall|k: int| #![trigger all[k]] 0 <= k < all.len() implies {
            let start = if k == 0 {
                i
            } else {
                all[k - 1]
            };
            &&& start < all[k] <= data.len()
            &&& data[all[k] - 1] == 10
            &&& forall|j: int| start <= j < all[k] - 1 ==> data[j] != 10
        } by {
            if data[i] == 10 {
                if k > 0 {
                    assert(all[k] == rest[k - 1]);
                    if k > 1 {
                        assert(all[k - 1] == rest[k - 2]);
                    }
                }
            } else {
                assert(all[k] == rest[k]);
                if k > 0 {
                    assert(all[k - 1] == rest[k - 1]);
                }
            }
        }
    }
}

/// Appending one complete record (its only `\n` at its end) to data whose
/// records were all indexed adds exactly one record, ending at the new length.
pub proof fn law_append_one_record(old_data: Seq<u8>, record: Seq<u8>)
    requires
        record.len() > 0,
        record.last() == 10,
        forall|j: int| 0 <= j < record.len() - 1 ==> record[j] != 10,
    ensures
        ends_from(old_data + record, old_data.len() as int) == seq![(old_data.len() + record.len()) as int],
{
    let data = old_data + record;
    let k = data.len() - 1;
    assert forall|j: int| old_data.len() <= j < k implies data[j] != 10 by {
        assert(data[j] == record[j - old_data.len()]);
    }
    lemma_ends_from_step(data, old_data.len() as int, k);
    lemma_ends_from_none(data, k + 1);
    assert(ends_from(data, old_data.len() as int) =~= seq![(old_data.len() + record.len()) as int]);
}

} // verus!
