//! Latency histograms.

use vstd::prelude::*;

verus! {

/// The bucket of a value, among the first `count`: the last one that starts at
/// or below it, or the first one.
pub open spec fn bucket_of(value: u64, buckets: Seq<u64>, count: int) -> int
    decreases count,
{
    if count <= 1 {
        0
    } else if value >= buckets[count - 1] {
        count - 1
    } else {
        bucket_of(value, buckets, count - 1)
    }
}

/// How many of the values fall into bucket `i`.
pub open spec fn bucket_count(data: Seq<u64>, buckets: Seq<u64>, i: int) -> nat
    decreases data.len(),
{
    if data.len() == 0 {
        0
    } else {
        let rest = bucket_count(data.drop_last(), buckets, i);
        if bucket_of(data.last(), buckets, buckets.len() as int) == i {
            rest + 1
        } else {
            rest
        }
    }
}

/// The bucket of a value is the last one that starts at or below it, or the first one,
/// and no other.
pub proof fn lemma_bucket_of(value: u64, buckets: Seq<u64>, i: int)
    requires
        buckets.len() > 0,
    ensures
        bucket_of(value, buckets, buckets.len() as int) == i <==> {
            &&& 0 <= i < buckets.len()
            &&& i == 0 || buckets[i] <= value
            &&& forall|j: int| i < j < buckets.len() ==> value < #[trigger] buckets[j]
        },
{
    lemma_bucket_below(value, buckets, buckets.len() as int);
}

proof fn lemma_bucket_below(value: u64, buckets: Seq<u64>, count: int)
    requires
        1 <= count <= buckets.len(),
    ensures
        ({
            let b = bucket_of(value, buckets, count);
            &&& 0 <= b < count
            &&& b == 0 || buckets[b] <= value
            &&& forall|j: int| b < j < count ==> value < #[trigger] buckets[j]
        }),
    decreases count,
{
    if count > 1 {
        lemma_bucket_below(value, buckets, count - 1);
    }
}

/// A value counts once in the bucket that it falls into, and nowhere else.
pub proof fn lemma_value_counts_once(data: Seq<u64>, value: u64, buckets: Seq<u64>, i: int)
    requires
        buckets.len() > 0,
    ensures
        bucket_count(Seq::empty(), buckets, i) == 0,
        ({
            let falls_here = 0 <= i < buckets.len() && (i == 0 || buckets[i] <= value) && forall|
                j: int,
            |
                i < j < buckets.len() ==> value < #[trigger] buckets[j];
            bucket_count(data.push(value), buckets, i) == bucket_count(data, buckets, i) + (
            if falls_here {
                1int
            } else {
                0int
            })
        }),
{
    lemma_bucket_of(value, buckets, i);
    assert(data.push(value).drop_last() =~= data);
    assert(data.push(value).last() == value);
}

/// A count is at most the number of values.
proof fn lemma_count_bound(data: Seq<u64>, buckets: Seq<u64>, i: int)
    ensures
        bucket_count(data, buckets, i) <= data.len(),
    decreases data.len(),
{
    if data.len() > 0 {
        lemma_count_bound(data.drop_last(), buckets, i);
    }
}

/// The bucket of a value.
pub fn find_bucket(value: u64, buckets: &[u64]) -> (bucket: usize)
    requires
        buckets@.len() > 0,
    ensures
        bucket == bucket_of(value, buckets@, buckets@.len() as int),
        bucket < buckets@.len(),
        bucket == 0 || buckets@[bucket as int] <= value,
        forall|j: int| bucket < j < buckets@.len() ==> value < #[trigger] buckets@[j],
{
    proof {
        lemma_bucket_below(value, buckets@, buckets@.len() as int);
    }
    let mut i: usize = buckets.len();
    while i > 1
        invariant
            1 <= i <= buckets@.len(),
            bucket_of(value, buckets@, buckets@.len() as int) == bucket_of(
                value,
                buckets@,
                i as int,
            ),
        decreases i,
    {
        if value >= buckets[i - 1] {
            proof {
                lemma_bucket_below(value, buckets@, buckets@.len() as int);
            }
            return i - 1;
        }
        i -= 1;
    }
    0
}

/// Count the values by buckets.
pub fn to_histogram(data: &[u64], buckets: &[u64]) -> (counts: Vec<u64>)
    requires
        buckets@.len() > 0 || data@.len() == 0,
        data@.len() <= u64::MAX,
    ensures
        counts@.len() == buckets@.len(),
        forall|i: int|
            0 <= i < buckets@.len() ==> #[trigger] counts@[i] == bucket_count(data@, buckets@, i),
{
    let mut counts: Vec<u64> = Vec::new();
    let mut k: usize = 0;
    while k < buckets.len()
        invariant
            k <= buckets@.len(),
            counts@.len() == k,
            forall|i: int| 0 <= i < k ==> #[trigger] counts@[i] == 0,
        decreases buckets@.len() - k,
    {
        counts.push(0);
        k += 1;
    }
    let mut n: usize = 0;
    while n < data.len()
        invariant
            n <= data@.len(),
            data@.len() <= u64::MAX,
            buckets@.len() > 0 || data@.len() == 0,
            counts@.len() == buckets@.len(),
            forall|i: int|
                0 <= i < buckets@.len() ==> #[trigger] counts@[i] == bucket_count(
                    data@.take(n as int),
                    buckets@,
                    i,
                ),
        decreases data@.len() - n,
    {
        let bucket: usize = find_bucket(data[n], buckets);
        proof {
            let seen = data@.take(n as int + 1);
            assert(seen.drop_last() =~= data@.take(n as int));
            assert(seen.last() == data@[n as int]);
            lemma_count_bound(data@.take(n as int), buckets@, bucket as int);
        }
        let count: u64 = counts[bucket];
        counts[bucket] = count + 1;
        n += 1;
    }
    assert(data@.take(n as int) =~= data@);
    counts
}

/// The sum of the counts of the first `count` buckets.
pub open spec fn count_sum(data: Seq<u64>, buckets: Seq<u64>, count: int) -> nat
    decreases count,
{
    if count <= 0 {
        0
    } else {
        count_sum(data, buckets, count - 1) + bucket_count(data, buckets, count - 1)
    }
}

/// The bucket of a value is one of the buckets.
proof fn lemma_bucket_exists(value: u64, buckets: Seq<u64>, count: int)
    requires
        count >= 1,
    ensures
        0 <= bucket_of(value, buckets, count) < count,
    decreases count,
{
    if count > 1 {
        lemma_bucket_exists(value, buckets, count - 1);
    }
}

/// One more value makes one count larger by one.
proof fn lemma_sum_step(data: Seq<u64>, buckets: Seq<u64>, count: int)
    requires
        data.len() > 0,
    ensures
        count_sum(data, buckets, count) == count_sum(data.drop_last(), buckets, count) + (if 0
            <= bucket_of(data.last(), buckets, buckets.len() as int) < count {
            1int
        } else {
            0int
        }),
    decreases count,
{
    if count > 0 {
        lemma_sum_step(data, buckets, count - 1);
    }
}

/// Every value is counted once: the counts add up to the number of values.
pub proof fn lemma_counts_add_up(data: Seq<u64>, buckets: Seq<u64>)
    requires
        buckets.len() > 0,
    ensures
        count_sum(data, buckets, buckets.len() as int) == data.len(),
    decreases data.len(),
{
    if data.len() > 0 {
        lemma_counts_add_up(data.drop_last(), buckets);
        lemma_sum_step(data, buckets, buckets.len() as int);
        lemma_bucket_exists(data.last(), buckets, buckets.len() as int);
    } else {
        lemma_empty_sum(data, buckets, buckets.len() as int);
    }
}

proof fn lemma_empty_sum(data: Seq<u64>, buckets: Seq<u64>, count: int)
    requires
        data.len() == 0,
    ensures
        count_sum(data, buckets, count) == 0,
    decreases count,
{
    if count > 0 {
        lemma_empty_sum(data, buckets, count - 1);
    }
}

} // verus!
