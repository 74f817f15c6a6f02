//! How the lists of objects are split in shards, and how shards are picked.

use fastrand::Rng;
use vstd::prelude::*;

verus! {

/// The number of shards of each list of objects.
pub const OBJ_BATCHES_SHARD: usize = 8;

/// `fastrand::Rng`, a generator of random numbers.
#[verifier::external_type_specification]
#[verifier::external_body]
pub struct ExRng(Rng);

/// `Rng::new` makes a generator from a random seed.
#[verifier::external_body]
fn rng_new() -> (r: Rng) {
    Rng::new()
}

/// `Rng::usize` of `0..n` is some number below `n`, by chance. It panics where there is none.
#[verifier::external_body]
fn rng_usize(rng: &mut Rng, n: usize) -> (r: usize)
    requires
        n > 0,
    ensures
        r < n,
{
    rng.usize(0..n)
}

/// `Rng::shuffle` puts the items of a slice in some other order.
#[verifier::external_body]
fn rng_shuffle(rng: &mut Rng, items: &mut [usize; 8])
    ensures
        final(items)@.to_multiset() == old(items)@.to_multiset(),
{
    rng.shuffle(items)
}

/// Picks shards at random.
pub struct ShardPicker {
    rng: Rng,
}

/// Every shard stands in the sequence once.
pub open spec fn is_shard_permutation(s: Seq<usize>) -> bool {
    &&& s.len() == OBJ_BATCHES_SHARD
    &&& forall|i: int| 0 <= i < s.len() ==> s[i] < OBJ_BATCHES_SHARD
    &&& forall|q: usize| q < OBJ_BATCHES_SHARD ==> s.contains(q)
    &&& s.no_duplicates()
}

impl ShardPicker {
    /// A picker with a random seed, of which nothing is known.
    pub fn new() -> (r: Self) {
        ShardPicker { rng: rng_new() }
    }

    /// Some shard. Which one is left to chance.
    pub fn select_obj_shard(&mut self) -> (r: usize)
        ensures
            r < OBJ_BATCHES_SHARD,
    {
        rng_usize(&mut self.rng, OBJ_BATCHES_SHARD)
    }

    /// All shards in some order.
    pub fn generate_shard_permut(&mut self) -> (r: [usize; 8])
        ensures
            is_shard_permutation(r@),
    {
        let mut result: [usize; 8] = [0, 1, 2, 3, 4, 5, 6, 7];
        let ghost before = result@;
        rng_shuffle(&mut self.rng, &mut result);
        proof {
            lemma_permutation(before, result@);
        }
        result
    }
}

proof fn lemma_permutation(before: Seq<usize>, after: Seq<usize>)
    requires
        before.len() == 8,
        forall|i: int| 0 <= i < 8 ==> before[i] == i,
        after.to_multiset() == before.to_multiset(),
    ensures
        is_shard_permutation(after),
{
    broadcast use vstd::seq_lib::group_to_multiset_ensures;

    vstd::seq_lib::to_multiset_len(before);
    vstd::seq_lib::to_multiset_len(after);
    assert forall|i: int| 0 <= i < after.len() implies after[i] < 8 by {
        assert(after.to_multiset().count(after[i]) > 0);
        assert(before.contains(after[i]));
    }
    assert forall|q: usize| q < 8 implies after.contains(q) by {
        assert(before[q as int] == q);
        assert(before.to_multiset().count(q) > 0);
    }
    assert(before.no_duplicates());
    before.lemma_multiset_has_no_duplicates();
    after.lemma_multiset_has_no_duplicates_conv();
}

/// The shards that one of several threads works on: as many as evenly go, and the last thread
/// takes the rest.
pub fn shard_range(thread_idx: usize, num_threads: usize) -> (r: (usize, usize))
    requires
        thread_idx < num_threads,
        num_threads <= OBJ_BATCHES_SHARD,
    ensures
        r.0 == shard_start(thread_idx as int, num_threads as int),
        r.1 == shard_end(thread_idx as int, num_threads as int),
        r.0 <= r.1 <= OBJ_BATCHES_SHARD,
{
    let base: usize = OBJ_BATCHES_SHARD / num_threads;
    proof {
        lemma_shard_bounds(thread_idx as int, num_threads as int);
    }
    let start: usize = thread_idx * base;
    let end: usize = if thread_idx == num_threads - 1 {
        OBJ_BATCHES_SHARD
    } else {
        start + base
    };
    (start, end)
}

/// The first shard of a thread.
pub open spec fn shard_start(thread_idx: int, num_threads: int) -> int {
    thread_idx * (8int / num_threads)
}

/// The end of the shards of a thread.
pub open spec fn shard_end(thread_idx: int, num_threads: int) -> int {
    if thread_idx == num_threads - 1 {
        8
    } else {
        shard_start(thread_idx + 1, num_threads)
    }
}

proof fn lemma_shard_bounds(i: int, n: int)
    requires
        0 <= i < n <= 8,
    ensures
        0 <= shard_start(i, n) <= shard_end(i, n) <= 8,
        shard_start(i + 1, n) == shard_start(i, n) + 8int / n,
        shard_start(i + 1, n) <= 8,
        shard_start(0, n) == 0,
{
    assert(0 * (8int / n) == 0) by (nonlinear_arith);
    assert(0 <= i * (8int / n) && (i + 1) * (8int / n) <= 8 && (i + 1) * (8int / n) == i * (8int
        / n) + 8int / n) by (nonlinear_arith)
        requires
            0 <= i < n <= 8,
    {
        assert(n * (8int / n) <= 8);
        assert((i + 1) * (8int / n) <= n * (8int / n));
    }
}

/// Whatever the number of threads, every shard belongs to exactly one of them.
pub proof fn law_shard_ranges_partition(num_threads: int, shard: int)
    requires
        1 <= num_threads <= OBJ_BATCHES_SHARD,
        0 <= shard < OBJ_BATCHES_SHARD,
    ensures
        exists|t: int|
            0 <= t < num_threads && #[trigger] shard_start(t, num_threads) <= shard < shard_end(
                t,
                num_threads,
            ),
        forall|t: int, u: int|
            0 <= t < num_threads && 0 <= u < num_threads && #[trigger] shard_start(t, num_threads)
                <= shard < shard_end(t, num_threads) && #[trigger] shard_start(u, num_threads)
                <= shard < shard_end(u, num_threads) ==> t == u,
{
    let n = num_threads;
    let base = 8int / n;
    assert(base >= 1) by (nonlinear_arith)
        requires
            1 <= n <= 8,
            base == 8int / n,
    ;
    let q = shard / base;
    let t = if q < n {
        q
    } else {
        n - 1
    };
    assert(0 <= q && q * base <= shard < (q + 1) * base) by (nonlinear_arith)
        requires
            base >= 1,
            q == shard / base,
            0 <= shard,
    ;
    if q >= n {
        assert((n - 1) * base <= q * base) by (nonlinear_arith)
            requires
                q >= n,
                base >= 1,
        ;
    }
    assert(shard_start(t, n) <= shard < shard_end(t, n));
    assert forall|t: int, u: int|
        0 <= t < n && 0 <= u < n && #[trigger] shard_start(t, n) <= shard < shard_end(t, n)
            && #[trigger] shard_start(u, n) <= shard < shard_end(u, n) implies t == u by {
        if t < u {
            assert((t + 1) * base <= u * base) by (nonlinear_arith)
                requires
                    t < u,
                    base >= 1,
            ;
        }
        if u < t {
            assert((u + 1) * base <= t * base) by (nonlinear_arith)
                requires
                    u < t,
                    base >= 1,
            ;
        }
    }
}

/// The number held within two bounds.
pub open spec fn clamped(x: usize, low: usize, high: usize) -> usize {
    if x < low {
        low
    } else if x > high {
        high
    } else {
        x
    }
}

/// The number held within two bounds.
pub fn clamp(x: usize, low: usize, high: usize) -> (r: usize)
    requires
        low <= high,
    ensures
        r == clamped(x, low, high),
        low <= r <= high,
{
    if x < low {
        low
    } else if x > high {
        high
    } else {
        x
    }
}

/// The default number of collector threads: one-eighth of the available parallelism, at least one
/// and at most the number of shards. A platform that cannot report its parallelism counts as one.
pub fn default_collector_threads(parallelism: Option<usize>) -> (r: usize)
    ensures
        r == clamped(
            match parallelism {
                Some(n) => (n / 8) as usize,
                None => 0,
            },
            1,
            OBJ_BATCHES_SHARD,
        ),
        1 <= r <= OBJ_BATCHES_SHARD,
{
    let n: usize = match parallelism {
        Some(n) => n,
        None => 1,
    };
    clamp(n / 8, 1, OBJ_BATCHES_SHARD)
}

/// A permutation of the shards holds each of the numbers from zero to seven at exactly one place,
/// and nothing else.
pub proof fn law_permutations_hold_every_shard_once(s: Seq<usize>)
    ensures
        is_shard_permutation(s) <==> {
            &&& s.len() == 8
            &&& forall|q: usize| q < 8 ==> #[trigger] s.to_multiset().count(q) == 1
        },
{
    broadcast use vstd::seq_lib::group_to_multiset_ensures;

    let all = seq![0usize, 1, 2, 3, 4, 5, 6, 7];
    if is_shard_permutation(s) {
        s.lemma_multiset_has_no_duplicates();
        assert forall|q: usize| q < 8 implies #[trigger] s.to_multiset().count(q) == 1 by {
            assert(s.contains(q));
        }
    }
    if s.len() == 8 && forall|q: usize| q < 8 ==> #[trigger] s.to_multiset().count(q) == 1 {
        assert(all.no_duplicates());
        all.lemma_multiset_has_no_duplicates();
        let m = s.to_multiset();
        let n = all.to_multiset();
        assert(n.subset_of(m)) by {
            assert forall|q: usize| n.count(q) <= m.count(q) by {
                if n.count(q) > 0 {
                    assert(all.contains(q));
                    assert(q < 8);
                    assert(m.count(q) == 1);
                }
            }
        }
        vstd::seq_lib::to_multiset_len(s);
        vstd::seq_lib::to_multiset_len(all);
        assert(m.len() == n.len());
        assert(m.sub(n).len() == 0);
        assert(m =~= n) by {
            assert forall|q: usize| m.count(q) == n.count(q) by {
                if m.count(q) > n.count(q) {
                    assert(m.sub(n).count(q) > 0);
                    assert(m.sub(n) =~= vstd::multiset::Multiset::empty());
                }
            }
        }
        lemma_permutation(all, s);
    }
}

/// The first thread begins with the first shard, each goes on where the one before it ends, and
/// the last goes to the end. All but the last take as many shards as evenly go.
pub proof fn law_shard_ranges_are_even(thread: usize, threads: usize, r: (usize, usize))
    requires
        1 <= threads <= 8,
        thread < threads,
        call_ensures(shard_range, (thread, threads), r),
    ensures
        thread == 0 ==> r.0 == 0,
        thread + 1 == threads ==> r.1 == 8,
        thread + 1 < threads ==> r.1 - r.0 == 8int / threads as int,
        r.1 - r.0 >= 8int / threads as int,
        forall|s: (usize, usize)|
            thread + 1 < threads && #[trigger] call_ensures(
                shard_range,
                ((thread + 1) as usize, threads),
                s,
            ) ==> s.0 == r.1,
{
    lemma_shard_bounds(thread as int, threads as int);
}

/// By default there is one collector thread for every eight processors, but at least one and at
/// most eight, and one where their number is not known.
pub proof fn law_default_threads(parallelism: Option<usize>, r: usize)
    requires
        call_ensures(default_collector_threads, (parallelism,), r),
    ensures
        1 <= r <= 8,
        parallelism is None ==> r == 1,
        parallelism matches Some(n) ==> {
            &&& n < 16 ==> r == 1
            &&& 8 <= n <= 64 ==> r * 8 <= n < (r + 1) * 8
            &&& n >= 64 ==> r == 8
        },
{
}

} // verus!
