//! Sums of multisets.

use vstd::multiset::Multiset;
use vstd::prelude::*;

verus! {

/// The sum of a sequence of multisets.
pub open spec fn bag_sum(s: Seq<Multiset<u64>>) -> Multiset<u64>
    decreases s.len(),
{
    if s.len() == 0 {
        Multiset::empty()
    } else {
        bag_sum(s.drop_last()).add(s.last())
    }
}

pub proof fn lemma_bag_sum_push(s: Seq<Multiset<u64>>, m: Multiset<u64>)
    ensures
        bag_sum(s.push(m)) == bag_sum(s).add(m),
{
    assert(s.push(m).drop_last() =~= s);
}

pub proof fn lemma_bag_sum_update(s: Seq<Multiset<u64>>, i: int, m: Multiset<u64>, x: u64)
    requires
        0 <= i < s.len(),
    ensures
        bag_sum(s.update(i, m)).count(x) + s[i].count(x) == bag_sum(s).count(x) + m.count(x),
        s[i].count(x) <= bag_sum(s).count(x),
    decreases s.len(),
{
    let t = s.update(i, m);
    if i == s.len() - 1 {
        assert(t.drop_last() =~= s.drop_last());
    } else {
        assert(t.drop_last() =~= s.drop_last().update(i, m));
        lemma_bag_sum_update(s.drop_last(), i, m, x);
    }
}

/// The sum without the first multiset.
pub proof fn lemma_bag_sum_first(s: Seq<Multiset<u64>>)
    requires
        s.len() > 0,
    ensures
        bag_sum(s) =~= s[0].add(bag_sum(s.subrange(1, s.len() as int))),
    decreases s.len(),
{
    let t = s.subrange(1, s.len() as int);
    if s.len() > 1 {
        lemma_bag_sum_first(s.drop_last());
        assert(t.drop_last() =~= s.drop_last().subrange(1, s.len() - 1));
        assert(t.last() == s.last());
    } else {
        assert(s.drop_last() =~= Seq::empty());
        assert(t =~= Seq::empty());
    }
}

/// A sum has something only if one of its parts has.
pub proof fn lemma_bag_sum_witness(s: Seq<Multiset<u64>>, x: u64)
    requires
        bag_sum(s).count(x) > 0,
    ensures
        exists|i: int| 0 <= i < s.len() && (#[trigger] s[i]).count(x) > 0,
    decreases s.len(),
{
    if s.len() > 0 {
        if s.last().count(x) > 0 {
            assert(s[s.len() - 1].count(x) > 0);
        } else {
            lemma_bag_sum_witness(s.drop_last(), x);
            let i = choose|i: int|
                0 <= i < s.drop_last().len() && (#[trigger] s.drop_last()[i]).count(x) > 0;
            assert(s[i].count(x) > 0);
        }
    }
}

/// A sum of empty multisets is empty.
pub proof fn lemma_bag_sum_empty(s: Seq<Multiset<u64>>)
    requires
        forall|i: int| 0 <= i < s.len() ==> #[trigger] s[i] == Multiset::<u64>::empty(),
    ensures
        bag_sum(s) == Multiset::<u64>::empty(),
{
    assert forall|x: u64| #[trigger] bag_sum(s).count(x) == 0 by {
        if bag_sum(s).count(x) > 0 {
            lemma_bag_sum_witness(s, x);
        }
    }
    assert(bag_sum(s) =~= Multiset::<u64>::empty());
}

} // verus!
