//! Sorting by a total order of keys.
use vstd::prelude::*;
use vstd::relations::*;

verus! {

/// A type whose values are ordered by a key.
pub trait Sortable: Sized {
    type Key;

    /// What two values are compared by.
    spec fn key(self) -> Self::Key;

    /// Whether `a` may stand before `b`.
    spec fn leq(a: Self::Key, b: Self::Key) -> bool;

    /// `leq` is a total order.
    proof fn leq_is_total_ordering()
        ensures
            total_ordering(|a: Self::Key, b: Self::Key| Self::leq(a, b)),
    ;

    /// Whether `self` may stand before `other`.
    fn at_most(&self, other: &Self) -> (r: bool)
        ensures
            r == Self::leq(self.key(), other.key()),
    ;
}

/// The keys of the values in `s`.
pub open spec fn keys<T: Sortable>(s: Seq<T>) -> Seq<T::Key> {
    s.map_values(|x: T| x.key())
}

/// The sequence of keys `ks` in ascending order.
pub open spec fn sorted<T: Sortable>(ks: Seq<T::Key>) -> Seq<T::Key> {
    ks.sort_by(|a: T::Key, b: T::Key| T::leq(a, b))
}

/// Sorts `v` by the order of the keys of its elements.
pub fn sort<T: Sortable>(v: &mut Vec<T>)
    ensures
        keys(final(v)@) == sorted::<T>(keys(old(v)@)),
{
    let ghost leq = |a: T::Key, b: T::Key| T::leq(a, b);
    proof {
        T::leq_is_total_ordering();
        broadcast use vstd::seq_lib::group_to_multiset_ensures;
        assert(keys(Seq::<T>::empty()) =~= Seq::empty());
    }
    let mut out: Vec<T> = Vec::new();
    while v.len() > 0
        invariant
            leq == (|a: T::Key, b: T::Key| T::leq(a, b)),
            total_ordering(leq),
            sorted_by(keys(out@), leq),
            keys(old(v)@).to_multiset() =~= keys(v@).to_multiset().add(keys(out@).to_multiset()),
        decreases v.len(),
    {
        let ghost before = v@;
        let x = v.pop().unwrap();
        let mut p: usize = 0;
        while p < out.len() && out[p].at_most(&x)
            invariant
                p <= out.len(),
                leq == (|a: T::Key, b: T::Key| T::leq(a, b)),
                forall|i: int| 0 <= i < p ==> leq(#[trigger] keys(out@)[i], x.key()),
            ensures
                p <= out.len(),
                forall|i: int| 0 <= i < p ==> leq(#[trigger] keys(out@)[i], x.key()),
                p < out.len() ==> !leq(keys(out@)[p as int], x.key()),
            decreases out.len() - p,
        {
            p += 1;
        }
        let ghost sorted_part = out@;
        out.insert(p, x);
        proof {
            let ks = keys(sorted_part);
            assert(keys(out@) =~= ks.insert(p as int, x.key()));
            assert forall|i: int, j: int| 0 <= i < j < out@.len() implies leq(
                #[trigger] keys(out@)[i],
                #[trigger] keys(out@)[j],
            ) by {
                if j < p {
                    assert(leq(ks[i], ks[j]));
                } else if j == p {
                    assert(leq(ks[i], x.key()));
                } else if i < p {
                    assert(leq(ks[i], ks[j - 1]));
                } else {
                    assert(leq(x.key(), ks[p as int]));
                    if i > p {
                        assert(leq(ks[i - 1], ks[j - 1]));
                    } else if j - 1 > p {
                        assert(leq(ks[p as int], ks[j - 1]));
                    }
                }
            }
            broadcast use vstd::seq_lib::group_to_multiset_ensures;
            assert(keys(before) =~= keys(v@).push(x.key()));
            assert(ks.insert(p as int, x.key()).remove(p as int) =~= ks);
        }
    }
    proof {
        broadcast use vstd::seq_lib::group_to_multiset_ensures;
        assert(keys(v@) =~= Seq::empty());
        assert(keys(old(v)@).to_multiset() =~= keys(out@).to_multiset());
        keys(old(v)@).lemma_sort_by_ensures(leq);
        vstd::seq_lib::lemma_sorted_unique(keys(out@), keys(old(v)@).sort_by(leq), leq);
    }
    *v = out;
}

/// An index with a rank.
struct Ranked {
    rank: u64,
    at: usize,
}

impl Sortable for Ranked {
    type Key = (u64, int);

    closed spec fn key(self) -> (u64, int) {
        (self.rank, self.at as int)
    }

    open spec fn leq(a: (u64, int), b: (u64, int)) -> bool {
        ranks_before(a, b)
    }

    proof fn leq_is_total_ordering() {
    }

    fn at_most(&self, other: &Self) -> (r: bool) {
        self.rank > other.rank || (self.rank == other.rank && self.at <= other.at)
    }
}

/// Whether the ranked index `a` stands before `b` or equals it:
/// a higher rank stands first, and of one rank the lower index.
pub open spec fn ranks_before(a: (u64, int), b: (u64, int)) -> bool {
    a.0 > b.0 || (a.0 == b.0 && a.1 <= b.1)
}

/// Every index of `ranks` with its rank.
pub open spec fn ranked(ranks: Seq<u64>) -> Seq<(u64, int)> {
    Seq::new(ranks.len(), |i: int| (ranks[i], i))
}

/// The indices of `ranks` from the highest rank to the lowest.
/// Indices of equal rank keep their order.
pub open spec fn descending(ranks: Seq<u64>) -> Seq<int> {
    ranked(ranks).sort_by(|a: (u64, int), b: (u64, int)| ranks_before(a, b)).map_values(
        |a: (u64, int)| a.1,
    )
}

/// `descending(ranks)` holds every index once and is ordered by rank, then by index.
pub proof fn descending_is_stable_sort(ranks: Seq<u64>)
    ensures
        descending(ranks).len() == ranks.len(),
        descending(ranks).no_duplicates(),
        forall|k: int| 0 <= k < ranks.len() ==> 0 <= #[trigger] descending(ranks)[k] < ranks.len(),
        forall|i: int| 0 <= i < ranks.len() ==> #[trigger] descending(ranks).contains(i),
        forall|k: int, l: int|
            0 <= k < l < ranks.len() ==> {
                let i = #[trigger] descending(ranks)[k];
                let j = #[trigger] descending(ranks)[l];
                ranks[i] > ranks[j] || (ranks[i] == ranks[j] && i < j)
            },
{
    let leq = |a: (u64, int), b: (u64, int)| ranks_before(a, b);
    let pairs = ranked(ranks);
    let order = pairs.sort_by(leq);
    let res = descending(ranks);
    assert(total_ordering(leq));
    pairs.lemma_sort_by_ensures(leq);
    broadcast use vstd::seq_lib::group_to_multiset_ensures;
    assert(order.to_multiset().len() == pairs.to_multiset().len());
    assert forall|k: int| 0 <= k < ranks.len() implies 0 <= #[trigger] order[k].1 < ranks.len()
        && order[k].0 == ranks[order[k].1] by {
        assert(order.to_multiset().count(order[k]) > 0);
        assert(pairs.contains(order[k]));
    }
    pairs.lemma_multiset_has_no_duplicates();
    assert(order.to_multiset() == pairs.to_multiset());
    order.lemma_multiset_has_no_duplicates_conv();
    assert forall|k: int| 0 <= k < ranks.len() implies 0 <= #[trigger] res[k] < ranks.len() by {
        assert(res[k] == order[k].1);
    }
    assert forall|k: int, l: int| 0 <= k < l < ranks.len() implies {
        let i = #[trigger] res[k];
        let j = #[trigger] res[l];
        ranks[i] > ranks[j] || (ranks[i] == ranks[j] && i < j)
    } by {
        assert(leq(order[k], order[l]));
        assert(order[k].1 == res[k] && order[l].1 == res[l]);
        assert(order[k] != order[l]);
    }
    assert forall|i: int| 0 <= i < ranks.len() implies #[trigger] res.contains(i) by {
        assert(pairs[i] == (ranks[i], i));
        assert(pairs.to_multiset().count(pairs[i]) > 0);
        let k = order.index_of(pairs[i]);
        assert(order.contains(pairs[i]));
        assert(res[k] == i);
    }
}

/// Sorts the indices of `ranks` from the highest rank to the lowest.
/// Indices of equal rank keep their order.
pub fn descending_order(ranks: &Vec<u64>) -> (res: Vec<usize>)
    ensures
        res@.map_values(|i: usize| i as int) == descending(ranks@),
{
    let mut pairs: Vec<Ranked> = Vec::new();
    let mut i: usize = 0;
    while i < ranks.len()
        invariant
            i <= ranks.len(),
            keys(pairs@) =~= ranked(ranks@).take(i as int),
        decreases ranks.len() - i,
    {
        let ghost before = pairs@;
        pairs.push(Ranked { rank: ranks[i], at: i });
        assert(keys(pairs@) =~= keys(before).push((ranks@[i as int], i as int)));
        i += 1;
    }
    assert(ranked(ranks@).take(i as int) =~= ranked(ranks@));
    sort(&mut pairs);
    assert((|a: (u64, int), b: (u64, int)| <Ranked as Sortable>::leq(a, b)) =~= (|
        a: (u64, int),
        b: (u64, int),
    | ranks_before(a, b)));
    let mut res: Vec<usize> = Vec::new();
    let mut j: usize = 0;
    while j < pairs.len()
        invariant
            j <= pairs.len(),
            res@.map_values(|i: usize| i as int) =~= keys(pairs@).map_values(|a: (u64, int)| a.1).take(
                j as int,
            ),
        decreases pairs.len() - j,
    {
        let ghost before = res@;
        res.push(pairs[j].at);
        assert(res@.map_values(|i: usize| i as int) =~= before.map_values(
            |i: usize| i as int,
        ).push(pairs@[j as int].at as int));
        j += 1;
    }
    assert(keys(pairs@).map_values(|a: (u64, int)| a.1).take(j as int) =~= keys(
        pairs@,
    ).map_values(|a: (u64, int)| a.1));
    res
}

} // verus!
