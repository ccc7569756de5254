//! Canonical ordering for the document model: a stable insertion sort by a
//! string-valued key, given as a specification-level function together with
//! the ordering lemmas the fingerprint payload rests on, and mirrored by an
//! executable sort that returns the order as a vector of indices.

use vstd::prelude::*;

verus! {

use vstd::multiset::Multiset;
use crate::strutil::lex_lt;
use crate::strutil::str_lt;
use crate::strutil::lemma_lex_trans;
use crate::strutil::lemma_lex_connex;
use crate::strutil::lemma_lex_asym;

broadcast use vstd::seq_lib::group_to_multiset_ensures;

/// Types the canonicalizer orders, by a string-valued key.
pub trait SortKeyed {
    /// The key the canonical order compares.
    spec fn skey(&self) -> Seq<char>;
}

/// Orderable types whose key can also be read at run time.
pub trait Sortable: SortKeyed {
    /// The sort key as a string slice.
    fn key_str(&self) -> (r: &str)
        ensures
            r@ == self.skey(),
    ;
}

/// Inserts `x` after every element whose key is not greater than its own,
/// so elements with equal keys keep their original relative order.
pub open spec fn ordered_insert<T: SortKeyed>(s: Seq<T>, x: T) -> Seq<T>
    decreases s.len(),
{
    if s.len() == 0 {
        seq![x]
    } else if lex_lt(x.skey(), s.last().skey()) {
        ordered_insert(s.drop_last(), x).push(s.last())
    } else {
        s.push(x)
    }
}

/// Stable insertion sort by key.
pub open spec fn sort_by_skey<T: SortKeyed>(s: Seq<T>) -> Seq<T>
    decreases s.len(),
{
    if s.len() == 0 {
        Seq::empty()
    } else {
        ordered_insert(sort_by_skey(s.drop_last()), s.last())
    }
}

/// No inversions: no later element has a key below an earlier one's.
pub open spec fn sorted_by_skey<T: SortKeyed>(s: Seq<T>) -> bool {
    forall|i: int, j: int|
        0 <= i < j < s.len() ==> !lex_lt(#[trigger] s[j].skey(), #[trigger] s[i].skey())
}

/// All keys in the sequence are pairwise distinct.
pub open spec fn distinct_skeys<T: SortKeyed>(s: Seq<T>) -> bool {
    forall|i: int, j: int|
        0 <= i < j < s.len() ==> (#[trigger] s[i].skey()) != (#[trigger] s[j].skey())
}

/// Within the multiset, a key belongs to at most one element value.
pub open spec fn unique_skeys<T: SortKeyed>(m: Multiset<T>) -> bool {
    forall|a: T, b: T|
        #[trigger] m.contains(a) && #[trigger] m.contains(b) && a.skey() == b.skey() ==> a == b
}

/// `p` is the position `ordered_insert` picks: every element from `p` on has
/// a key strictly above `x`'s, and the one just before (if any) does not.
pub open spec fn valid_insert_pos<T: SortKeyed>(s: Seq<T>, x: T, p: int) -> bool {
    &&& 0 <= p <= s.len()
    &&& forall|k: int| p <= k < s.len() ==> lex_lt(x.skey(), (#[trigger] s[k]).skey())
    &&& p > 0 ==> !lex_lt(x.skey(), s[p - 1].skey())
}

/// At a valid position, the insertion is a splice.
pub proof fn lemma_ordered_insert_at<T: SortKeyed>(s: Seq<T>, x: T, p: int)
    requires
        valid_insert_pos(s, x, p),
    ensures
        ordered_insert(s, x) == s.take(p) + seq![x] + s.skip(p),
    decreases s.len(),
{
    if s.len() == 0 {
        assert(ordered_insert(s, x) =~= s.take(p) + seq![x] + s.skip(p));
    } else if lex_lt(x.skey(), s.last().skey()) {
        assert(p < s.len());
        assert(valid_insert_pos(s.drop_last(), x, p)) by {
            assert(forall|k: int|
                p <= k < s.len() - 1 ==> (#[trigger] s.drop_last()[k]).skey() == s[k].skey());
        }
        lemma_ordered_insert_at(s.drop_last(), x, p);
        assert(ordered_insert(s.drop_last(), x).push(s.last()) =~= s.take(p) + seq![x] + s.skip(
            p,
        ));
    } else {
        assert(p == s.len()) by {
            if p < s.len() {
                assert(lex_lt(x.skey(), s[s.len() - 1].skey()));
            }
        }
        assert(s.push(x) =~= s.take(p) + seq![x] + s.skip(p));
    }
}

/// A valid insertion position always exists.
pub proof fn lemma_insert_pos_exists<T: SortKeyed>(s: Seq<T>, x: T)
    ensures
        exists|p: int| valid_insert_pos(s, x, p),
    decreases s.len(),
{
    if s.len() == 0 {
        assert(valid_insert_pos(s, x, 0));
    } else if lex_lt(x.skey(), s.last().skey()) {
        lemma_insert_pos_exists(s.drop_last(), x);
        let p = choose|p: int| valid_insert_pos(s.drop_last(), x, p);
        assert(valid_insert_pos(s, x, p)) by {
            assert(forall|k: int|
                p <= k < s.len() - 1 ==> (#[trigger] s[k]).skey() == s.drop_last()[k].skey());
        }
    } else {
        assert(valid_insert_pos(s, x, s.len() as int));
    }
}

/// Splicing `x` in at a valid position keeps the sequence sorted.
pub proof fn lemma_splice_sorted<T: SortKeyed>(s: Seq<T>, x: T, p: int)
    requires
        sorted_by_skey(s),
        valid_insert_pos(s, x, p),
    ensures
        sorted_by_skey(s.take(p) + seq![x] + s.skip(p)),
{
    let r = s.take(p) + seq![x] + s.skip(p);
    assert(r.len() == s.len() + 1);
    assert forall|i: int, j: int| 0 <= i < j < r.len() implies !lex_lt(
        r[j].skey(),
        r[i].skey(),
    ) by {
        assert(forall|k: int| 0 <= k < p ==> r[k] == s[k]);
        assert(r[p] == x);
        assert(forall|k: int| p < k < r.len() ==> r[k] == s[k - 1]);
        if j < p {
            // Both sides are original elements in their original order.
        } else if i < p && j == p {
            if lex_lt(x.skey(), s[i].skey()) {
                if i < p - 1 {
                    lemma_lex_connex(s[i].skey(), s[p - 1].skey());
                    if lex_lt(s[i].skey(), s[p - 1].skey()) {
                        lemma_lex_trans(x.skey(), s[i].skey(), s[p - 1].skey());
                    }
                }
            }
        } else if i < p && j > p {
            // An original pair with indices i and j - 1.
            assert(!lex_lt(s[j - 1].skey(), s[i].skey()));
        } else if i == p {
            lemma_lex_asym(x.skey(), s[j - 1].skey());
        } else {
            // An original pair with indices i - 1 and j - 1.
            assert(!lex_lt(s[j - 1].skey(), s[i - 1].skey()));
        }
    }
}

/// Insertion adds exactly the new element to the contents.
pub proof fn lemma_ordered_insert_multiset<T: SortKeyed>(s: Seq<T>, x: T)
    ensures
        ordered_insert(s, x).to_multiset() == s.to_multiset().insert(x),
        ordered_insert(s, x).len() == s.len() + 1,
    decreases s.len(),
{
    if s.len() == 0 {
        assert(seq![x] =~= Seq::<T>::empty().push(x));
        assert(Seq::<T>::empty().push(x).to_multiset() =~= Seq::<T>::empty().to_multiset().insert(
            x,
        ));
        assert(ordered_insert(s, x).to_multiset() =~= s.to_multiset().insert(x));
    } else if lex_lt(x.skey(), s.last().skey()) {
        lemma_ordered_insert_multiset(s.drop_last(), x);
        assert(s.drop_last().push(s.last()) =~= s);
        assert(ordered_insert(s, x).to_multiset() =~= s.to_multiset().insert(x));
    } else {
        assert(s.push(x).to_multiset() =~= s.to_multiset().insert(x));
    }
}

/// Sorting permutes the sequence.
pub proof fn lemma_sort_multiset<T: SortKeyed>(s: Seq<T>)
    ensures
        sort_by_skey(s).to_multiset() == s.to_multiset(),
        sort_by_skey(s).len() == s.len(),
    decreases s.len(),
{
    if s.len() == 0 {
        assert(sort_by_skey(s) =~= s);
    } else {
        lemma_sort_multiset(s.drop_last());
        lemma_ordered_insert_multiset(sort_by_skey(s.drop_last()), s.last());
        assert(s.drop_last().push(s.last()) =~= s);
        assert(sort_by_skey(s).to_multiset() =~= s.to_multiset());
    }
}

/// Sorting sorts.
pub proof fn lemma_sort_sorted<T: SortKeyed>(s: Seq<T>)
    ensures
        sorted_by_skey(sort_by_skey(s)),
    decreases s.len(),
{
    if s.len() > 0 {
        let t = sort_by_skey(s.drop_last());
        lemma_sort_sorted(s.drop_last());
        lemma_insert_pos_exists(t, s.last());
        let p = choose|p: int| valid_insert_pos(t, s.last(), p);
        lemma_ordered_insert_at(t, s.last(), p);
        lemma_splice_sorted(t, s.last(), p);
    }
}

/// Two sorted sequences with the same contents are equal, provided a key
/// never belongs to two different element values.
pub proof fn lemma_sorted_unique<T: SortKeyed>(s1: Seq<T>, s2: Seq<T>)
    requires
        sorted_by_skey(s1),
        sorted_by_skey(s2),
        s1.to_multiset() == s2.to_multiset(),
        unique_skeys(s1.to_multiset()),
    ensures
        s1 == s2,
    decreases s1.len(),
{
    assert(s1.len() == s1.to_multiset().len());
    assert(s2.len() == s2.to_multiset().len());
    if s1.len() == 0 {
        assert(s1 =~= s2);
    } else {
        let a = s1.last();
        let b = s2.last();
        assert(s2.contains(b)) by {
            assert(s2[s2.len() - 1] == b);
        }
        assert(s1.contains(a)) by {
            assert(s1[s1.len() - 1] == a);
        }
        assert(s1.to_multiset().contains(b)) by {
            assert(s2.to_multiset().count(b) > 0);
        }
        assert(s2.to_multiset().contains(a)) by {
            assert(s1.to_multiset().count(a) > 0);
        }
        assert(s1.contains(b) && s2.contains(a));
        if a != b {
            let i = choose|i: int| 0 <= i < s1.len() && s1[i] == b;
            let j = choose|j: int| 0 <= j < s2.len() && s2[j] == a;
            assert(!lex_lt(a.skey(), b.skey())) by {
                if i < s1.len() - 1 {
                    assert(!lex_lt(s1.last().skey(), s1[i].skey()));
                }
            }
            assert(!lex_lt(b.skey(), a.skey())) by {
                if j < s2.len() - 1 {
                    assert(!lex_lt(s2.last().skey(), s2[j].skey()));
                }
            }
            lemma_lex_connex(a.skey(), b.skey());
            assert(a.skey() == b.skey());
            assert(s1.to_multiset().contains(a));
            assert(false);
        }
        assert(s1.drop_last().to_multiset() == s1.to_multiset().remove(a)) by {
            assert(s1.remove(s1.len() - 1) =~= s1.drop_last());
            assert(s1.remove(s1.len() - 1).to_multiset() =~= s1.to_multiset().remove(a));
        }
        assert(s2.drop_last().to_multiset() == s2.to_multiset().remove(b)) by {
            assert(s2.remove(s2.len() - 1) =~= s2.drop_last());
            assert(s2.remove(s2.len() - 1).to_multiset() =~= s2.to_multiset().remove(b));
        }
        assert(sorted_by_skey(s1.drop_last())) by {
            assert(forall|k: int|
                0 <= k < s1.len() - 1 ==> #[trigger] s1.drop_last()[k] == s1[k]);
        }
        assert(sorted_by_skey(s2.drop_last())) by {
            assert(forall|k: int|
                0 <= k < s2.len() - 1 ==> #[trigger] s2.drop_last()[k] == s2[k]);
        }
        assert(unique_skeys(s1.drop_last().to_multiset())) by {
            assert forall|c: T, d: T|
                #[trigger] s1.drop_last().to_multiset().contains(c)
                    && #[trigger] s1.drop_last().to_multiset().contains(d) && c.skey()
                    == d.skey() implies c == d by {
                assert(s1.to_multiset().count(c) >= s1.drop_last().to_multiset().count(c));
                assert(s1.to_multiset().count(d) >= s1.drop_last().to_multiset().count(d));
                assert(s1.to_multiset().contains(c) && s1.to_multiset().contains(d));
            }
        }
        lemma_sorted_unique(s1.drop_last(), s2.drop_last());
        assert(s1 =~= s2) by {
            assert(forall|k: int| 0 <= k < s1.len() - 1 ==> #[trigger] s1[k] == s1.drop_last()[k]);
            assert(forall|k: int| 0 <= k < s2.len() - 1 ==> #[trigger] s2[k] == s2.drop_last()[k]);
        }
    }
}

/// Reordering the input does not change the sorted result, provided a key
/// never belongs to two different element values.
pub proof fn lemma_sort_of_permutation<T: SortKeyed>(s1: Seq<T>, s2: Seq<T>)
    requires
        s1.to_multiset() == s2.to_multiset(),
        unique_skeys(s1.to_multiset()),
    ensures
        sort_by_skey(s1) == sort_by_skey(s2),
{
    lemma_sort_multiset(s1);
    lemma_sort_multiset(s2);
    lemma_sort_sorted(s1);
    lemma_sort_sorted(s2);
    lemma_sorted_unique(sort_by_skey(s1), sort_by_skey(s2));
}

/// Pairwise-distinct keys make keys unique in the contents.
pub proof fn lemma_distinct_skeys_unique<T: SortKeyed>(s: Seq<T>)
    requires
        distinct_skeys(s),
    ensures
        unique_skeys(s.to_multiset()),
{
    assert forall|a: T, b: T|
        #[trigger] s.to_multiset().contains(a) && #[trigger] s.to_multiset().contains(b)
            && a.skey() == b.skey() implies a == b by {
        assert(s.to_multiset().count(a) > 0 && s.to_multiset().count(b) > 0);
        assert(s.contains(a) && s.contains(b));
        let i = choose|i: int| 0 <= i < s.len() && s[i] == a;
        let j = choose|j: int| 0 <= j < s.len() && s[j] == b;
        if i < j {
            assert(s[i].skey() != s[j].skey());
        } else if j < i {
            assert(s[j].skey() != s[i].skey());
        }
    }
}

/// Insertion follows the same path on two key-aligned sequences, so it
/// preserves any pairwise relation between them.
pub proof fn lemma_ordered_insert_related<T1: SortKeyed, T2: SortKeyed>(
    s1: Seq<T1>,
    s2: Seq<T2>,
    x1: T1,
    x2: T2,
    rel: spec_fn(T1, T2) -> bool,
)
    requires
        s1.len() == s2.len(),
        forall|i: int|
            0 <= i < s1.len() ==> (#[trigger] s1[i]).skey() == s2[i].skey() && rel(s1[i], s2[i]),
        x1.skey() == x2.skey(),
        rel(x1, x2),
    ensures
        ordered_insert(s1, x1).len() == s1.len() + 1,
        ordered_insert(s2, x2).len() == s1.len() + 1,
        forall|i: int|
            0 <= i < s1.len() + 1 ==> (#[trigger] ordered_insert(s1, x1)[i]).skey()
                == ordered_insert(s2, x2)[i].skey() && rel(
                ordered_insert(s1, x1)[i],
                ordered_insert(s2, x2)[i],
            ),
    decreases s1.len(),
{
    lemma_ordered_insert_multiset(s1, x1);
    lemma_ordered_insert_multiset(s2, x2);
    if s1.len() == 0 {
        assert(ordered_insert(s1, x1)[0] == x1 && ordered_insert(s2, x2)[0] == x2);
    } else if lex_lt(x1.skey(), s1.last().skey()) {
        assert(s2.last().skey() == s1.last().skey());
        assert(forall|i: int|
            0 <= i < s1.len() - 1 ==> (#[trigger] s1.drop_last()[i]).skey()
                == s2.drop_last()[i].skey() && rel(s1.drop_last()[i], s2.drop_last()[i]));
        lemma_ordered_insert_related(s1.drop_last(), s2.drop_last(), x1, x2, rel);
        assert(ordered_insert(s1, x1) == ordered_insert(s1.drop_last(), x1).push(s1.last()));
        assert(ordered_insert(s2, x2) == ordered_insert(s2.drop_last(), x2).push(s2.last()));
    } else {
        assert(ordered_insert(s1, x1) == s1.push(x1));
        assert(ordered_insert(s2, x2) == s2.push(x2));
    }
}

/// Sorting follows the same path on two key-aligned sequences, so it
/// preserves any pairwise relation between them.
pub proof fn lemma_sort_related<T1: SortKeyed, T2: SortKeyed>(
    s1: Seq<T1>,
    s2: Seq<T2>,
    rel: spec_fn(T1, T2) -> bool,
)
    requires
        s1.len() == s2.len(),
        forall|i: int|
            0 <= i < s1.len() ==> (#[trigger] s1[i]).skey() == s2[i].skey() && rel(s1[i], s2[i]),
    ensures
        sort_by_skey(s1).len() == s1.len(),
        sort_by_skey(s2).len() == s1.len(),
        forall|i: int|
            0 <= i < s1.len() ==> (#[trigger] sort_by_skey(s1)[i]).skey()
                == sort_by_skey(s2)[i].skey() && rel(sort_by_skey(s1)[i], sort_by_skey(s2)[i]),
    decreases s1.len(),
{
    lemma_sort_multiset(s1);
    lemma_sort_multiset(s2);
    if s1.len() > 0 {
        assert(forall|i: int|
            0 <= i < s1.len() - 1 ==> (#[trigger] s1.drop_last()[i]).skey()
                == s2.drop_last()[i].skey() && rel(s1.drop_last()[i], s2.drop_last()[i]));
        lemma_sort_related(s1.drop_last(), s2.drop_last(), rel);
        assert(s1.last().skey() == s2.last().skey() && rel(s1.last(), s2.last()));
        lemma_ordered_insert_related(
            sort_by_skey(s1.drop_last()),
            sort_by_skey(s2.drop_last()),
            s1.last(),
            s2.last(),
            rel,
        );
    }
}

/// Computes the canonical order of `v` as a vector of indices into `v`:
/// reading `v` through the result visits the elements as `sort_by_skey`
/// arranges them.
#[verifier::loop_isolation(false)]
pub fn sorted_indices<T: Sortable>(v: &Vec<T>) -> (r: Vec<usize>)
    ensures
        r@.len() == v@.len(),
        forall|k: int| 0 <= k < r@.len() ==> (#[trigger] r@[k]) < v@.len(),
        Seq::new(r@.len(), |k: int| v@[r@[k] as int]) == sort_by_skey(v@),
{
    let mut idx: Vec<usize> = Vec::new();
    let mut i: usize = 0;
    while i < v.len()
        invariant
            i <= v@.len(),
            idx@.len() == i,
            forall|k: int| 0 <= k < idx@.len() ==> (#[trigger] idx@[k]) < i,
            Seq::new(idx@.len(), |k: int| v@[idx@[k] as int]) == sort_by_skey(v@.take(i as int)),
        decreases v@.len() - i,
    {
        let ghost t = Seq::new(idx@.len(), |k: int| v@[idx@[k] as int]);
        proof {
            lemma_sort_sorted(v@.take(i as int));
        }
        let mut p: usize = idx.len();
        loop
            invariant
                0 <= p <= idx@.len(),
                forall|k: int|
                    p <= k < t.len() ==> lex_lt(v@[i as int].skey(), (#[trigger] t[k]).skey()),
            decreases p,
        {
            if p == 0 {
                break ;
            }
            let prev: usize = idx[p - 1];
            if str_lt(v[i].key_str(), v[prev].key_str()) {
                assert(t[p - 1] == v@[prev as int]);
                p = p - 1;
            } else {
                break ;
            }
        }
        proof {
            assert(valid_insert_pos(t, v@[i as int], p as int)) by {
                if p > 0 {
                    assert(t[p - 1] == v@[idx@[p - 1] as int]);
                }
            }
            lemma_ordered_insert_at(t, v@[i as int], p as int);
        }
        idx.insert(p, i);
        proof {
            assert(v@.take(i + 1).drop_last() =~= v@.take(i as int));
            assert(v@.take(i + 1).last() == v@[i as int]);
            assert(sort_by_skey(v@.take(i + 1)) == ordered_insert(t, v@[i as int]));
            assert(Seq::new(idx@.len(), |k: int| v@[idx@[k] as int]) =~= t.take(p as int)
                + seq![v@[i as int]] + t.skip(p as int));
        }
        i = i + 1;
    }
    proof {
        assert(v@.take(v@.len() as int) =~= v@);
    }
    idx
}

} // verus!
