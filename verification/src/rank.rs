//! Ordering the accumulated results by descending score: a stable
//! insertion sort, specified exactly, with its sortedness and
//! identity-distinctness lemmas.

use vstd::prelude::*;
use crate::chars::lower_seq;
use crate::engine::sview;
use crate::engine::distinct_identities;

verus! {

/// `x` inserted into the descending-sorted `s`, after every entry whose
/// score is at least the score of `x`.
pub open spec fn insert_desc(s: Seq<(Seq<char>, nat)>, x: (Seq<char>, nat)) -> Seq<
    (Seq<char>, nat),
>
    decreases s.len(),
{
    if s.len() == 0 {
        seq![x]
    } else if s[0].1 >= x.1 {
        seq![s[0]] + insert_desc(s.drop_first(), x)
    } else {
        seq![x] + s
    }
}

/// The stable descending sort of the list by score: every element, in
/// order, inserted after the entries scoring at least as much.
pub open spec fn sort_desc(s: Seq<(Seq<char>, nat)>) -> Seq<(Seq<char>, nat)>
    decreases s.len(),
{
    if s.len() == 0 {
        Seq::empty()
    } else {
        insert_desc(sort_desc(s.drop_last()), s.last())
    }
}

/// Scores never increase along the list.
pub open spec fn sorted_desc(s: Seq<(Seq<char>, nat)>) -> bool {
    forall|i: int, j: int| 0 <= i <= j < s.len() ==> s[i].1 >= s[j].1
}

/// Inserting adds one entry, and every entry of the result is the inserted
/// one or one of the original list.
pub proof fn lemma_insert_desc_elems(s: Seq<(Seq<char>, nat)>, x: (Seq<char>, nat))
    ensures
        insert_desc(s, x).len() == s.len() + 1,
        forall|k: int|
            0 <= k < insert_desc(s, x).len() ==> (insert_desc(s, x)[k] == x || s.contains(
                insert_desc(s, x)[k],
            )),
    decreases s.len(),
{
    if s.len() == 0 {
    } else if s[0].1 >= x.1 {
        lemma_insert_desc_elems(s.drop_first(), x);
        let r = seq![s[0]] + insert_desc(s.drop_first(), x);
        assert forall|k: int| 0 <= k < r.len() implies (r[k] == x || s.contains(r[k])) by {
            if k == 0 {
                assert(s[0] == r[k]);
                assert(s.contains(r[k]));
            } else {
                let y = r[k];
                assert(y == insert_desc(s.drop_first(), x)[k - 1]);
                if y != x {
                    assert(s.drop_first().contains(y));
                    let w = choose|w: int| 0 <= w < s.drop_first().len() && s.drop_first()[w] == y;
                    assert(s[w + 1] == y);
                }
            }
        }
    } else {
    }
}

/// Inserting into a descending-sorted list keeps it sorted.
pub proof fn lemma_insert_desc_sorted(s: Seq<(Seq<char>, nat)>, x: (Seq<char>, nat))
    requires
        sorted_desc(s),
    ensures
        sorted_desc(insert_desc(s, x)),
    decreases s.len(),
{
    if s.len() == 0 {
    } else if s[0].1 >= x.1 {
        assert(sorted_desc(s.drop_first()));
        lemma_insert_desc_sorted(s.drop_first(), x);
        lemma_insert_desc_elems(s.drop_first(), x);
        let inner = insert_desc(s.drop_first(), x);
        let r = seq![s[0]] + inner;
        assert forall|i: int, j: int| 0 <= i <= j < r.len() implies r[i].1 >= r[j].1 by {
            if i == 0 && j > 0 {
                let y = inner[j - 1];
                if y == x {
                } else {
                    assert(s.drop_first().contains(y));
                    let w = choose|w: int|
                        0 <= w < s.drop_first().len() && s.drop_first()[w] == y;
                    assert(s[w + 1] == y);
                }
            } else if i > 0 {
                assert(r[i] == inner[i - 1] && r[j] == inner[j - 1]);
            }
        }
    } else {
    }
}

/// The sort orders every list by descending score.
pub proof fn lemma_sort_desc_sorted(s: Seq<(Seq<char>, nat)>)
    ensures
        sorted_desc(sort_desc(s)),
        sort_desc(s).len() == s.len(),
        forall|k: int| 0 <= k < sort_desc(s).len() ==> s.contains(#[trigger] sort_desc(s)[k]),
    decreases s.len(),
{
    if s.len() == 0 {
    } else {
        lemma_sort_desc_sorted(s.drop_last());
        lemma_insert_desc_sorted(sort_desc(s.drop_last()), s.last());
        lemma_insert_desc_elems(sort_desc(s.drop_last()), s.last());
        let r = sort_desc(s);
        assert forall|k: int| 0 <= k < r.len() implies s.contains(#[trigger] r[k]) by {
            if r[k] == s.last() {
                assert(s[s.len() - 1] == s.last());
            } else {
                assert(sort_desc(s.drop_last()).contains(r[k]));
                let w = choose|w: int|
                    0 <= w < sort_desc(s.drop_last()).len() && sort_desc(s.drop_last())[w] == r[k];
                assert(s.drop_last().contains(r[k]));
                let v = choose|v: int| 0 <= v < s.drop_last().len() && s.drop_last()[v] == r[k];
                assert(s[v] == r[k]);
            }
        }
    }
}

/// Inserting keeps every element of the list, and the inserted one.
pub proof fn lemma_insert_desc_keeps(s: Seq<(Seq<char>, nat)>, x: (Seq<char>, nat))
    ensures
        insert_desc(s, x).contains(x),
        forall|y: (Seq<char>, nat)| s.contains(y) ==> insert_desc(s, x).contains(y),
    decreases s.len(),
{
    if s.len() == 0 {
        assert(insert_desc(s, x)[0] == x);
    } else if s[0].1 >= x.1 {
        lemma_insert_desc_keeps(s.drop_first(), x);
        let inner = insert_desc(s.drop_first(), x);
        let r = seq![s[0]] + inner;
        let w = choose|w: int| 0 <= w < inner.len() && inner[w] == x;
        assert(r[w + 1] == x);
        assert forall|y: (Seq<char>, nat)| s.contains(y) implies r.contains(y) by {
            let v = choose|v: int| 0 <= v < s.len() && s[v] == y;
            if v == 0 {
                assert(r[0] == y);
            } else {
                assert(s.drop_first()[v - 1] == y);
                assert(s.drop_first().contains(y));
                let u = choose|u: int| 0 <= u < inner.len() && inner[u] == y;
                assert(r[u + 1] == y);
            }
        }
    } else {
        let r = seq![x] + s;
        assert(r[0] == x);
        assert forall|y: (Seq<char>, nat)| s.contains(y) implies r.contains(y) by {
            let v = choose|v: int| 0 <= v < s.len() && s[v] == y;
            assert(r[v + 1] == y);
        }
    }
}

/// The sort keeps every element of the list.
pub proof fn lemma_sort_desc_keeps(s: Seq<(Seq<char>, nat)>)
    ensures
        forall|y: (Seq<char>, nat)| s.contains(y) ==> sort_desc(s).contains(y),
    decreases s.len(),
{
    if s.len() > 0 {
        lemma_sort_desc_keeps(s.drop_last());
        lemma_insert_desc_keeps(sort_desc(s.drop_last()), s.last());
        assert forall|y: (Seq<char>, nat)| s.contains(y) implies sort_desc(s).contains(y) by {
            let v = choose|v: int| 0 <= v < s.len() && s[v] == y;
            if v < s.len() - 1 {
                assert(s.drop_last()[v] == y);
                assert(s.drop_last().contains(y));
            } else {
                assert(y == s.last());
            }
        }
    }
}

/// Inserting an entry whose identity no list entry has keeps identities
/// pairwise distinct.
pub proof fn lemma_insert_desc_distinct(s: Seq<(Seq<char>, nat)>, x: (Seq<char>, nat))
    requires
        distinct_identities(s),
        forall|k: int| 0 <= k < s.len() ==> lower_seq(s[k].0) != lower_seq(x.0),
    ensures
        distinct_identities(insert_desc(s, x)),
    decreases s.len(),
{
    if s.len() == 0 {
    } else if s[0].1 >= x.1 {
        assert(distinct_identities(s.drop_first()));
        lemma_insert_desc_distinct(s.drop_first(), x);
        lemma_insert_desc_elems(s.drop_first(), x);
        let inner = insert_desc(s.drop_first(), x);
        let r = seq![s[0]] + inner;
        assert forall|i: int, j: int|
            0 <= i < j < r.len() implies lower_seq(r[i].0) != lower_seq(r[j].0) by {
            if i == 0 {
                let y = inner[j - 1];
                if y == x {
                } else {
                    assert(s.drop_first().contains(y));
                    let w = choose|w: int|
                        0 <= w < s.drop_first().len() && s.drop_first()[w] == y;
                    assert(s[w + 1] == y);
                }
            } else {
                assert(r[i] == inner[i - 1] && r[j] == inner[j - 1]);
            }
        }
    } else {
    }
}

/// The sort keeps identities pairwise distinct.
pub proof fn lemma_sort_desc_distinct(s: Seq<(Seq<char>, nat)>)
    requires
        distinct_identities(s),
    ensures
        distinct_identities(sort_desc(s)),
    decreases s.len(),
{
    if s.len() > 0 {
        assert(distinct_identities(s.drop_last()));
        lemma_sort_desc_distinct(s.drop_last());
        lemma_sort_desc_sorted(s.drop_last());
        let sorted = sort_desc(s.drop_last());
        assert forall|k: int|
            0 <= k < sorted.len() implies lower_seq(sorted[k].0) != lower_seq(s.last().0) by {
            assert(s.drop_last().contains(sorted[k]));
            let w = choose|w: int| 0 <= w < s.drop_last().len() && s.drop_last()[w] == sorted[k];
            assert(s[w] == sorted[k]);
            assert(lower_seq(s[w].0) != lower_seq(s[s.len() - 1].0));
        }
        lemma_insert_desc_distinct(sorted, s.last());
    }
}

/// Inserting at the first position whose score is below the new entry's is
/// exactly `insert_desc`.
pub proof fn lemma_insert_desc_at(s: Seq<(Seq<char>, nat)>, x: (Seq<char>, nat), j: int)
    requires
        sorted_desc(s),
        0 <= j <= s.len(),
        forall|k: int| 0 <= k < j ==> s[k].1 >= x.1,
        j < s.len() ==> s[j].1 < x.1,
    ensures
        insert_desc(s, x) == s.take(j) + seq![x] + s.skip(j),
    decreases s.len(),
{
    if s.len() == 0 {
        assert(insert_desc(s, x) =~= s.take(j) + seq![x] + s.skip(j));
    } else if j == 0 {
        assert(s[0].1 < x.1);
        assert(insert_desc(s, x) =~= s.take(0) + seq![x] + s.skip(0));
    } else {
        assert(s[0].1 >= x.1);
        assert(sorted_desc(s.drop_first()));
        assert forall|k: int| 0 <= k < j - 1 implies s.drop_first()[k].1 >= x.1 by {
            assert(s.drop_first()[k] == s[k + 1]);
        }
        lemma_insert_desc_at(s.drop_first(), x, j - 1);
        assert(insert_desc(s, x) =~= s.take(j) + seq![x] + s.skip(j));
    }
}

/// Sorts the accumulated results by descending score, in place. Entries
/// with equal scores keep their relative order.
#[verifier::loop_isolation(false)]
#[verifier::rlimit(100)]
pub fn order_animals(set: &mut Vec<(Vec<char>, usize)>)
    ensures
        sview(final(set)@) == sort_desc(sview(old(set)@)),
{
    let ghost orig = sview(old(set)@);
    if set.len() == 0 {
        proof {
            assert(sview(set@) =~= sort_desc(orig));
        }
        return ;
    }
    proof {
        let s1 = orig.take(1);
        assert(s1.len() == 1);
        assert(s1.drop_last() =~= Seq::<(Seq<char>, nat)>::empty());
        assert(s1.last() == orig[0]);
        assert(sort_desc(s1.drop_last()) == Seq::<(Seq<char>, nat)>::empty());
        assert(sort_desc(s1) == insert_desc(Seq::<(Seq<char>, nat)>::empty(), orig[0]));
        assert(sort_desc(s1) =~= seq![orig[0]]);
        assert(sview(set@) =~= sort_desc(s1) + orig.skip(1));
    }
    let mut t: usize = 1;
    while t < set.len()
        invariant
            1 <= t <= set@.len(),
            set@.len() == orig.len(),
            sview(set@) == sort_desc(orig.take(t as int)) + orig.skip(t as int),
        decreases set@.len() - t,
    {
        let ghost pre = sview(set@);
        let ghost sorted = sort_desc(orig.take(t as int));
        proof {
            lemma_sort_desc_sorted(orig.take(t as int));
            assert(sorted.len() == t);
            assert(pre[t as int] == orig[t as int]);
        }
        let mut j: usize = 0;
        while j < t && set[j].1 >= set[t].1
            invariant
                j <= t < set@.len(),
                sview(set@) == pre,
                forall|k: int| 0 <= k < j ==> pre[k].1 >= pre[t as int].1,
            decreases t - j,
        {
            j = j + 1;
        }
        proof {
            assert forall|k: int| 0 <= k < j implies sorted[k].1 >= orig[t as int].1 by {
                assert(pre[k] == sorted[k]);
            }
            if j < t {
                assert(pre[j as int] == sorted[j as int]);
                assert(sorted[j as int].1 < orig[t as int].1);
            }
            lemma_insert_desc_at(sorted, orig[t as int], j as int);
        }
        let ghost v0 = set@;
        let x = set.remove(t);
        let ghost v1 = set@;
        set.insert(j, x);
        proof {
            let ghost goal = sorted.take(j as int) + seq![orig[t as int]] + sorted.skip(j as int)
                + orig.skip(t as int + 1);
            assert(set@.len() == v0.len());
            assert(goal.len() == v0.len());
            assert forall|i: int| 0 <= i < set@.len() implies sview(set@)[i] == goal[i] by {
                if i < j {
                    assert(set@[i] == v1[i]);
                    assert(v1[i] == v0[i]);
                    assert(sview(v0)[i] == pre[i]);
                    assert(pre[i] == sorted[i]);
                } else if i == j {
                    assert(set@[i] == x);
                    assert(x == v0[t as int]);
                    assert(sview(v0)[t as int] == pre[t as int]);
                } else if i <= t {
                    assert(set@[i] == v1[i - 1]);
                    assert(v1[i - 1] == v0[i - 1]);
                    assert(sview(v0)[i - 1] == pre[i - 1]);
                    assert(pre[i - 1] == sorted[i - 1]);
                    assert(goal[i] == sorted.skip(j as int)[i - j - 1]);
                } else {
                    assert(set@[i] == v1[i - 1]);
                    assert(v1[i - 1] == v0[i]);
                    assert(sview(v0)[i] == pre[i]);
                    assert(pre[i] == orig.skip(t as int)[i - t]);
                    assert(goal[i] == orig.skip(t as int + 1)[i - (t + 1)]);
                }
            }
            assert(sview(set@) =~= goal);
            assert(orig.take(t as int + 1).drop_last() =~= orig.take(t as int));
            assert(orig.take(t as int + 1).last() == orig[t as int]);
            assert(sview(set@) =~= sort_desc(orig.take(t as int + 1)) + orig.skip(t as int + 1));
        }
        t = t + 1;
    }
    proof {
        assert(orig.take(orig.len() as int) =~= orig);
        assert(sview(set@) =~= sort_desc(orig));
    }
}

} // verus!
