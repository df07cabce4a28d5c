//! Rank-bucketed result windowing: the ranked list is cut after a given
//! number of distinct score tiers, and zero-scored entries are dropped.

use vstd::prelude::*;
use vstd::set_lib::lemma_len_subset;
use crate::engine::pview;

verus! {

/// The windowed part of a ranked result list, walked with the current tier
/// score `rank` and the number of tiers already started `count`: an entry
/// scoring zero is dropped; an entry whose score differs from `rank`
/// starts a new tier, and nothing more is emitted once tier `range + 1`
/// would start; every other entry belongs to the current tier.
pub open spec fn window_model(
    s: Seq<(Seq<char>, nat)>,
    rank: nat,
    count: int,
    range: int,
) -> Seq<(Seq<char>, nat)>
    decreases s.len(),
{
    if s.len() == 0 {
        Seq::empty()
    } else {
        let e = s[0];
        if e.1 == 0 {
            window_model(s.drop_first(), rank, count, range)
        } else if e.1 != rank {
            if count + 1 > range {
                Seq::empty()
            } else {
                seq![e] + window_model(s.drop_first(), e.1, count + 1, range)
            }
        } else {
            seq![e] + window_model(s.drop_first(), rank, count, range)
        }
    }
}

/// The windowed output of a ranked list, for a window of `range` tiers.
pub open spec fn windowed(s: Seq<(Seq<char>, nat)>, range: int) -> Seq<(Seq<char>, nat)> {
    window_model(s, 0, 0, range)
}

/// The set of score values occurring in a result list.
pub open spec fn scores_of(s: Seq<(Seq<char>, nat)>) -> Set<nat>
    decreases s.len(),
{
    if s.len() == 0 {
        Set::empty()
    } else {
        scores_of(s.drop_first()).insert(s[0].1)
    }
}

/// The score set of a list is finite, and holds exactly the scores of the
/// list's entries.
pub proof fn lemma_scores_of(s: Seq<(Seq<char>, nat)>)
    ensures
        scores_of(s).finite(),
        forall|v: nat| scores_of(s).contains(v) <==> exists|i: int| 0 <= i < s.len() && s[i].1 == v,
    decreases s.len(),
{
    if s.len() == 0 {
    } else {
        lemma_scores_of(s.drop_first());
        assert forall|v: nat| scores_of(s).contains(v) implies exists|i: int|
            0 <= i < s.len() && s[i].1 == v by {
            if v == s[0].1 {
                assert(s[0].1 == v);
            } else {
                let i = choose|i: int| 0 <= i < s.drop_first().len() && s.drop_first()[i].1 == v;
                assert(s[i + 1].1 == v);
            }
        }
        assert forall|v: nat| (exists|i: int| 0 <= i < s.len() && s[i].1 == v)
            implies scores_of(s).contains(v) by {
            let i = choose|i: int| 0 <= i < s.len() && s[i].1 == v;
            if i >= 1 {
                assert(s.drop_first()[i - 1].1 == v);
            }
        }
    }
}

/// Every entry the window emits has a nonzero score, and the window adds
/// at most `range - count` score values beyond the current tier's.
pub proof fn lemma_window_scores(s: Seq<(Seq<char>, nat)>, rank: nat, count: int, range: int)
    ensures
        forall|k: int|
            0 <= k < window_model(s, rank, count, range).len() ==> (#[trigger] window_model(
                s,
                rank,
                count,
                range,
            )[k]).1 != 0,
        scores_of(window_model(s, rank, count, range)).remove(rank).len() <= (if range - count
            >= 0 {
            range - count
        } else {
            0
        }),
    decreases s.len(),
{
    let out = window_model(s, rank, count, range);
    lemma_scores_of(out);
    if s.len() == 0 {
        assert(scores_of(out).remove(rank) =~= Set::<nat>::empty());
    } else {
        let e = s[0];
        if e.1 == 0 {
            lemma_window_scores(s.drop_first(), rank, count, range);
        } else if e.1 != rank {
            if count + 1 > range {
                assert(scores_of(out).remove(rank) =~= Set::<nat>::empty());
            } else {
                lemma_window_scores(s.drop_first(), e.1, count + 1, range);
                let rest = window_model(s.drop_first(), e.1, count + 1, range);
                lemma_scores_of(rest);
                assert(out.drop_first() =~= rest);
                assert(scores_of(out) == scores_of(rest).insert(e.1));
                let x = scores_of(rest).remove(rank).remove(e.1);
                assert(scores_of(out).remove(rank) =~= x.insert(e.1));
                assert(x.subset_of(scores_of(rest).remove(e.1)));
                lemma_len_subset(x, scores_of(rest).remove(e.1));
                assert(x.insert(e.1).len() <= x.len() + 1);
                assert(scores_of(rest).remove(e.1).len() <= range - count - 1);
            }
        } else {
            lemma_window_scores(s.drop_first(), rank, count, range);
            let rest = window_model(s.drop_first(), rank, count, range);
            lemma_scores_of(rest);
            assert(out.drop_first() =~= rest);
            assert(scores_of(out) == scores_of(rest).insert(e.1));
            assert(scores_of(out).remove(rank) =~= scores_of(rest).remove(rank));
        }
    }
}

/// The number of distinct score values in a windowed output never exceeds
/// the window's tier limit.
pub proof fn lemma_windowed_distinct_scores(s: Seq<(Seq<char>, nat)>, range: int)
    ensures
        scores_of(windowed(s, range)).finite(),
        scores_of(windowed(s, range)).len() <= (if range >= 0 {
            range
        } else {
            0
        }),
{
    let out = windowed(s, range);
    lemma_window_scores(s, 0, 0, range);
    lemma_scores_of(out);
    assert(!scores_of(out).contains(0));
    assert(scores_of(out).remove(0) =~= scores_of(out));
}

/// The ranked results cut down to the first `range` rank tiers, with
/// zero-scored entries dropped.
#[verifier::loop_isolation(false)]
#[verifier::rlimit(100)]
pub fn window_animals(ranked: &Vec<(String, usize)>, range: i32) -> (r: Vec<(String, usize)>)
    ensures
        pview(r@) == windowed(pview(ranked@), range as int),
        scores_of(pview(r@)).len() <= (if range >= 0 {
            range as int
        } else {
            0
        }),
{
    let ghost full = pview(ranked@);
    let mut r: Vec<(String, usize)> = Vec::new();
    let mut rank: usize = 0;
    let mut count: i64 = 0;
    let mut k: usize = 0;
    proof {
        assert(pview(r@) =~= Seq::<(Seq<char>, nat)>::empty());
        assert(full.skip(0) =~= full);
        lemma_windowed_distinct_scores(full, range as int);
    }
    while k < ranked.len()
        invariant
            k <= ranked@.len(),
            0 <= count <= i32::MAX,
            windowed(full, range as int) == pview(r@) + window_model(
                full.skip(k as int),
                rank as nat,
                count as int,
                range as int,
            ),
        decreases ranked@.len() - k,
    {
        let ghost r0 = pview(r@);
        proof {
            assert(full.skip(k as int)[0] == full[k as int]);
            assert(full.skip(k as int).drop_first() =~= full.skip(k as int + 1));
        }
        let e = &ranked[k];
        let score = e.1;
        proof {
            assert(full[k as int].1 == score);
        }
        if score != 0 {
            if score != rank {
                if count + 1 > range as i64 {
                    proof {
                        assert(window_model(
                            full.skip(k as int),
                            rank as nat,
                            count as int,
                            range as int,
                        ) =~= Seq::<(Seq<char>, nat)>::empty());
                        assert(windowed(full, range as int) =~= pview(r@));
                    }
                    return r;
                }
                count = count + 1;
                let label = e.0.clone();
                r.push((label, score));
                rank = score;
                proof {
                    assert(pview(r@) =~= r0 + seq![full[k as int]]);
                    assert(r0 + (seq![full[k as int]] + window_model(
                        full.skip(k as int + 1),
                        rank as nat,
                        count as int,
                        range as int,
                    )) =~= pview(r@) + window_model(
                        full.skip(k as int + 1),
                        rank as nat,
                        count as int,
                        range as int,
                    ));
                }
            } else {
                let label = e.0.clone();
                r.push((label, score));
                proof {
                    assert(pview(r@) =~= r0 + seq![full[k as int]]);
                    assert(r0 + (seq![full[k as int]] + window_model(
                        full.skip(k as int + 1),
                        rank as nat,
                        count as int,
                        range as int,
                    )) =~= pview(r@) + window_model(
                        full.skip(k as int + 1),
                        rank as nat,
                        count as int,
                        range as int,
                    ));
                }
            }
        }
        k = k + 1;
    }
    proof {
        assert(full.skip(full.len() as int) =~= Seq::<(Seq<char>, nat)>::empty());
        assert(windowed(full, range as int) =~= pview(r@));
    }
    r
}

} // verus!
