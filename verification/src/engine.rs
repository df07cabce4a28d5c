//! The matching-and-ranking engine's core: fragment generation from the
//! query names and the fold that scores, deduplicates and annotates the
//! matching catalog lines.

use vstd::prelude::*;
use crate::chars::lower_seq;
use crate::chars::lower_chars;
use crate::chars::str_chars;
use crate::chars::string_of_chars;
use crate::lines::lines_model;
use crate::lines::lemma_lines_count;
use crate::lines::split_lines;
use crate::rank::sort_desc;
use crate::rank::sorted_desc;
use crate::rank::lemma_sort_desc_sorted;
use crate::rank::lemma_sort_desc_distinct;
use crate::rank::order_animals;
use crate::search::contains_frag;
use crate::search::contains_chars;
use crate::search::annotate_spec;
use crate::search::annotate;
use crate::search::eq_ignore_case;
use crate::search::lemma_annotate_keeps_identity;

verus! {

/// The fixed score bonus awarded the first time a candidate identity
/// matches any fragment of the current query.
pub const FIRST_MATCH_BONUS: usize = 5;

/// The longest length among the given names.
pub open spec fn max_len(names: Seq<Seq<char>>) -> nat
    decreases names.len(),
{
    if names.len() == 0 {
        0
    } else {
        let m = max_len(names.drop_last());
        if names.last().len() > m {
            names.last().len()
        } else {
            m
        }
    }
}

/// The fragments of one length tier: the length-`i` prefix of every name
/// long enough to have one, in input order.
pub open spec fn frags_at_len(names: Seq<Seq<char>>, i: nat) -> Seq<Seq<char>>
    decreases names.len(),
{
    if names.len() == 0 {
        Seq::empty()
    } else {
        frags_at_len(names.drop_last(), i) + (if i > 0 && names.last().len() >= i {
            seq![names.last().take(i as int)]
        } else {
            Seq::empty()
        })
    }
}

/// All fragments of tiers `i`, `i - 1`, ..., 1, in that order.
pub open spec fn frags_down(names: Seq<Seq<char>>, i: nat) -> Seq<Seq<char>>
    decreases i,
{
    if i == 0 {
        Seq::empty()
    } else {
        frags_at_len(names, i) + frags_down(names, (i - 1) as nat)
    }
}

/// The fragment sequence of a query: every prefix of every name, longest
/// tier first, names in input order within a tier.
pub open spec fn frags_spec(names: Seq<Seq<char>>) -> Seq<Seq<char>> {
    frags_down(names, max_len(names))
}

/// Every name of the query, lower-cased.
pub open spec fn lower_all(names: Seq<Seq<char>>) -> Seq<Seq<char>> {
    Seq::new(names.len(), |i: int| lower_seq(names[i]))
}

/// The mathematical view of an accumulated result list: each entry is its
/// label's characters and its score.
pub open spec fn sview(s: Seq<(Vec<char>, usize)>) -> Seq<(Seq<char>, nat)> {
    Seq::new(s.len(), |i: int| (s[i].0@, s[i].1 as nat))
}

/// The position of the first entry whose lower-cased label is `id`, or -1
/// when there is none.
pub open spec fn find_id(set: Seq<(Seq<char>, nat)>, id: Seq<char>) -> int
    decreases set.len(),
{
    if set.len() == 0 {
        -1
    } else if lower_seq(set[0].0) == id {
        0
    } else {
        let r = find_id(set.drop_first(), id);
        if r < 0 {
            -1
        } else {
            r + 1
        }
    }
}

/// `find_id` returns the first entry with the given identity, and -1
/// exactly when no entry has it.
pub proof fn lemma_find_id(set: Seq<(Seq<char>, nat)>, id: Seq<char>)
    ensures
        find_id(set, id) == -1 ==> forall|k: int|
            0 <= k < set.len() ==> lower_seq(set[k].0) != id,
        find_id(set, id) >= 0 ==> {
            &&& find_id(set, id) < set.len()
            &&& lower_seq(set[find_id(set, id)].0) == id
            &&& forall|k: int| 0 <= k < find_id(set, id) ==> lower_seq(set[k].0) != id
        },
    decreases set.len(),
{
    if set.len() == 0 {
    } else if lower_seq(set[0].0) == id {
    } else {
        lemma_find_id(set.drop_first(), id);
        let r = find_id(set.drop_first(), id);
        if r == -1 {
            assert forall|k: int| 0 <= k < set.len() implies lower_seq(set[k].0) != id by {
                if k >= 1 {
                    assert(set.drop_first()[k - 1] == set[k]);
                }
            }
        } else {
            assert(set.drop_first()[r] == set[r + 1]);
            assert forall|k: int| 0 <= k < r + 1 implies lower_seq(set[k].0) != id by {
                if k >= 1 {
                    assert(set.drop_first()[k - 1] == set[k]);
                }
            }
        }
    }
}

/// One accumulation step: fold the match of one fragment against one
/// catalog line into the result list. A line that does not contain the
/// fragment (case-insensitively) leaves the list unchanged; a line already
/// represented has its entry re-annotated, bumped by the fragment length
/// and moved to the back; a new line is annotated and appended with the
/// fragment length plus the first-match bonus.
pub open spec fn step_model(
    set: Seq<(Seq<char>, nat)>,
    frag: Seq<char>,
    line: Seq<char>,
) -> Seq<(Seq<char>, nat)> {
    if !contains_frag(lower_seq(line), frag) {
        set
    } else {
        let j = find_id(set, lower_seq(line));
        if j < 0 {
            set.push((annotate_spec(line, frag), (frag.len() + FIRST_MATCH_BONUS) as nat))
        } else {
            set.remove(j).push(
                (annotate_spec(set[j].0, frag), (set[j].1 + frag.len()) as nat),
            )
        }
    }
}

/// One fragment folded over every catalog line, in order.
pub open spec fn fold_lines(
    set: Seq<(Seq<char>, nat)>,
    frag: Seq<char>,
    lines: Seq<Seq<char>>,
) -> Seq<(Seq<char>, nat)>
    decreases lines.len(),
{
    if lines.len() == 0 {
        set
    } else {
        step_model(fold_lines(set, frag, lines.drop_last()), frag, lines.last())
    }
}

/// Every fragment folded over the catalog, in fragment order.
pub open spec fn fold_frags(
    set: Seq<(Seq<char>, nat)>,
    frags: Seq<Seq<char>>,
    lines: Seq<Seq<char>>,
) -> Seq<(Seq<char>, nat)>
    decreases frags.len(),
{
    if frags.len() == 0 {
        set
    } else {
        fold_lines(fold_frags(set, frags.drop_last(), lines), frags.last(), lines)
    }
}

/// The accumulated (unordered) result list of a query: all fragments of
/// the lower-cased names folded over the catalog lines, starting empty.
pub open spec fn accum_model(names: Seq<Seq<char>>, lines: Seq<Seq<char>>) -> Seq<
    (Seq<char>, nat),
> {
    fold_frags(Seq::empty(), frags_spec(lower_all(names)), lines)
}

/// Every score in the list is at most `b`.
pub open spec fn scores_le(set: Seq<(Seq<char>, nat)>, b: int) -> bool {
    forall|i: int| 0 <= i < set.len() ==> set[i].1 <= b
}

/// No two entries of the list have the same lower-cased label.
pub open spec fn distinct_identities(set: Seq<(Seq<char>, nat)>) -> bool {
    forall|i: int, j: int|
        0 <= i < j < set.len() ==> lower_seq(set[i].0) != lower_seq(set[j].0)
}

/// The sum of the points every fragment can contribute to one entry
/// through one line: its length plus the first-match bonus.
pub open spec fn points_total(frags: Seq<Seq<char>>) -> int
    decreases frags.len(),
{
    if frags.len() == 0 {
        0
    } else {
        points_total(frags.drop_last()) + frags.last().len() + FIRST_MATCH_BONUS
    }
}

/// Fragment points are never negative.
pub proof fn lemma_points_total_nonneg(frags: Seq<Seq<char>>)
    ensures
        points_total(frags) >= 0,
    decreases frags.len(),
{
    if frags.len() > 0 {
        lemma_points_total_nonneg(frags.drop_last());
    }
}

/// The points of a prefix never exceed the points of the whole.
pub proof fn lemma_points_total_prefix(frags: Seq<Seq<char>>, t: int)
    requires
        0 <= t <= frags.len(),
    ensures
        points_total(frags.take(t)) <= points_total(frags),
    decreases frags.len(),
{
    if t == frags.len() {
        assert(frags.take(t) =~= frags);
    } else {
        assert(frags.drop_last().take(t) =~= frags.take(t));
        lemma_points_total_prefix(frags.drop_last(), t);
    }
}

/// One step grows no score by more than the fragment length plus the
/// bonus.
pub proof fn lemma_step_scores(
    set: Seq<(Seq<char>, nat)>,
    frag: Seq<char>,
    line: Seq<char>,
    b: int,
)
    requires
        scores_le(set, b),
        b >= 0,
    ensures
        scores_le(step_model(set, frag, line), b + frag.len() + FIRST_MATCH_BONUS),
{
    if contains_frag(lower_seq(line), frag) {
        let j = find_id(set, lower_seq(line));
        lemma_find_id(set, lower_seq(line));
        if j >= 0 {
            let next = set.remove(j).push(
                (annotate_spec(set[j].0, frag), (set[j].1 + frag.len()) as nat),
            );
            assert forall|i: int|
                0 <= i < next.len() implies next[i].1 <= b + frag.len()
                + FIRST_MATCH_BONUS by {
                if i < next.len() - 1 {
                    assert(next[i] == set.remove(j)[i]);
                }
            }
        }
    }
}

/// Folding one fragment over the lines grows no score by more than the
/// number of lines times the fragment's points.
pub proof fn lemma_fold_lines_scores(
    set: Seq<(Seq<char>, nat)>,
    frag: Seq<char>,
    lines: Seq<Seq<char>>,
    b: int,
)
    requires
        scores_le(set, b),
        b >= 0,
    ensures
        scores_le(
            fold_lines(set, frag, lines),
            b + lines.len() * (frag.len() + FIRST_MATCH_BONUS),
        ),
    decreases lines.len(),
{
    let d = frag.len() + FIRST_MATCH_BONUS;
    if lines.len() == 0 {
        assert(lines.len() * d == 0);
    } else {
        lemma_fold_lines_scores(set, frag, lines.drop_last(), b);
        let bmid = b + (lines.len() - 1) * d;
        assert(bmid >= 0) by (nonlinear_arith)
            requires
                b >= 0,
                lines.len() >= 1,
                d >= 0,
                bmid == b + (lines.len() - 1) * d,
        ;
        lemma_step_scores(fold_lines(set, frag, lines.drop_last()), frag, lines.last(), bmid);
        assert(bmid + d == b + lines.len() * d) by (nonlinear_arith)
            requires
                bmid == b + (lines.len() - 1) * d,
        ;
    }
}

/// Folding every fragment over the lines grows no score by more than the
/// number of lines times the total fragment points.
pub proof fn lemma_fold_frags_scores(
    set: Seq<(Seq<char>, nat)>,
    frags: Seq<Seq<char>>,
    lines: Seq<Seq<char>>,
    b: int,
)
    requires
        scores_le(set, b),
        b >= 0,
    ensures
        scores_le(fold_frags(set, frags, lines), b + lines.len() * points_total(frags)),
    decreases frags.len(),
{
    lemma_points_total_nonneg(frags);
    if frags.len() == 0 {
        assert(lines.len() * points_total(frags) == 0);
    } else {
        let pts = points_total(frags.drop_last());
        let d = frags.last().len() + FIRST_MATCH_BONUS;
        lemma_points_total_nonneg(frags.drop_last());
        lemma_fold_frags_scores(set, frags.drop_last(), lines, b);
        let bmid = b + lines.len() * pts;
        assert(bmid >= 0) by (nonlinear_arith)
            requires
                b >= 0,
                pts >= 0,
                lines.len() >= 0,
                bmid == b + lines.len() * pts,
        ;
        lemma_fold_lines_scores(fold_frags(set, frags.drop_last(), lines), frags.last(), lines, bmid);
        assert(bmid + lines.len() * d == b + lines.len() * points_total(frags)) by (nonlinear_arith)
            requires
                bmid == b + lines.len() * pts,
                points_total(frags) == pts + d,
        ;
    }
}

/// One step keeps the identities of a list pairwise distinct.
pub proof fn lemma_step_distinct(set: Seq<(Seq<char>, nat)>, frag: Seq<char>, line: Seq<char>)
    requires
        distinct_identities(set),
    ensures
        distinct_identities(step_model(set, frag, line)),
{
    if contains_frag(lower_seq(line), frag) {
        let id = lower_seq(line);
        let j = find_id(set, id);
        lemma_find_id(set, id);
        if j < 0 {
            lemma_annotate_keeps_identity(line, frag);
            let next = set.push((annotate_spec(line, frag), (frag.len() + FIRST_MATCH_BONUS) as nat));
            assert forall|a: int, b: int|
                0 <= a < b < next.len() implies lower_seq(next[a].0) != lower_seq(next[b].0) by {
                if b == next.len() - 1 {
                    assert(next[a] == set[a]);
                    assert(lower_seq(next[b].0) == id);
                }
            }
        } else {
            lemma_annotate_keeps_identity(set[j].0, frag);
            let rem = set.remove(j);
            let next = rem.push((annotate_spec(set[j].0, frag), (set[j].1 + frag.len()) as nat));
            assert forall|a: int, b: int|
                0 <= a < b < next.len() implies lower_seq(next[a].0) != lower_seq(next[b].0) by {
                if b < next.len() - 1 {
                    assert(next[a] == rem[a] && next[b] == rem[b]);
                    assert(rem[a] == (if a < j { set[a] } else { set[a + 1] }));
                    assert(rem[b] == (if b < j { set[b] } else { set[b + 1] }));
                } else {
                    assert(next[a] == rem[a]);
                    assert(rem[a] == (if a < j { set[a] } else { set[a + 1] }));
                    assert(lower_seq(next[b].0) == lower_seq(set[j].0));
                }
            }
        }
    }
}

/// The identity fold of one fragment keeps identities distinct.
pub proof fn lemma_fold_lines_distinct(
    set: Seq<(Seq<char>, nat)>,
    frag: Seq<char>,
    lines: Seq<Seq<char>>,
)
    requires
        distinct_identities(set),
    ensures
        distinct_identities(fold_lines(set, frag, lines)),
    decreases lines.len(),
{
    if lines.len() > 0 {
        lemma_fold_lines_distinct(set, frag, lines.drop_last());
        lemma_step_distinct(fold_lines(set, frag, lines.drop_last()), frag, lines.last());
    }
}

/// The whole accumulation keeps identities distinct.
pub proof fn lemma_fold_frags_distinct(
    set: Seq<(Seq<char>, nat)>,
    frags: Seq<Seq<char>>,
    lines: Seq<Seq<char>>,
)
    requires
        distinct_identities(set),
    ensures
        distinct_identities(fold_frags(set, frags, lines)),
    decreases frags.len(),
{
    if frags.len() > 0 {
        lemma_fold_frags_distinct(set, frags.drop_last(), lines);
        lemma_fold_lines_distinct(fold_frags(set, frags.drop_last(), lines), frags.last(), lines);
    }
}

/// The first `n` characters of `v`, as a fresh vector.
pub fn prefix_chars(v: &Vec<char>, n: usize) -> (r: Vec<char>)
    requires
        n <= v@.len(),
    ensures
        r@ == v@.take(n as int),
{
    let mut r: Vec<char> = Vec::new();
    let mut i: usize = 0;
    while i < n
        invariant
            n <= v@.len(),
            i <= n,
            r@ == v@.take(i as int),
        decreases n - i,
    {
        r.push(v[i]);
        i = i + 1;
        proof {
            assert(r@ =~= v@.take(i as int));
        }
    }
    r
}

/// All prefix fragments of the given names, longest tier first, names in
/// input order within a tier.
#[verifier::loop_isolation(false)]
pub fn build_frags(names: &Vec<Vec<char>>) -> (r: Vec<Vec<char>>)
    ensures
        r.deep_view() == frags_spec(names.deep_view()),
{
    let ghost nd = names.deep_view();
    let mut m: usize = 0;
    let mut j: usize = 0;
    while j < names.len()
        invariant
            j <= names@.len(),
            m == max_len(nd.take(j as int)),
        decreases names@.len() - j,
    {
        proof {
            assert(nd.take(j as int + 1).drop_last() =~= nd.take(j as int));
            assert(nd[j as int] =~= names@[j as int]@);
        }
        if names[j].len() > m {
            m = names[j].len();
        }
        j = j + 1;
    }
    proof {
        assert(nd.take(nd.len() as int) =~= nd);
    }
    let mut r: Vec<Vec<char>> = Vec::new();
    let mut i: usize = m;
    while i > 0
        invariant
            i <= m,
            m == max_len(nd),
            r.deep_view() + frags_down(nd, i as nat) == frags_down(nd, m as nat),
        decreases i,
    {
        let ghost r0 = r.deep_view();
        let mut j: usize = 0;
        while j < names.len()
            invariant
                1 <= i <= m,
                j <= names@.len(),
                r.deep_view() == r0 + frags_at_len(nd.take(j as int), i as nat),
            decreases names@.len() - j,
        {
            let ghost rj = r.deep_view();
            proof {
                assert(nd.take(j as int + 1).drop_last() =~= nd.take(j as int));
                assert(nd[j as int] =~= names@[j as int]@);
            }
            if i <= names[j].len() {
                let frag = prefix_chars(&names[j], i);
                r.push(frag);
                proof {
                    assert(r.deep_view() =~~= rj + seq![nd[j as int].take(i as int)]);
                    assert(r.deep_view() =~~= r0 + frags_at_len(nd.take(j as int + 1), i as nat));
                }
            } else {
                proof {
                    assert(frags_at_len(nd.take(j as int + 1), i as nat) =~~= frags_at_len(
                        nd.take(j as int),
                        i as nat,
                    ));
                }
            }
            j = j + 1;
        }
        proof {
            assert(nd.take(names@.len() as int) =~= nd);
            assert(r.deep_view() =~~= r0 + frags_at_len(nd, i as nat));
            assert(r.deep_view() + frags_down(nd, (i - 1) as nat) =~~= r0 + frags_down(
                nd,
                i as nat,
            ));
        }
        i = i - 1;
    }
    proof {
        assert(r.deep_view() + frags_down(nd, 0) =~~= r.deep_view());
        assert(r.deep_view() =~~= frags_spec(nd));
    }
    r
}

/// The position in the result list of the entry whose identity matches the
/// given line, if any.
#[verifier::loop_isolation(false)]
fn find_entry(set: &Vec<(Vec<char>, usize)>, line: &Vec<char>) -> (r: Option<usize>)
    ensures
        match r {
            Some(j) => j as int == find_id(sview(set@), lower_seq(line@)) && j < set@.len(),
            None => find_id(sview(set@), lower_seq(line@)) == -1,
        },
{
    proof {
        lemma_find_id(sview(set@), lower_seq(line@));
    }
    let mut j: usize = 0;
    while j < set.len()
        invariant
            j <= set@.len(),
            forall|k: int| 0 <= k < j ==> lower_seq(sview(set@)[k].0) != lower_seq(line@),
        decreases set@.len() - j,
    {
        let e = &set[j];
        if eq_ignore_case(&e.0, line) {
            proof {
                let sv = sview(set@);
                let id = lower_seq(line@);
                let fj = find_id(sv, id);
                assert(lower_seq(sv[j as int].0) == id);
                if fj == -1 {
                    assert(false);
                } else if fj < j {
                    assert(lower_seq(sv[fj].0) != id);
                    assert(false);
                } else if fj > j {
                    assert(lower_seq(sv[j as int].0) != id);
                    assert(false);
                }
            }
            return Some(j);
        }
        j = j + 1;
    }
    None
}

/// Folds one fragment into the result list: every catalog line containing
/// the fragment (case-insensitively) is scored and annotated, deduplicated
/// by its lower-cased text.
#[verifier::loop_isolation(false)]
pub fn pick_animals(frag: &Vec<char>, lines: &Vec<Vec<char>>, set: &mut Vec<(Vec<char>, usize)>)
    requires
        (frag@.len() + FIRST_MATCH_BONUS) * lines@.len() <= usize::MAX,
        forall|i: int|
            0 <= i < old(set)@.len() ==> old(set)@[i].1 + (frag@.len() + FIRST_MATCH_BONUS)
                * lines@.len() <= usize::MAX,
    ensures
        sview(final(set)@) == fold_lines(sview(old(set)@), frag@, lines.deep_view()),
{
    let ghost sv0 = sview(old(set)@);
    let ghost ld = lines.deep_view();
    let ghost d: int = frag@.len() + FIRST_MATCH_BONUS;
    proof {
        assert(ld.len() == lines@.len());
        assert(scores_le(sv0, usize::MAX - d * ld.len()));
        assert(fold_lines(sv0, frag@, ld.take(0)) =~= sv0);
    }
    let mut k: usize = 0;
    while k < lines.len()
        invariant
            k <= lines@.len(),
            sview(set@) == fold_lines(sv0, frag@, ld.take(k as int)),
            scores_le(sview(set@), usize::MAX - d * (ld.len() - k)),
        decreases lines@.len() - k,
    {
        let ghost svk = sview(set@);
        let ghost bk = usize::MAX - d * (ld.len() - k);
        proof {
            assert(d * (ld.len() - k) <= d * ld.len()) by (nonlinear_arith)
                requires
                    d >= 0,
                    0 <= ld.len() - k <= ld.len(),
            ;
            assert(bk >= 0);
            assert(d <= d * (ld.len() - k)) by (nonlinear_arith)
                requires
                    d >= 0,
                    ld.len() - k >= 1,
            ;
            assert(ld.take(k as int + 1).drop_last() =~= ld.take(k as int));
            assert(ld[k as int] =~= lines@[k as int]@);
            lemma_step_scores(svk, frag@, ld[k as int], bk);
            assert(bk + d <= usize::MAX - d * (ld.len() - (k + 1))) by (nonlinear_arith)
                requires
                    bk == usize::MAX - d * (ld.len() - k),
                    k < ld.len(),
            ;
        }
        let line = &lines[k];
        let line_lc = lower_chars(line);
        let hit = contains_chars(&line_lc, frag);
        if hit {
            match find_entry(set, line) {
                Some(j) => {
                    proof {
                        lemma_find_id(svk, lower_seq(line@));
                        assert(svk[j as int].1 <= bk);
                    }
                    let entry = set.remove(j);
                    let new_label = annotate(&entry.0, frag);
                    let new_score = entry.1 + frag.len();
                    set.push((new_label, new_score));
                },
                None => {
                    let new_label = annotate(line, frag);
                    let new_score = frag.len() + FIRST_MATCH_BONUS;
                    set.push((new_label, new_score));
                },
            }
        }
        proof {
            assert(sview(set@) =~= step_model(svk, frag@, ld[k as int]));
            assert(sview(set@) == fold_lines(sv0, frag@, ld.take(k as int + 1)));
        }
        k = k + 1;
    }
    proof {
        assert(ld.take(ld.len() as int) =~= ld);
    }
}

/// An entry with the given lower-cased label stands somewhere in the list.
pub open spec fn has_identity(set: Seq<(Seq<char>, nat)>, id: Seq<char>) -> bool {
    exists|i: int| 0 <= i < set.len() && lower_seq(set[i].0) == id
}

/// One step adds exactly one identity: that of a line containing the
/// fragment.
pub proof fn lemma_step_identity(set: Seq<(Seq<char>, nat)>, frag: Seq<char>, line: Seq<char>)
    ensures
        forall|id: Seq<char>|
            has_identity(step_model(set, frag, line), id) <==> (has_identity(set, id) || (
            contains_frag(lower_seq(line), frag) && id == lower_seq(line))),
{
    if contains_frag(lower_seq(line), frag) {
        let lid = lower_seq(line);
        let j = find_id(set, lid);
        lemma_find_id(set, lid);
        let next = step_model(set, frag, line);
        if j < 0 {
            lemma_annotate_keeps_identity(line, frag);
            assert forall|id: Seq<char>|
                has_identity(next, id) implies (has_identity(set, id) || id == lid) by {
                let i = choose|i: int| 0 <= i < next.len() && lower_seq(next[i].0) == id;
                if i < next.len() - 1 {
                    assert(next[i] == set[i]);
                }
            }
            assert forall|id: Seq<char>|
                (has_identity(set, id) || id == lid) implies has_identity(next, id) by {
                if has_identity(set, id) {
                    let i = choose|i: int| 0 <= i < set.len() && lower_seq(set[i].0) == id;
                    assert(next[i] == set[i]);
                } else {
                    assert(lower_seq(next[next.len() - 1].0) == lid);
                }
            }
        } else {
            lemma_annotate_keeps_identity(set[j].0, frag);
            let rem = set.remove(j);
            assert forall|id: Seq<char>|
                has_identity(next, id) implies (has_identity(set, id) || id == lid) by {
                let i = choose|i: int| 0 <= i < next.len() && lower_seq(next[i].0) == id;
                if i < next.len() - 1 {
                    assert(next[i] == rem[i]);
                    assert(rem[i] == (if i < j {
                        set[i]
                    } else {
                        set[i + 1]
                    }));
                } else {
                    assert(lower_seq(set[j].0) == id);
                }
            }
            assert forall|id: Seq<char>|
                (has_identity(set, id) || id == lid) implies has_identity(next, id) by {
                if has_identity(set, id) {
                    let i = choose|i: int| 0 <= i < set.len() && lower_seq(set[i].0) == id;
                    if i == j {
                        assert(lower_seq(next[next.len() - 1].0) == lid);
                    } else if i < j {
                        assert(next[i] == rem[i]);
                        assert(rem[i] == set[i]);
                    } else {
                        assert(next[i - 1] == rem[i - 1]);
                        assert(rem[i - 1] == set[i]);
                    }
                } else {
                    assert(lower_seq(next[next.len() - 1].0) == lid);
                }
            }
        }
    }
}

/// Folding one fragment adds exactly the identities of the lines that
/// contain it.
pub proof fn lemma_fold_lines_identity(
    set: Seq<(Seq<char>, nat)>,
    frag: Seq<char>,
    lines: Seq<Seq<char>>,
)
    ensures
        forall|id: Seq<char>|
            has_identity(fold_lines(set, frag, lines), id) <==> (has_identity(set, id)
                || exists|k: int|
                0 <= k < lines.len() && contains_frag(lower_seq(#[trigger] lines[k]), frag) && id
                    == lower_seq(lines[k])),
    decreases lines.len(),
{
    if lines.len() == 0 {
    } else {
        lemma_fold_lines_identity(set, frag, lines.drop_last());
        let mid = fold_lines(set, frag, lines.drop_last());
        lemma_step_identity(mid, frag, lines.last());
        let out = fold_lines(set, frag, lines);
        assert forall|id: Seq<char>|
            has_identity(out, id) implies (has_identity(set, id) || exists|k: int|
            0 <= k < lines.len() && contains_frag(lower_seq(#[trigger] lines[k]), frag) && id
                == lower_seq(lines[k])) by {
            if !has_identity(set, id) {
                if has_identity(mid, id) {
                    let k = choose|k: int|
                        0 <= k < lines.drop_last().len() && contains_frag(
                            lower_seq(lines.drop_last()[k]),
                            frag,
                        ) && id == lower_seq(lines.drop_last()[k]);
                    assert(lines[k] == lines.drop_last()[k]);
                    assert(contains_frag(lower_seq(lines[k]), frag) && id == lower_seq(lines[k]));
                } else {
                    assert(lines[lines.len() - 1] == lines.last());
                    assert(contains_frag(lower_seq(lines[lines.len() - 1]), frag) && id
                        == lower_seq(lines[lines.len() - 1]));
                }
            }
        }
        assert forall|id: Seq<char>|
            (has_identity(set, id) || exists|k: int|
            0 <= k < lines.len() && contains_frag(lower_seq(#[trigger] lines[k]), frag) && id
                == lower_seq(lines[k])) implies has_identity(out, id) by {
            if !has_identity(set, id) {
                let k = choose|k: int|
                    0 <= k < lines.len() && contains_frag(lower_seq(lines[k]), frag) && id
                        == lower_seq(lines[k]);
                if k < lines.len() - 1 {
                    assert(lines.drop_last()[k] == lines[k]);
                    assert(has_identity(mid, id));
                } else {
                    assert(lines.last() == lines[k]);
                }
            }
        }
    }
}

/// The whole accumulation holds exactly the identities of the lines that
/// contain some fragment.
pub proof fn lemma_fold_frags_identity(
    set: Seq<(Seq<char>, nat)>,
    frags: Seq<Seq<char>>,
    lines: Seq<Seq<char>>,
)
    ensures
        forall|id: Seq<char>|
            has_identity(fold_frags(set, frags, lines), id) <==> (has_identity(set, id)
                || exists|t: int, k: int|
                0 <= t < frags.len() && 0 <= k < lines.len() && contains_frag(
                    lower_seq(#[trigger] lines[k]),
                    #[trigger] frags[t],
                ) && id == lower_seq(lines[k])),
    decreases frags.len(),
{
    if frags.len() == 0 {
    } else {
        lemma_fold_frags_identity(set, frags.drop_last(), lines);
        let mid = fold_frags(set, frags.drop_last(), lines);
        lemma_fold_lines_identity(mid, frags.last(), lines);
        let out = fold_frags(set, frags, lines);
        assert forall|id: Seq<char>|
            has_identity(out, id) implies (has_identity(set, id) || exists|t: int, k: int|
            0 <= t < frags.len() && 0 <= k < lines.len() && contains_frag(
                lower_seq(#[trigger] lines[k]),
                #[trigger] frags[t],
            ) && id == lower_seq(lines[k])) by {
            if !has_identity(set, id) {
                if has_identity(mid, id) {
                    let (t, k) = choose|t: int, k: int|
                        0 <= t < frags.drop_last().len() && 0 <= k < lines.len() && contains_frag(
                            lower_seq(lines[k]),
                            frags.drop_last()[t],
                        ) && id == lower_seq(lines[k]);
                    assert(frags[t] == frags.drop_last()[t]);
                    assert(contains_frag(lower_seq(lines[k]), frags[t]) && id == lower_seq(
                        lines[k],
                    ));
                } else {
                    let k = choose|k: int|
                        0 <= k < lines.len() && contains_frag(lower_seq(lines[k]), frags.last())
                            && id == lower_seq(lines[k]);
                    assert(frags[frags.len() - 1] == frags.last());
                    assert(contains_frag(lower_seq(lines[k]), frags[frags.len() - 1]) && id
                        == lower_seq(lines[k]));
                }
            }
        }
        assert forall|id: Seq<char>|
            (has_identity(set, id) || exists|t: int, k: int|
            0 <= t < frags.len() && 0 <= k < lines.len() && contains_frag(
                lower_seq(#[trigger] lines[k]),
                #[trigger] frags[t],
            ) && id == lower_seq(lines[k])) implies has_identity(out, id) by {
            if has_identity(set, id) {
                assert(has_identity(mid, id));
            } else {
                let (t, k) = choose|t: int, k: int|
                    0 <= t < frags.len() && 0 <= k < lines.len() && contains_frag(
                        lower_seq(lines[k]),
                        frags[t],
                    ) && id == lower_seq(lines[k]);
                if t < frags.len() - 1 {
                    assert(frags.drop_last()[t] == frags[t]);
                    assert(has_identity(mid, id));
                } else {
                    assert(frags.last() == frags[t]);
                }
            }
        }
    }
}

/// What the engine can reject: a query with no name or with an empty name,
/// or a command line that does not parse.
#[derive(Clone, Copy, Debug, PartialEq, Eq, Structural)]
pub enum EngineError {
    InvalidInput,
    ArgumentParseError,
}

/// The ranked, annotated results of a query against a catalog text: the
/// accumulated result list, sorted by descending score.
pub open spec fn ranked_model(names: Seq<Seq<char>>, text: Seq<char>) -> Seq<(Seq<char>, nat)> {
    sort_desc(accum_model(names, lines_model(text)))
}

/// The labels of a result list, without the scores.
pub open spec fn labels_of(s: Seq<(Seq<char>, nat)>) -> Seq<Seq<char>> {
    Seq::new(s.len(), |i: int| s[i].0)
}

/// The mathematical view of a scored string result list.
pub open spec fn pview(s: Seq<(String, usize)>) -> Seq<(Seq<char>, nat)> {
    Seq::new(s.len(), |i: int| (s[i].0@, s[i].1 as nat))
}

/// The machine bound on a query: every score the fold can reach stays
/// within `usize`. One line of text can contribute each fragment's points
/// at most once per catalog line, and there is at most one line per text
/// character plus one.
pub open spec fn fits_usize(names: Seq<Seq<char>>, text: Seq<char>) -> bool {
    (text.len() + 1) * points_total(frags_spec(lower_all(names))) <= usize::MAX
}

/// A query is valid when it has at least one name and no empty name.
pub open spec fn valid_query(names: Seq<Seq<char>>) -> bool {
    names.len() > 0 && forall|i: int| 0 <= i < names.len() ==> names[i].len() > 0
}

/// The ranked, scored results of the query: every catalog line containing
/// a fragment of a name, annotated, deduplicated case-insensitively,
/// scored, and sorted by descending score.
#[verifier::loop_isolation(false)]
#[verifier::rlimit(100)]
pub fn rank_animals(names: &Vec<String>, animals: &String) -> (r: Vec<(String, usize)>)
    requires
        fits_usize(names.deep_view(), animals@),
    ensures
        pview(r@) == ranked_model(names.deep_view(), animals@),
        sorted_desc(pview(r@)),
        distinct_identities(pview(r@)),
{
    let ghost nd = names.deep_view();
    let ghost fs = frags_spec(lower_all(nd));
    let ghost lm = lines_model(animals@);

    let mut names_lc: Vec<Vec<char>> = Vec::new();
    let mut j: usize = 0;
    while j < names.len()
        invariant
            j <= names@.len(),
            names_lc.deep_view() == lower_all(nd).take(j as int),
        decreases names@.len() - j,
    {
        proof {
            assert(nd[j as int] == names@[j as int]@);
        }
        let cs = str_chars(names[j].as_str());
        let lc = lower_chars(&cs);
        names_lc.push(lc);
        j = j + 1;
        proof {
            assert(names_lc.deep_view() =~~= lower_all(nd).take(j as int));
        }
    }
    proof {
        assert(lower_all(nd).take(names@.len() as int) =~= lower_all(nd));
    }
    let frags = build_frags(&names_lc);
    let text_chars = str_chars(animals.as_str());
    let lines = split_lines(&text_chars);
    proof {
        assert(lines.deep_view() == lm);
        lemma_lines_count(animals@);
        lemma_points_total_nonneg(fs);
        assert(fold_frags(Seq::empty(), fs.take(0), lm) =~= Seq::<(Seq<char>, nat)>::empty());
        assert(lm.len() * points_total(fs.take(0)) >= 0);
    }
    let mut set: Vec<(Vec<char>, usize)> = Vec::new();
    let mut t: usize = 0;
    while t < frags.len()
        invariant
            t <= frags@.len(),
            sview(set@) == fold_frags(Seq::empty(), fs.take(t as int), lm),
            scores_le(sview(set@), lm.len() * points_total(fs.take(t as int))),
        decreases frags@.len() - t,
    {
        let ghost pt = points_total(fs.take(t as int));
        let ghost pt1 = points_total(fs.take(t as int + 1));
        let ghost dt: int = fs[t as int].len() + FIRST_MATCH_BONUS;
        proof {
            assert(frags.deep_view()[t as int] == frags@[t as int].deep_view());
            assert(frags@[t as int].deep_view() =~= frags@[t as int]@);
            assert(fs.take(t as int + 1).drop_last() =~= fs.take(t as int));
            assert(fs.take(t as int + 1).last() == fs[t as int]);
            assert(pt1 == pt + dt);
            lemma_points_total_prefix(fs, t as int);
            lemma_points_total_prefix(fs, t as int + 1);
            lemma_points_total_nonneg(fs.take(t as int));
            lemma_points_total_nonneg(fs.take(t as int + 1));
            assert(dt * lm.len() <= usize::MAX) by (nonlinear_arith)
                requires
                    0 <= dt,
                    dt <= pt1,
                    pt1 <= points_total(fs),
                    0 <= lm.len() <= animals@.len() + 1,
                    (animals@.len() + 1) * points_total(fs) <= usize::MAX,
            ;
            assert(lm.len() * pt + dt * lm.len() == lm.len() * pt1) by (nonlinear_arith)
                requires
                    pt1 == pt + dt,
            ;
            assert(lm.len() * pt1 <= usize::MAX) by (nonlinear_arith)
                requires
                    0 <= pt1,
                    pt1 <= points_total(fs),
                    0 <= lm.len() <= animals@.len() + 1,
                    (animals@.len() + 1) * points_total(fs) <= usize::MAX,
            ;
            assert forall|i: int|
                0 <= i < set@.len() implies set@[i].1 + (frags@[t as int]@.len()
                + FIRST_MATCH_BONUS) * lines@.len() <= usize::MAX by {
                assert(sview(set@)[i].1 == set@[i].1);
                assert(set@[i].1 <= lm.len() * pt);
            }
        }
        pick_animals(&frags[t], &lines, &mut set);
        proof {
            lemma_fold_lines_scores(
                fold_frags(Seq::empty(), fs.take(t as int), lm),
                fs[t as int],
                lm,
                lm.len() * pt,
            );
        }
        t = t + 1;
    }
    proof {
        assert(fs.take(frags@.len() as int) =~= fs);
    }
    order_animals(&mut set);
    proof {
        lemma_fold_frags_distinct(Seq::empty(), fs, lm);
        lemma_sort_desc_distinct(accum_model(nd, lm));
        lemma_sort_desc_sorted(accum_model(nd, lm));
    }
    let mut r: Vec<(String, usize)> = Vec::new();
    let mut i: usize = 0;
    while i < set.len()
        invariant
            i <= set@.len(),
            sview(set@) == ranked_model(nd, animals@),
            pview(r@) == sview(set@).take(i as int),
        decreases set@.len() - i,
    {
        let e = &set[i];
        let label = string_of_chars(&e.0);
        r.push((label, e.1));
        i = i + 1;
        proof {
            assert(pview(r@) =~= sview(set@).take(i as int));
        }
    }
    proof {
        assert(sview(set@).take(set@.len() as int) =~= sview(set@));
    }
    r
}

/// The ranked, annotated labels of the query, best score first.
#[verifier::loop_isolation(false)]
pub fn find_animals(names: &Vec<String>, animals: &String) -> (r: Vec<String>)
    requires
        fits_usize(names.deep_view(), animals@),
    ensures
        r.deep_view() == labels_of(ranked_model(names.deep_view(), animals@)),
        forall|i: int, j: int|
            0 <= i < j < r@.len() ==> lower_seq(r.deep_view()[i]) != lower_seq(r.deep_view()[j]),
{
    let ranked = rank_animals(names, animals);
    let ghost model = ranked_model(names.deep_view(), animals@);
    let mut r: Vec<String> = Vec::new();
    let mut i: usize = 0;
    while i < ranked.len()
        invariant
            i <= ranked@.len(),
            pview(ranked@) == model,
            r.deep_view() == labels_of(model).take(i as int),
        decreases ranked@.len() - i,
    {
        proof {
            assert(pview(ranked@)[i as int] == model[i as int]);
        }
        let label = ranked[i].0.clone();
        proof {
            assert(label@ == ranked@[i as int].0@);
        }
        r.push(label);
        i = i + 1;
        proof {
            assert(r@[i - 1]@ == model[i - 1].0);
            assert(r.deep_view() =~~= labels_of(model).take(i as int));
        }
    }
    proof {
        assert(labels_of(model).take(model.len() as int) =~= labels_of(model));
        assert forall|i: int, j: int|
            0 <= i < j < r@.len() implies lower_seq(r.deep_view()[i]) != lower_seq(
            r.deep_view()[j],
        ) by {
            assert(r.deep_view()[i] == model[i].0);
            assert(r.deep_view()[j] == model[j].0);
        }
    }
    r
}

/// Runs the engine: validates the query, then matches and ranks. A query
/// with no name, or with an empty name, is rejected as invalid input.
#[verifier::loop_isolation(false)]
pub fn run(names: &Vec<String>, animals: &String) -> (r: Result<Vec<String>, EngineError>)
    requires
        valid_query(names.deep_view()) ==> fits_usize(names.deep_view(), animals@),
    ensures
        match r {
            Ok(v) => valid_query(names.deep_view()) && v.deep_view() == labels_of(
                ranked_model(names.deep_view(), animals@),
            ),
            Err(e) => !valid_query(names.deep_view()) && e == EngineError::InvalidInput,
        },
{
    let ghost nd = names.deep_view();
    if names.len() == 0 {
        return Err(EngineError::InvalidInput);
    }
    let mut i: usize = 0;
    while i < names.len()
        invariant
            i <= names@.len(),
            forall|k: int| 0 <= k < i ==> nd[k].len() > 0,
        decreases names@.len() - i,
    {
        proof {
            assert(nd[i as int] == names@[i as int]@);
        }
        if names[i].as_str().is_empty() {
            return Err(EngineError::InvalidInput);
        }
        i = i + 1;
    }
    Ok(find_animals(names, animals))
}

/// Whether the machine bound `fits_usize` holds for this query: callers
/// outside the proof can test it before running the engine.
#[verifier::loop_isolation(false)]
#[verifier::rlimit(100)]
pub fn inputs_fit(names: &Vec<String>, animals: &String) -> (b: bool)
    ensures
        b == fits_usize(names.deep_view(), animals@),
{
    let ghost nd = names.deep_view();
    let ghost fs = frags_spec(lower_all(nd));
    let mut names_lc: Vec<Vec<char>> = Vec::new();
    let mut j: usize = 0;
    while j < names.len()
        invariant
            j <= names@.len(),
            names_lc.deep_view() == lower_all(nd).take(j as int),
        decreases names@.len() - j,
    {
        proof {
            assert(nd[j as int] == names@[j as int]@);
        }
        let cs = str_chars(names[j].as_str());
        let lc = lower_chars(&cs);
        names_lc.push(lc);
        j = j + 1;
        proof {
            assert(names_lc.deep_view() =~~= lower_all(nd).take(j as int));
        }
    }
    proof {
        assert(lower_all(nd).take(names@.len() as int) =~= lower_all(nd));
    }
    let frags = build_frags(&names_lc);
    let cap: u128 = usize::MAX as u128;
    let mut total: u128 = 0;
    let mut t: usize = 0;
    while t < frags.len()
        invariant
            t <= frags@.len(),
            total == points_total(fs.take(t as int)),
            total <= usize::MAX,
            cap == usize::MAX,
        decreases frags@.len() - t,
    {
        proof {
            assert(frags.deep_view()[t as int] == frags@[t as int].deep_view());
            assert(frags@[t as int].deep_view() =~= frags@[t as int]@);
            assert(fs.take(t as int + 1).drop_last() =~= fs.take(t as int));
            assert(fs.take(t as int + 1).last() == fs[t as int]);
        }
        let step: u128 = (frags[t].len() as u128) + (FIRST_MATCH_BONUS as u128);
        total = total + step;
        t = t + 1;
        if total > cap {
            proof {
                lemma_points_total_prefix(fs, t as int);
                lemma_points_total_nonneg(fs);
                assert((animals@.len() + 1) * points_total(fs) >= points_total(fs))
                    by (nonlinear_arith)
                    requires
                        animals@.len() + 1 >= 1,
                        points_total(fs) >= 0,
                ;
            }
            return false;
        }
    }
    proof {
        assert(fs.take(frags@.len() as int) =~= fs);
    }
    let text_len = animals.as_str().unicode_len();
    proof {
        assert((text_len as u128 + 1) * total < 0x1_0000_0000_0000_0000_0000_0000_0000_0000)
            by (nonlinear_arith)
            requires
                text_len as u128 + 1 <= 0x1_0000_0000_0000_0000,
                total <= 0xffff_ffff_ffff_ffff,
        ;
    }
    let bound = ((text_len as u128) + 1) * total;
    bound <= cap
}

/// Which candidates the engine returns: the ranked results hold an entry
/// whose lower-cased label equals the lower-cased text of a catalog line
/// exactly when some fragment of the query occurs in that lower-cased
/// text.
pub proof fn lemma_ranked_membership(names: Seq<Seq<char>>, text: Seq<char>, k: int)
    requires
        0 <= k < lines_model(text).len(),
    ensures
        has_identity(ranked_model(names, text), lower_seq(lines_model(text)[k])) <==> exists|
            t: int,
        |
            0 <= t < frags_spec(lower_all(names)).len() && contains_frag(
                lower_seq(lines_model(text)[k]),
                #[trigger] frags_spec(lower_all(names))[t],
            ),
{
    let lm = lines_model(text);
    let fs = frags_spec(lower_all(names));
    let accum = accum_model(names, lm);
    let ranked = ranked_model(names, text);
    let id = lower_seq(lm[k]);
    let empty = Seq::<(Seq<char>, nat)>::empty();
    lemma_fold_frags_identity(empty, fs, lm);
    assert(accum == fold_frags(empty, fs, lm));
    assert(!has_identity(empty, id));
    crate::rank::lemma_sort_desc_sorted(accum);
    crate::rank::lemma_sort_desc_keeps(accum);
    if has_identity(ranked, id) {
        let i = choose|i: int| 0 <= i < ranked.len() && lower_seq(ranked[i].0) == id;
        assert(accum.contains(ranked[i]));
        let v = choose|v: int| 0 <= v < accum.len() && accum[v] == ranked[i];
        assert(has_identity(accum, id));
        let (t, w) = choose|t: int, w: int|
            0 <= t < fs.len() && 0 <= w < lm.len() && contains_frag(lower_seq(lm[w]), fs[t]) && id
                == lower_seq(lm[w]);
        assert(contains_frag(id, fs[t]));
    }
    if exists|t: int| 0 <= t < fs.len() && contains_frag(id, #[trigger] fs[t]) {
        let t = choose|t: int| 0 <= t < fs.len() && contains_frag(id, fs[t]);
        assert(contains_frag(lower_seq(lm[k]), fs[t]) && id == lower_seq(lm[k]));
        assert(has_identity(accum, id));
        let i = choose|i: int| 0 <= i < accum.len() && lower_seq(accum[i].0) == id;
        assert(accum.contains(accum[i]));
        assert(ranked.contains(accum[i]));
        let w = choose|w: int| 0 <= w < ranked.len() && ranked[w] == accum[i];
        assert(has_identity(ranked, id));
    }
}

/// The engine is deterministic: two results computed from the same names
/// and the same catalog text are equal.
pub proof fn lemma_engine_deterministic(
    r1: Seq<Seq<char>>,
    r2: Seq<Seq<char>>,
    names: Seq<Seq<char>>,
    text: Seq<char>,
)
    requires
        r1 == labels_of(ranked_model(names, text)),
        r2 == labels_of(ranked_model(names, text)),
    ensures
        r1 == r2,
{
}

} // verus!
