//! Contiguous-substring search over character sequences: occurrence
//! predicates, first-occurrence search, case-insensitive equality, and the
//! annotation step that upper-cases the matched part of a label.

use vstd::prelude::*;
use crate::chars::lower_char;
use crate::chars::lower_seq;
use crate::chars::upper_seq;
use crate::chars::lemma_lower_upper_seq;
use crate::chars::lemma_lower_seq_add;
use crate::chars::to_lower;
use crate::chars::to_upper;

verus! {

/// `needle` occurs in `hay` as a contiguous substring starting at `i`.
pub open spec fn is_match_at(hay: Seq<char>, needle: Seq<char>, i: int) -> bool {
    &&& 0 <= i
    &&& i + needle.len() <= hay.len()
    &&& hay.subrange(i, i + needle.len() as int) == needle
}

/// `needle` occurs somewhere in `hay` as a contiguous substring.
pub open spec fn contains_frag(hay: Seq<char>, needle: Seq<char>) -> bool {
    exists|i: int| is_match_at(hay, needle, i)
}

/// The first position at which `needle` occurs in `hay`, or -1 when it
/// does not occur at all.
pub open spec fn find_sub(hay: Seq<char>, needle: Seq<char>) -> int
    decreases hay.len(),
{
    if needle.len() == 0 {
        0
    } else if hay.len() < needle.len() {
        -1
    } else if hay.subrange(0, needle.len() as int) == needle {
        0
    } else {
        let r = find_sub(hay.skip(1), needle);
        if r < 0 {
            -1
        } else {
            r + 1
        }
    }
}

/// A match of `needle` inside `hay` at position `i >= 1` is the same thing
/// as a match inside `hay` without its first character at position `i - 1`.
proof fn lemma_match_shift(hay: Seq<char>, needle: Seq<char>, i: int)
    requires
        1 <= i,
        hay.len() >= 1,
    ensures
        is_match_at(hay, needle, i) == is_match_at(hay.skip(1), needle, i - 1),
{
    if i + needle.len() <= hay.len() {
        assert(hay.skip(1).subrange(i - 1, i - 1 + needle.len() as int) =~= hay.subrange(
            i,
            i + needle.len() as int,
        ));
    }
}

/// `find_sub` returns the first occurrence of `needle` in `hay`, and -1
/// exactly when there is none.
pub proof fn lemma_find_sub(hay: Seq<char>, needle: Seq<char>)
    ensures
        find_sub(hay, needle) == -1 ==> !contains_frag(hay, needle),
        find_sub(hay, needle) >= 0 ==> is_match_at(hay, needle, find_sub(hay, needle)),
        find_sub(hay, needle) >= 0 ==> forall|j: int|
            0 <= j < find_sub(hay, needle) ==> !is_match_at(hay, needle, j),
    decreases hay.len(),
{
    if needle.len() == 0 {
        assert(hay.subrange(0, 0) =~= needle);
        assert(is_match_at(hay, needle, 0));
    } else if hay.len() < needle.len() {
        assert(!contains_frag(hay, needle));
    } else if hay.subrange(0, needle.len() as int) == needle {
        assert(is_match_at(hay, needle, 0));
    } else {
        lemma_find_sub(hay.skip(1), needle);
        let r = find_sub(hay.skip(1), needle);
        if r < 0 {
            assert forall|i: int| !is_match_at(hay, needle, i) by {
                if 1 <= i {
                    lemma_match_shift(hay, needle, i);
                } else if i == 0 {
                    assert(!is_match_at(hay, needle, 0));
                }
            }
        } else {
            lemma_match_shift(hay, needle, r + 1);
            assert(is_match_at(hay, needle, r + 1));
            assert forall|j: int| 0 <= j < r + 1 implies !is_match_at(hay, needle, j) by {
                if 1 <= j {
                    lemma_match_shift(hay, needle, j);
                }
            }
        }
    }
}

/// Whether `needle` occurs in `hay` starting exactly at position `i`.
fn match_at(hay: &Vec<char>, needle: &Vec<char>, i: usize) -> (r: bool)
    requires
        i + needle@.len() <= hay@.len(),
    ensures
        r == is_match_at(hay@, needle@, i as int),
{
    let hlen = hay.len();
    let mut j: usize = 0;
    while j < needle.len()
        invariant
            hlen == hay@.len(),
            i + needle@.len() <= hay@.len(),
            j <= needle@.len(),
            forall|k: int| 0 <= k < j ==> hay@[i + k] == needle@[k],
        decreases needle@.len() - j,
    {
        if hay[i + j] != needle[j] {
            proof {
                assert(hay@.subrange(i as int, i + needle@.len() as int)[j as int] == hay@[i + j]);
            }
            return false;
        }
        j = j + 1;
    }
    proof {
        assert(hay@.subrange(i as int, i + needle@.len() as int) =~= needle@);
    }
    true
}

/// The first position of `needle` inside `hay`, or `None` when `needle`
/// does not occur in `hay`.
#[verifier::loop_isolation(false)]
pub fn find_first(hay: &Vec<char>, needle: &Vec<char>) -> (r: Option<usize>)
    ensures
        match r {
            Some(i) => {
                &&& i as int == find_sub(hay@, needle@)
                &&& is_match_at(hay@, needle@, i as int)
                &&& forall|j: int| 0 <= j < i ==> !is_match_at(hay@, needle@, j)
            },
            None => {
                &&& find_sub(hay@, needle@) == -1
                &&& !contains_frag(hay@, needle@)
            },
        },
{
    proof {
        lemma_find_sub(hay@, needle@);
    }
    if needle.len() > hay.len() {
        proof {
            assert(!contains_frag(hay@, needle@));
        }
        return None;
    }
    if needle.len() == 0 {
        proof {
            assert(hay@.subrange(0, 0) =~= needle@);
            assert(is_match_at(hay@, needle@, 0));
        }
        return Some(0);
    }
    let last = hay.len() - needle.len();
    let mut i: usize = 0;
    while i <= last
        invariant
            1 <= needle@.len(),
            last == hay@.len() - needle@.len(),
            i <= last + 1,
            forall|j: int| 0 <= j < i ==> !is_match_at(hay@, needle@, j),
        decreases last + 1 - i,
    {
        if match_at(hay, needle, i) {
            proof {
                let fs = find_sub(hay@, needle@);
                assert(is_match_at(hay@, needle@, i as int));
                if fs == -1 {
                    assert(contains_frag(hay@, needle@));
                    assert(false);
                } else if fs < i {
                    assert(is_match_at(hay@, needle@, fs));
                    assert(false);
                } else if fs > i {
                    assert(!is_match_at(hay@, needle@, i as int));
                    assert(false);
                }
            }
            return Some(i);
        }
        i = i + 1;
    }
    proof {
        assert forall|j: int| !is_match_at(hay@, needle@, j) by {
            if 0 <= j < i {
            } else {
                assert(j < 0 || j + needle@.len() > hay@.len());
            }
        }
        assert(!contains_frag(hay@, needle@));
    }
    None
}

/// Whether `needle` occurs anywhere in `hay` as a contiguous substring.
pub fn contains_chars(hay: &Vec<char>, needle: &Vec<char>) -> (r: bool)
    ensures
        r == contains_frag(hay@, needle@),
{
    match find_first(hay, needle) {
        Some(i) => {
            proof {
                assert(is_match_at(hay@, needle@, i as int));
            }
            true
        },
        None => false,
    }
}

/// Whether two character vectors are equal once both are ASCII lower-cased.
pub fn eq_ignore_case(a: &Vec<char>, b: &Vec<char>) -> (r: bool)
    ensures
        r == (lower_seq(a@) == lower_seq(b@)),
{
    if a.len() != b.len() {
        proof {
            assert(lower_seq(a@).len() != lower_seq(b@).len());
        }
        return false;
    }
    let mut i: usize = 0;
    while i < a.len()
        invariant
            a@.len() == b@.len(),
            i <= a@.len(),
            forall|j: int| 0 <= j < i ==> lower_char(a@[j]) == lower_char(b@[j]),
        decreases a@.len() - i,
    {
        if to_lower(a[i]) != to_lower(b[i]) {
            proof {
                assert(lower_seq(a@)[i as int] != lower_seq(b@)[i as int]);
            }
            return false;
        }
        i = i + 1;
    }
    proof {
        assert(lower_seq(a@) =~= lower_seq(b@));
    }
    true
}

/// The label with its first exact occurrence of `frag` upper-cased; the
/// label unchanged when `frag` does not occur in it.
pub open spec fn annotate_spec(label: Seq<char>, frag: Seq<char>) -> Seq<char> {
    let i = find_sub(label, frag);
    if i >= 0 {
        label.take(i) + upper_seq(frag) + label.skip(i + frag.len() as int)
    } else {
        label
    }
}

/// Annotation never changes the lower-cased text of a label: it only moves
/// characters between the two ASCII letter cases.
pub proof fn lemma_annotate_keeps_identity(label: Seq<char>, frag: Seq<char>)
    ensures
        lower_seq(annotate_spec(label, frag)) == lower_seq(label),
{
    let i = find_sub(label, frag);
    if i >= 0 {
        lemma_find_sub(label, frag);
        let flen = frag.len() as int;
        assert(label =~= label.take(i) + label.subrange(i, i + flen) + label.skip(i + flen));
        lemma_lower_seq_add(label.take(i), frag);
        lemma_lower_seq_add(label.take(i) + frag, label.skip(i + flen));
        lemma_lower_seq_add(label.take(i), upper_seq(frag));
        lemma_lower_seq_add(label.take(i) + upper_seq(frag), label.skip(i + flen));
        lemma_lower_upper_seq(frag);
        assert(lower_seq(annotate_spec(label, frag)) =~= lower_seq(label));
    }
}

/// The label with its first exact occurrence of `frag` upper-cased.
pub fn annotate(label: &Vec<char>, frag: &Vec<char>) -> (r: Vec<char>)
    ensures
        r@ == annotate_spec(label@, frag@),
{
    match find_first(label, frag) {
        None => {
            let mut r: Vec<char> = Vec::new();
            let mut i: usize = 0;
            while i < label.len()
                invariant
                    i <= label@.len(),
                    r@ == label@.take(i as int),
                decreases label@.len() - i,
            {
                r.push(label[i]);
                i = i + 1;
                proof {
                    assert(r@ =~= label@.take(i as int));
                }
            }
            proof {
                assert(label@.take(label@.len() as int) =~= label@);
            }
            r
        },
        Some(p) => {
            let llen = label.len();
            let mut r: Vec<char> = Vec::new();
            let mut i: usize = 0;
            while i < p
                invariant
                    llen == label@.len(),
                    p + frag@.len() <= label@.len(),
                    i <= p,
                    r@ == label@.take(i as int),
                decreases p - i,
            {
                r.push(label[i]);
                i = i + 1;
                proof {
                    assert(r@ =~= label@.take(i as int));
                }
            }
            let mut j: usize = 0;
            while j < frag.len()
                invariant
                    llen == label@.len(),
                    p + frag@.len() <= label@.len(),
                    j <= frag@.len(),
                    r@ == label@.take(p as int) + upper_seq(frag@).take(j as int),
                decreases frag@.len() - j,
            {
                r.push(to_upper(frag[j]));
                j = j + 1;
                proof {
                    assert(r@ =~= label@.take(p as int) + upper_seq(frag@).take(j as int));
                }
            }
            proof {
                assert(upper_seq(frag@).take(frag@.len() as int) =~= upper_seq(frag@));
            }
            let mut k: usize = p + frag.len();
            while k < label.len()
                invariant
                    llen == label@.len(),
                    p + frag@.len() <= k <= label@.len(),
                    r@ == label@.take(p as int) + upper_seq(frag@) + label@.subrange(
                        p + frag@.len(),
                        k as int,
                    ),
                decreases label@.len() - k,
            {
                r.push(label[k]);
                k = k + 1;
                proof {
                    assert(r@ =~= label@.take(p as int) + upper_seq(frag@) + label@.subrange(
                        p + frag@.len(),
                        k as int,
                    ));
                }
            }
            proof {
                assert(label@.subrange(p + frag@.len(), label@.len() as int) =~= label@.skip(
                    p + frag@.len(),
                ));
                assert(r@ =~= annotate_spec(label@, frag@));
            }
            r
        },
    }
}

} // verus!
