//! Splitting the catalog text into its lines: segments between newline
//! characters, with one carriage return stripped from the end of every
//! terminated segment, and no trailing empty segment.

use vstd::prelude::*;

verus! {

/// The position of the first newline in `s`, or -1 when there is none.
pub open spec fn find_nl(s: Seq<char>) -> int
    decreases s.len(),
{
    if s.len() == 0 {
        -1
    } else if s[0] == '\n' {
        0
    } else {
        let r = find_nl(s.skip(1));
        if r < 0 {
            -1
        } else {
            r + 1
        }
    }
}

/// `find_nl` returns the first newline position, and -1 exactly when the
/// sequence holds no newline.
pub proof fn lemma_find_nl(s: Seq<char>)
    ensures
        find_nl(s) == -1 ==> forall|i: int| 0 <= i < s.len() ==> s[i] != '\n',
        find_nl(s) >= 0 ==> {
            &&& find_nl(s) < s.len()
            &&& s[find_nl(s)] == '\n'
            &&& forall|i: int| 0 <= i < find_nl(s) ==> s[i] != '\n'
        },
    decreases s.len(),
{
    if s.len() == 0 {
    } else if s[0] == '\n' {
    } else {
        lemma_find_nl(s.skip(1));
        let r = find_nl(s.skip(1));
        if r == -1 {
            assert forall|i: int| 0 <= i < s.len() implies s[i] != '\n' by {
                if i >= 1 {
                    assert(s.skip(1)[i - 1] == s[i]);
                }
            }
        } else {
            assert(s.skip(1)[r] == s[r + 1]);
            assert forall|i: int| 0 <= i < r + 1 implies s[i] != '\n' by {
                if i >= 1 {
                    assert(s.skip(1)[i - 1] == s[i]);
                }
            }
        }
    }
}

/// The first newline of `pre + '\n' + rest` stands right after `pre` when
/// `pre` itself holds no newline.
pub proof fn lemma_find_nl_concat(pre: Seq<char>, rest: Seq<char>)
    requires
        forall|i: int| 0 <= i < pre.len() ==> pre[i] != '\n',
    ensures
        find_nl(pre + seq!['\n'] + rest) == pre.len(),
    decreases pre.len(),
{
    let s = pre + seq!['\n'] + rest;
    if pre.len() == 0 {
        assert(s[0] == '\n');
    } else {
        assert(s[0] == pre[0]);
        assert(s.skip(1) =~= pre.skip(1) + seq!['\n'] + rest);
        lemma_find_nl_concat(pre.skip(1), rest);
    }
}

/// A line with one trailing carriage return removed.
pub open spec fn strip_cr(l: Seq<char>) -> Seq<char> {
    if l.len() > 0 && l.last() == '\r' {
        l.drop_last()
    } else {
        l
    }
}

/// The lines of a block of text: the segments between newlines, each
/// terminated segment with one trailing carriage return stripped, and the
/// unterminated final segment kept as it stands (absent when empty).
pub open spec fn lines_model(s: Seq<char>) -> Seq<Seq<char>>
    decreases s.len(),
    via lines_model_decreases
{
    if s.len() == 0 {
        Seq::empty()
    } else {
        let i = find_nl(s);
        if i < 0 {
            seq![s]
        } else {
            seq![strip_cr(s.take(i))] + lines_model(s.skip(i + 1))
        }
    }
}

#[via_fn]
proof fn lines_model_decreases(s: Seq<char>) {
    lemma_find_nl(s);
}

/// There is at most one line per character of text, plus the final
/// unterminated one.
pub proof fn lemma_lines_count(s: Seq<char>)
    ensures
        lines_model(s).len() <= s.len(),
    decreases s.len(),
{
    if s.len() == 0 {
    } else {
        let i = find_nl(s);
        lemma_find_nl(s);
        if i >= 0 {
            lemma_lines_count(s.skip(i + 1));
        }
    }
}

/// The lines of the given text, as character vectors.
#[verifier::loop_isolation(false)]
pub fn split_lines(text: &Vec<char>) -> (r: Vec<Vec<char>>)
    ensures
        r.deep_view() == lines_model(text@),
{
    let mut r: Vec<Vec<char>> = Vec::new();
    let mut cur: Vec<char> = Vec::new();
    proof {
        assert(cur@ + text@.skip(0) =~= text@);
        assert(r.deep_view() + lines_model(text@) =~~= lines_model(text@));
    }
    let mut k: usize = 0;
    while k < text.len()
        invariant
            k <= text@.len(),
            forall|i: int| 0 <= i < cur@.len() ==> cur@[i] != '\n',
            lines_model(text@) == r.deep_view() + lines_model(cur@ + text@.skip(k as int)),
        decreases text@.len() - k,
    {
        let ghost r0 = r.deep_view();
        let ghost cur0 = cur@;
        let ghost rest = text@.skip(k as int + 1);
        let c = text[k];
        if c == '\n' {
            proof {
                let s = cur0 + seq!['\n'] + rest;
                assert(cur0 + text@.skip(k as int) =~= s);
                lemma_find_nl_concat(cur0, rest);
                assert(s.take(cur0.len() as int) =~= cur0);
                assert(s.skip(cur0.len() as int + 1) =~= rest);
                assert(lines_model(s) == seq![strip_cr(cur0)] + lines_model(rest));
            }
            let mut line = cur;
            if line.len() > 0 && line[line.len() - 1] == '\r' {
                line.pop();
            }
            proof {
                assert(line@ == strip_cr(cur0));
            }
            r.push(line);
            cur = Vec::new();
            proof {
                assert(r.deep_view() =~~= r0 + seq![strip_cr(cur0)]);
                assert(cur@ + rest =~= rest);
                assert(lines_model(text@) =~~= r.deep_view() + lines_model(cur@ + rest));
            }
        } else {
            cur.push(c);
            proof {
                assert(cur@ + rest =~= cur0 + text@.skip(k as int));
            }
        }
        k = k + 1;
    }
    proof {
        assert(cur@ + text@.skip(text@.len() as int) =~= cur@);
        lemma_find_nl(cur@);
    }
    if cur.len() > 0 {
        proof {
            assert(lines_model(cur@) =~= seq![cur@]);
        }
        let ghost r0 = r.deep_view();
        let ghost cur0 = cur@;
        r.push(cur);
        proof {
            assert(r.deep_view() =~~= r0 + seq![cur0]);
        }
    } else {
        proof {
            assert(lines_model(cur@) =~= Seq::<Seq<char>>::empty());
            assert(r.deep_view() + lines_model(cur@) =~~= r.deep_view());
        }
    }
    r
}

} // verus!
