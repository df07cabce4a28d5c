//! Command-line input handling: a verified signed decimal parser for the
//! window size, and the split of the argument list into size and names.

use vstd::prelude::*;
use crate::chars::str_chars;
use crate::engine::EngineError;

verus! {

/// Whether the character is an ASCII decimal digit.
pub open spec fn is_digit(c: char) -> bool {
    48 <= c as u32 <= 57
}

/// The numeric value of a digit sequence read in base ten.
pub open spec fn digits_val(s: Seq<char>) -> int
    decreases s.len(),
{
    if s.len() == 0 {
        0
    } else {
        digits_val(s.drop_last()) * 10 + (s.last() as u32 - 48)
    }
}

/// Every character of the sequence is a decimal digit.
pub open spec fn all_digits(s: Seq<char>) -> bool {
    forall|i: int| 0 <= i < s.len() ==> is_digit(s[i])
}

/// The digits of an integer literal: everything after one optional sign.
pub open spec fn digits_part(s: Seq<char>) -> Seq<char> {
    if s.len() > 0 && (s[0] == '-' || s[0] == '+') {
        s.drop_first()
    } else {
        s
    }
}

/// Whether the literal carries a minus sign.
pub open spec fn is_negative(s: Seq<char>) -> bool {
    s.len() > 0 && s[0] == '-'
}

/// A well-formed signed decimal integer that fits in `i32`: one optional
/// sign, then at least one digit, nothing else, and a value in range.
pub open spec fn is_i32_str(s: Seq<char>) -> bool {
    let d = digits_part(s);
    &&& d.len() > 0
    &&& all_digits(d)
    &&& (if is_negative(s) {
        digits_val(d) <= 0x8000_0000
    } else {
        digits_val(d) <= 0x7fff_ffff
    })
}

/// The value of a well-formed signed decimal integer.
pub open spec fn i32_value(s: Seq<char>) -> int {
    if is_negative(s) {
        -digits_val(digits_part(s))
    } else {
        digits_val(digits_part(s))
    }
}

/// The value of a digit string never falls when digits are appended, and
/// is never negative.
pub proof fn lemma_digits_val_monotone(s: Seq<char>, t: int)
    requires
        all_digits(s),
        0 <= t <= s.len(),
    ensures
        0 <= digits_val(s.take(t)) <= digits_val(s),
    decreases s.len() - t,
{
    if t == s.len() {
        assert(s.take(t) =~= s);
        lemma_digits_val_nonneg(s);
    } else {
        lemma_digits_val_monotone(s, t + 1);
        lemma_digits_val_nonneg(s.take(t));
        assert(s.take(t + 1).drop_last() =~= s.take(t));
        assert(is_digit(s.take(t + 1).last()));
    }
}

/// A digit string's value is never negative.
pub proof fn lemma_digits_val_nonneg(s: Seq<char>)
    requires
        all_digits(s),
    ensures
        digits_val(s) >= 0,
    decreases s.len(),
{
    if s.len() > 0 {
        assert(all_digits(s.drop_last()));
        lemma_digits_val_nonneg(s.drop_last());
        assert(is_digit(s.last()));
    }
}

/// Parses a signed decimal integer as the standard library's `i32` parser
/// accepts it: one optional sign, then one or more digits, value in range.
#[verifier::loop_isolation(false)]
pub fn parse_i32(s: &str) -> (r: Result<i32, EngineError>)
    ensures
        match r {
            Ok(v) => is_i32_str(s@) && v as int == i32_value(s@),
            Err(e) => !is_i32_str(s@) && e == EngineError::ArgumentParseError,
        },
{
    let cs = str_chars(s);
    let n = cs.len();
    if n == 0 {
        return Err(EngineError::ArgumentParseError);
    }
    let c0 = cs[0];
    let neg = c0 == '-';
    let mut start: usize = 0;
    if c0 == '-' || c0 == '+' {
        start = 1;
    }
    let ghost d = digits_part(s@);
    proof {
        assert(d =~= s@.skip(start as int));
    }
    if start == n {
        return Err(EngineError::ArgumentParseError);
    }
    let limit: u64 = if neg {
        0x8000_0000
    } else {
        0x7fff_ffff
    };
    let mut acc: u64 = 0;
    let mut i: usize = start;
    while i < n
        invariant
            start <= i <= n,
            acc == digits_val(d.take(i - start)),
            acc <= limit,
            all_digits(d.take(i - start)),
        decreases n - i,
    {
        let c = cs[i];
        let u = c as u32;
        proof {
            assert(d[i - start] == s@[i as int]);
        }
        if u < 48 || u > 57 {
            proof {
                assert(!is_digit(d[i - start]));
            }
            return Err(EngineError::ArgumentParseError);
        }
        acc = acc * 10 + ((u - 48) as u64);
        i = i + 1;
        proof {
            assert(d.take(i - start).drop_last() =~= d.take(i - start - 1));
            assert(d.take(i - start).last() == d[i - start - 1]);
            assert(all_digits(d.take(i - start)));
        }
        if acc > limit {
            proof {
                if is_i32_str(s@) {
                    lemma_digits_val_monotone(d, i - start);
                    assert(false);
                }
            }
            return Err(EngineError::ArgumentParseError);
        }
    }
    proof {
        assert(d.take(n - start) =~= d);
    }
    if neg {
        let v: i64 = -(acc as i64);
        Ok(v as i32)
    } else {
        Ok(acc as i32)
    }
}

/// Splits the command line into the window size and the query names: the
/// first argument is the program's own name, the second the number of rank
/// tiers to print, and the rest are the names. Too few arguments, or a
/// window size that does not parse, are an argument error.
#[verifier::loop_isolation(false)]
pub fn parse_inputs(args: &Vec<String>) -> (r: Result<(Vec<String>, i32), EngineError>)
    ensures
        match r {
            Ok(p) => {
                &&& args@.len() >= 3
                &&& is_i32_str(args@[1]@)
                &&& p.1 as int == i32_value(args@[1]@)
                &&& p.0.deep_view() == args.deep_view().skip(2)
            },
            Err(e) => {
                &&& (args@.len() < 3 || !is_i32_str(args@[1]@))
                &&& e == EngineError::ArgumentParseError
            },
        },
{
    if args.len() < 3 {
        return Err(EngineError::ArgumentParseError);
    }
    let range = match parse_i32(args[1].as_str()) {
        Ok(v) => v,
        Err(e) => {
            return Err(e);
        },
    };
    let mut names: Vec<String> = Vec::new();
    let mut i: usize = 2;
    while i < args.len()
        invariant
            2 <= i <= args@.len(),
            names.deep_view() == args.deep_view().subrange(2, i as int),
        decreases args@.len() - i,
    {
        let a = args[i].clone();
        names.push(a);
        i = i + 1;
        proof {
            assert(names.deep_view() =~~= args.deep_view().subrange(2, i as int));
        }
    }
    proof {
        assert(args.deep_view().subrange(2, args@.len() as int) =~= args.deep_view().skip(2));
    }
    Ok((names, range))
}

} // verus!
