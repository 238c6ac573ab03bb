//! Case-insensitive substring replacement.

use vstd::prelude::*;
use vstd::string::{StrSliceExecFns, StringExecFns};
use crate::token_helper::eq_upper;

verus! {

/// Replacement of every leftmost, non-overlapping, case-insensitive
/// occurrence of `p` in `s` by `r`. An empty pattern matches nothing.
pub open spec fn spec_replace_ci(s: Seq<char>, p: Seq<char>, r: Seq<char>) -> Seq<char>
    decreases s.len(),
{
    if p.len() == 0 {
        s
    } else if s.len() < p.len() {
        s
    } else if eq_upper(s.subrange(0, p.len() as int), p) {
        r + spec_replace_ci(s.skip(p.len() as int), p, r)
    } else {
        seq![s[0]] + spec_replace_ci(s.skip(1), p, r)
    }
}

/// Replaces every leftmost, non-overlapping occurrence of `pattern`
/// (compared case-insensitively) in `input` by `replacement`.
pub fn replace_case_insensitive(input: &str, pattern: &str, replacement: &str) -> (out: String)
    ensures
        out@ == spec_replace_ci(input@, pattern@, replacement@),
{
    let n = input.unicode_len();
    let plen = pattern.unicode_len();
    if plen == 0 {
        let out = input.to_owned();
        return out;
    }
    let mut out = String::new();
    let mut i: usize = 0;
    proof {
        assert(input@.skip(0) =~= input@);
        assert(out@ + spec_replace_ci(input@, pattern@, replacement@) =~= spec_replace_ci(
            input@,
            pattern@,
            replacement@,
        ));
    }
    while i < n
        invariant
            0 <= i <= n,
            n == input@.len(),
            plen == pattern@.len(),
            plen > 0,
            spec_replace_ci(input@, pattern@, replacement@) == out@ + spec_replace_ci(
                input@.skip(i as int),
                pattern@,
                replacement@,
            ),
        decreases n - i,
    {
        let matched: bool = if n - i >= plen {
            let window = input.substring_char(i, i + plen);
            crate::token_helper::eq_ignore_case(window, pattern)
        } else {
            false
        };
        if matched {
            proof {
                let rest = input@.skip(i as int);
                assert(rest.subrange(0, pattern@.len() as int) =~= input@.subrange(
                    i as int,
                    i + plen,
                ));
                assert(rest.skip(pattern@.len() as int) =~= input@.skip(i + plen));
            }
            out.append(replacement);
            i = i + plen;
        } else {
            proof {
                let rest = input@.skip(i as int);
                if rest.len() >= pattern@.len() {
                    assert(rest.subrange(0, pattern@.len() as int) =~= input@.subrange(
                        i as int,
                        i + plen,
                    ));
                }
                assert(rest.skip(1) =~= input@.skip(i + 1));
                assert(seq![rest[0]] =~= input@.subrange(i as int, i + 1));
            }
            let piece = input.substring_char(i, i + 1);
            out.append(piece);
            i = i + 1;
        }
    }
    proof {
        assert(input@.skip(n as int) =~= Seq::<char>::empty());
    }
    out
}

} // verus!
