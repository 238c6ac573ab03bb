//! The lexer: splits a raw filename into categorized atoms, fusing runs of
//! unclassified characters and flagging atoms that lie inside a matched
//! bracket pair.

use vstd::prelude::*;
use vstd::string::{StrSliceExecFns, StringExecFns};
use crate::token::{BracketType, Token, TokenCategory, TokenCategoryView, TokenKind, TokenView, tok_model};

verus! {

/// Opening brackets; the set intentionally pairs asymmetrically with the
/// closing set on two of the CJK brackets.
pub open spec fn spec_is_opening_bracket_char(c: char) -> bool {
    c == '[' || c == '(' || c == '{' || c == '\u{300C}' || c == '\u{300E}' || c == '\u{3011}'
        || c == '\u{FF08}'
}

pub fn is_opening_bracket_char(c: char) -> (r: bool)
    ensures
        r == spec_is_opening_bracket_char(c),
{
    c == '[' || c == '(' || c == '{' || c == '\u{300C}' || c == '\u{300E}' || c == '\u{3011}'
        || c == '\u{FF08}'
}

/// Closing brackets.
pub open spec fn spec_is_closing_bracket_char(c: char) -> bool {
    c == ']' || c == ')' || c == '}' || c == '\u{300D}' || c == '\u{300F}' || c == '\u{3010}'
        || c == '\u{FF09}'
}

pub fn is_closing_bracket_char(c: char) -> (r: bool)
    ensures
        r == spec_is_closing_bracket_char(c),
{
    c == ']' || c == ')' || c == '}' || c == '\u{300D}' || c == '\u{300F}' || c == '\u{3010}'
        || c == '\u{FF09}'
}

/// Delimiters: underscore, space, ideographic space, dot, pipe.
pub open spec fn spec_is_delimiter_char(c: char) -> bool {
    c == '_' || c == ' ' || c == '\u{3000}' || c == '.' || c == '|'
}

pub fn is_delimiter_char(c: char) -> (r: bool)
    ensures
        r == spec_is_delimiter_char(c),
{
    c == '_' || c == ' ' || c == '\u{3000}' || c == '.' || c == '|'
}

/// Separators: dash, plus, tilde.
pub open spec fn spec_is_separator_char(c: char) -> bool {
    c == '-' || c == '+' || c == '~'
}

pub fn is_separator_char(c: char) -> (r: bool)
    ensures
        r == spec_is_separator_char(c),
{
    c == '-' || c == '+' || c == '~'
}

/// A character none of the four classes claims; runs of these fuse into one
/// unknown atom.
pub open spec fn spec_is_unknown_char(c: char) -> bool {
    !spec_is_opening_bracket_char(c) && !spec_is_closing_bracket_char(c)
        && !spec_is_delimiter_char(c) && !spec_is_separator_char(c)
}

/// Category the lexer gives a single classified character.
pub open spec fn char_category(c: char) -> TokenCategoryView {
    if spec_is_opening_bracket_char(c) {
        TokenCategoryView::Bracket(BracketType::Opening)
    } else if spec_is_closing_bracket_char(c) {
        TokenCategoryView::Bracket(BracketType::Closing)
    } else if spec_is_delimiter_char(c) {
        TokenCategoryView::Delimiter
    } else if spec_is_separator_char(c) {
        TokenCategoryView::Separator
    } else {
        TokenCategoryView::Unknown
    }
}

/// The atom the lexer emits for one classified character.
pub open spec fn char_token(c: char) -> TokenView {
    TokenView {
        id: 0,
        value: seq![c],
        enclosed: false,
        category: char_category(c),
        kind: TokenKind::Unknown,
    }
}

/// The unknown atom covering one fused run.
pub open spec fn unknown_token(v: Seq<char>) -> TokenView {
    TokenView {
        id: 0,
        value: v,
        enclosed: false,
        category: TokenCategoryView::Unknown,
        kind: TokenKind::Unknown,
    }
}

/// End of the run of unclassified characters starting at `from`.
pub open spec fn unknown_run_end(s: Seq<char>, from: int) -> int
    decreases s.len() - from,
{
    if from < s.len() && spec_is_unknown_char(s[from]) {
        unknown_run_end(s, from + 1)
    } else {
        from
    }
}

pub proof fn lemma_unknown_run_end(s: Seq<char>, from: int)
    requires
        0 <= from <= s.len(),
    ensures
        from <= unknown_run_end(s, from) <= s.len(),
        forall|j: int|
            from <= j < unknown_run_end(s, from) ==> spec_is_unknown_char(#[trigger] s[j]),
        unknown_run_end(s, from) == s.len() || !spec_is_unknown_char(s[unknown_run_end(s, from)]),
    decreases s.len() - from,
{
    if from < s.len() && spec_is_unknown_char(s[from]) {
        lemma_unknown_run_end(s, from + 1);
    }
}

/// The lexed atom sequence before the enclosure pass: one atom per
/// classified character, one atom per fused run of unclassified characters.
pub open spec fn lex_spec(s: Seq<char>) -> Seq<TokenView>
    decreases s.len(),
    via lex_spec_decreases
{
    if s.len() == 0 {
        Seq::empty()
    } else if !spec_is_unknown_char(s[0]) {
        seq![char_token(s[0])] + lex_spec(s.drop_first())
    } else {
        let k = unknown_run_end(s, 0);
        seq![unknown_token(s.subrange(0, k))] + lex_spec(s.skip(k))
    }
}

#[via_fn]
proof fn lex_spec_decreases(s: Seq<char>) {
    if s.len() > 0 && spec_is_unknown_char(s[0]) {
        lemma_unknown_run_end(s, 0);
        assert(unknown_run_end(s, 0) >= 1) by {
            if unknown_run_end(s, 0) == 0 {
                assert(!spec_is_unknown_char(s[0]));
            }
        }
    }
}

/// Concatenation of the literals of a sequence of atoms.
pub open spec fn values_concat(vs: Seq<TokenView>) -> Seq<char>
    decreases vs.len(),
{
    if vs.len() == 0 {
        Seq::empty()
    } else {
        vs[0].value + values_concat(vs.drop_first())
    }
}

/// Concatenating the lexed atoms' literals in order restores the input.
pub proof fn lemma_lex_round_trip(s: Seq<char>)
    ensures
        values_concat(lex_spec(s)) =~= s,
    decreases s.len(),
{
    if s.len() == 0 {
    } else if !spec_is_unknown_char(s[0]) {
        lemma_lex_round_trip(s.drop_first());
        let vs = lex_spec(s);
        assert(vs.drop_first() =~= lex_spec(s.drop_first()));
    } else {
        let k = unknown_run_end(s, 0);
        lemma_unknown_run_end(s, 0);
        assert(k >= 1);
        lemma_lex_round_trip(s.skip(k));
        let vs = lex_spec(s);
        assert(vs.drop_first() =~= lex_spec(s.skip(k)));
    }
}

/// The buffer of the enclosure scan over the first `n` atoms: the positions
/// buffered so far (unknown atoms and closing brackets seen while a bracket
/// group is open), and whether a group is open.
pub open spec fn encl_state(s: Seq<TokenView>, n: int) -> (Seq<int>, bool)
    decreases n,
{
    if n <= 0 {
        (Seq::empty(), false)
    } else {
        let prev = encl_state(s, n - 1);
        let t = s[n - 1];
        let opened = prev.1 || t.category == TokenCategoryView::Bracket(BracketType::Opening);
        if opened {
            if t.category is Unknown {
                (prev.0.push(n - 1), opened)
            } else if t.category == TokenCategoryView::Bracket(BracketType::Closing) {
                (prev.0.push(n - 1), false)
            } else {
                (prev.0, opened)
            }
        } else {
            (prev.0, opened)
        }
    }
}

pub proof fn lemma_encl_state_bounds(s: Seq<TokenView>, n: int)
    requires
        n <= s.len(),
    ensures
        forall|k: int|
            0 <= k < encl_state(s, n).0.len() ==> 0 <= #[trigger] encl_state(s, n).0[k] < n,
    decreases n,
{
    if n > 0 {
        lemma_encl_state_bounds(s, n - 1);
        assert(forall|k: int|
            0 <= k < encl_state(s, n - 1).0.len() ==> encl_state(s, n).0[k] == #[trigger] encl_state(
                s,
                n - 1,
            ).0[k]);
    }
}

/// The buffered positions after the final adjustment: if the buffer does not
/// end with a closing bracket — the input ended inside an open group — its
/// last unknown atom is dropped.
pub open spec fn encl_marked(s: Seq<TokenView>) -> Seq<int> {
    let buf = encl_state(s, s.len() as int).0;
    if buf.len() > 0 && s[buf.last()].category is Unknown {
        buf.drop_last()
    } else {
        buf
    }
}

/// Whether the enclosure pass flags the atom at position `i`.
pub open spec fn enclosed_at(s: Seq<TokenView>, i: int) -> bool {
    encl_marked(s).contains(i) && s[i].category is Unknown
}

/// The stream after the enclosure pass.
pub open spec fn mark_enclosed_spec(s: Seq<TokenView>) -> Seq<TokenView> {
    Seq::new(
        s.len(),
        |i: int|
            TokenView {
                enclosed: s[i].enclosed || enclosed_at(s, i),
                ..s[i]
            },
    )
}

/// The full lexer: classified characters, fused unknown runs, enclosure
/// flags.
pub open spec fn tokenize_spec(s: Seq<char>) -> Seq<TokenView> {
    mark_enclosed_spec(lex_spec(s))
}

/// Round trip of the whole lexer: the atoms' literals concatenate back to
/// the input.
pub proof fn lemma_tokenize_round_trip(s: Seq<char>)
    ensures
        values_concat(tokenize_spec(s)) =~= s,
{
    lemma_lex_round_trip(s);
    lemma_values_concat_pointwise(lex_spec(s), tokenize_spec(s));
}

/// Two atom sequences with pointwise equal literals concatenate equally.
pub proof fn lemma_values_concat_pointwise(a: Seq<TokenView>, b: Seq<TokenView>)
    requires
        a.len() == b.len(),
        forall|i: int| 0 <= i < a.len() ==> (#[trigger] a[i]).value == b[i].value,
    ensures
        values_concat(a) =~= values_concat(b),
    decreases a.len(),
{
    if a.len() > 0 {
        assert(forall|i: int|
            0 <= i < a.len() - 1 ==> (#[trigger] a.drop_first()[i]).value
                == b.drop_first()[i].value);
        lemma_values_concat_pointwise(a.drop_first(), b.drop_first());
    }
}

/// Model of a token vector.
pub open spec fn stream_model(s: Seq<Token>) -> Seq<TokenView> {
    Seq::new(s.len(), |i: int| tok_model(s[i]))
}

/// Splits the input into categorized atoms: brackets, delimiters and
/// separators stay single characters, runs of other characters fuse into one
/// unknown atom, and unknown atoms inside a matched bracket pair are flagged
/// as enclosed.
pub fn tokenize(input: &str) -> (r: Vec<Token>)
    ensures
        stream_model(r@) == tokenize_spec(input@),
        values_concat(stream_model(r@)) == input@,
{
    let n = input.unicode_len();
    let mut toks: Vec<Token> = Vec::new();
    let mut i: usize = 0;
    proof {
        assert(input@.skip(0) =~= input@);
        assert(stream_model(toks@) =~= Seq::<TokenView>::empty());
    }
    while i < n
        invariant
            0 <= i <= n,
            n == input@.len(),
            lex_spec(input@) =~= stream_model(toks@) + lex_spec(input@.skip(i as int)),
        decreases n - i,
    {
        let c = input.get_char(i);
        let ghost rest = input@.skip(i as int);
        proof {
            assert(rest[0] == input@[i as int]);
        }
        if is_opening_bracket_char(c) || is_closing_bracket_char(c) || is_delimiter_char(c)
            || is_separator_char(c) {
            let category: TokenCategory = if is_opening_bracket_char(c) {
                TokenCategory::Bracket(BracketType::Opening)
            } else if is_closing_bracket_char(c) {
                TokenCategory::Bracket(BracketType::Closing)
            } else if is_delimiter_char(c) {
                TokenCategory::Delimiter
            } else {
                TokenCategory::Separator
            };
            let piece = input.substring_char(i, i + 1);
            let tok = Token::new(piece, category);
            proof {
                assert(piece@ =~= seq![input@[i as int]]);
                assert(tok_model(tok) == char_token(input@[i as int]));
                assert(rest.drop_first() =~= input@.skip(i + 1));
            }
            toks.push(tok);
            proof {
                assert(stream_model(toks@) =~= stream_model(toks@.drop_last()) + seq![
                    char_token(input@[i as int]),
                ]);
            }
            i = i + 1;
        } else {
            // Fuse the whole run of unclassified characters into one atom.
            let j = scan_unknown_run(input, i);
            proof {
                assert(j > i) by {
                    if j == i {
                        assert(!spec_is_unknown_char(input@[i as int]));
                    }
                }
                assert(forall|t: int|
                    0 <= t < rest.len() ==> rest[t] == #[trigger] input@[i + t]);
                assert forall|t: int| 0 <= t < j - i implies spec_is_unknown_char(
                    #[trigger] rest[t],
                ) by {
                    assert(rest[t] == input@[i + t]);
                }
                if (j as int) < n {
                    assert(rest[j - i] == input@[j as int]);
                    assert(!spec_is_unknown_char(rest[j - i]));
                }
                lemma_run_equal(rest, j - i);
            }
            let piece = input.substring_char(i, j);
            let tok = Token::new(piece, TokenCategory::Unknown);
            proof {
                assert(piece@ =~= rest.subrange(0, j - i));
                assert(tok_model(tok) == unknown_token(rest.subrange(0, j - i)));
                assert(rest.skip(j - i) =~= input@.skip(j as int));
            }
            toks.push(tok);
            proof {
                assert(stream_model(toks@) =~= stream_model(toks@.drop_last()) + seq![
                    unknown_token(rest.subrange(0, j - i)),
                ]);
            }
            i = j;
        }
    }
    proof {
        assert(input@.skip(n as int) =~= Seq::<char>::empty());
        assert(lex_spec(input@) =~= stream_model(toks@));
    }
    let r = find_enclosed_tokens(toks);
    proof {
        lemma_tokenize_round_trip(input@);
    }
    r
}

/// First position at or after `from` holding a classified character, or the
/// end of the input.
fn scan_unknown_run(input: &str, from: usize) -> (r: usize)
    requires
        from <= input@.len(),
    ensures
        from <= r <= input@.len(),
        forall|j: int| from <= j < r ==> spec_is_unknown_char(#[trigger] input@[j]),
        r == input@.len() || !spec_is_unknown_char(input@[r as int]),
{
    let n = input.unicode_len();
    let mut j: usize = from;
    while j < n
        invariant
            from <= j <= n,
            n == input@.len(),
            forall|k: int| from <= k < j ==> spec_is_unknown_char(#[trigger] input@[k]),
        decreases n - j,
    {
        let cj = input.get_char(j);
        if is_opening_bracket_char(cj) || is_closing_bracket_char(cj) || is_delimiter_char(cj)
            || is_separator_char(cj) {
            return j;
        }
        j = j + 1;
    }
    n
}

/// Uniqueness of the unknown-run end characterisation.
proof fn lemma_run_equal(s: Seq<char>, r: int)
    requires
        0 <= r <= s.len(),
        forall|j: int| 0 <= j < r ==> spec_is_unknown_char(#[trigger] s[j]),
        r == s.len() || !spec_is_unknown_char(s[r]),
    ensures
        r == unknown_run_end(s, 0),
{
    lemma_unknown_run_end(s, 0);
    let re = unknown_run_end(s, 0);
    if r < re {
        assert(spec_is_unknown_char(s[r]));
    } else if re < r {
        assert(spec_is_unknown_char(s[re]));
    }
}

/// The enclosure pass: flags every unknown atom buffered between a matched
/// opening bracket and its closing bracket. If the buffer does not end with
/// a closing bracket, its last unknown atom is dropped from the set.
fn find_enclosed_tokens(tokens: Vec<Token>) -> (r: Vec<Token>)
    ensures
        stream_model(r@) == mark_enclosed_spec(stream_model(tokens@)),
{
    let ghost s = stream_model(tokens@);
    let n = tokens.len();
    // Scan: collect buffered positions.
    let mut buf: Vec<usize> = Vec::new();
    let mut opened: bool = false;
    let mut i: usize = 0;
    proof {
        assert(buf@.map_values(|x: usize| x as int) =~= encl_state(s, 0).0);
    }
    while i < n
        invariant
            0 <= i <= n,
            n == tokens@.len(),
            s == stream_model(tokens@),
            buf@.map_values(|x: usize| x as int) == encl_state(s, i as int).0,
            opened == encl_state(s, i as int).1,
            forall|k: int| 0 <= k < buf@.len() ==> #[trigger] buf@[k] < n,
        decreases n - i,
    {
        let t = &tokens[i];
        proof {
            assert(s[i as int] == tok_model(tokens@[i as int]));
        }
        let is_open = match &t.category {
            TokenCategory::Bracket(BracketType::Opening) => true,
            _ => false,
        };
        if is_open {
            opened = true;
        }
        if opened {
            match &t.category {
                TokenCategory::Unknown => {
                    buf.push(i);
                    proof {
                        assert(buf@.map_values(|x: usize| x as int) =~= encl_state(
                            s,
                            i + 1,
                        ).0);
                    }
                },
                TokenCategory::Bracket(BracketType::Closing) => {
                    buf.push(i);
                    opened = false;
                    proof {
                        assert(buf@.map_values(|x: usize| x as int) =~= encl_state(
                            s,
                            i + 1,
                        ).0);
                    }
                },
                _ => {},
            }
        }
        i = i + 1;
    }
    // Drop the trailing unknown atom of an unterminated group.
    if buf.len() > 0 {
        let last_idx = buf[buf.len() - 1];
        let is_unknown = match &tokens[last_idx].category {
            TokenCategory::Unknown => true,
            _ => false,
        };
        proof {
            assert(s[last_idx as int] == tok_model(tokens@[last_idx as int]));
        }
        if is_unknown {
            buf.pop();
            proof {
                assert(buf@.map_values(|x: usize| x as int) =~= encl_marked(s));
            }
        } else {
            proof {
                assert(buf@.map_values(|x: usize| x as int) =~= encl_marked(s));
            }
        }
    } else {
        proof {
            assert(buf@.map_values(|x: usize| x as int) =~= encl_marked(s));
        }
    }
    // Mark.
    let mut marked: Vec<bool> = Vec::new();
    let mut j: usize = 0;
    while j < n
        invariant
            0 <= j <= n,
            marked@.len() == j,
            forall|x: int| 0 <= x < j ==> !(#[trigger] marked@[x]),
        decreases n - j,
    {
        marked.push(false);
        j = j + 1;
    }
    let mut k: usize = 0;
    while k < buf.len()
        invariant
            0 <= k <= buf@.len(),
            marked@.len() == n,
            n == tokens@.len(),
            s == stream_model(tokens@),
            buf@.map_values(|x: usize| x as int) == encl_marked(s),
            forall|x: int| 0 <= x < buf@.len() ==> #[trigger] buf@[x] < n,
            forall|x: int|
                0 <= x < n ==> #[trigger] marked@[x] == exists|y: int|
                    0 <= y < k && buf@[y] == x,
        decreases buf@.len() - k,
    {
        let idx = buf[k];
        marked[idx] = true;
        proof {
            assert forall|x: int|
                0 <= x < n implies #[trigger] marked@[x] == exists|y: int|
                    0 <= y < k + 1 && buf@[y] == x by {
                if x == idx as int {
                    assert(buf@[k as int] == idx);
                }
            }
        }
        k = k + 1;
    }
    proof {
        assert forall|x: int|
            0 <= x < n implies #[trigger] marked@[x] == encl_marked(s).contains(x) by {
            if marked@[x] {
                let y = choose|y: int| 0 <= y < buf@.len() && buf@[y] == x;
                assert(encl_marked(s)[y] == buf@.map_values(|u: usize| u as int)[y]);
                assert(encl_marked(s).contains(x));
            } else if encl_marked(s).contains(x) {
                let y = choose|y: int| 0 <= y < encl_marked(s).len() && encl_marked(s)[y] == x;
                assert(buf@.map_values(|u: usize| u as int)[y] == x);
                assert(buf@[y] == x);
            }
        }
    }
    // Rebuild with the flags applied.
    let mut out: Vec<Token> = Vec::new();
    let mut rest = tokens;
    let mut j2: usize = 0;
    while j2 < n
        invariant
            0 <= j2 <= n,
            n == s.len(),
            marked@.len() == n,
            rest@.len() == n - j2,
            forall|x: int| 0 <= x < n - j2 ==> stream_model(rest@)[x] == s[j2 + x],
            buf@.map_values(|x: usize| x as int) == encl_marked(s),
            forall|x: int|
                0 <= x < n ==> #[trigger] marked@[x] == encl_marked(s).contains(x),
            out@.len() == j2,
            forall|x: int|
                0 <= x < j2 ==> stream_model(out@)[x] == mark_enclosed_spec(s)[x],
        decreases n - j2,
    {
        let ghost prev = rest@;
        let t = rest.remove(0);
        let is_unknown = match &t.category {
            TokenCategory::Unknown => true,
            _ => false,
        };
        proof {
            assert(tok_model(t) == stream_model(prev)[0]);
            assert(stream_model(prev)[0] == s[j2 as int]);
            assert forall|x: int| 0 <= x < n - j2 - 1 implies stream_model(rest@)[x] == s[j2 + 1
                + x] by {
                assert(rest@[x] == prev[x + 1]);
                assert(stream_model(prev)[x + 1] == s[j2 + 1 + x]);
            }
        }
        let enclosed = t.enclosed || (marked[j2] && is_unknown);
        let nt = Token {
            id: t.id,
            value: t.value,
            enclosed,
            category: t.category,
            kind: t.kind,
        };
        proof {
            assert(tok_model(nt) == mark_enclosed_spec(s)[j2 as int]);
        }
        out.push(nt);
        j2 = j2 + 1;
    }
    proof {
        assert(stream_model(out@) =~= mark_enclosed_spec(s));
    }
    out
}

/// An ASCII letter.
pub open spec fn spec_is_ascii_letter(c: char) -> bool {
    ('a' <= c && c <= 'z') || ('A' <= c && c <= 'Z')
}

/// The shape of a file extension: one to four ASCII alphanumeric characters,
/// at least one of them a letter.
pub open spec fn spec_ext_shape(t: Seq<char>) -> bool {
    &&& 1 <= t.len() <= 4
    &&& forall|i: int|
        0 <= i < t.len() ==> (spec_is_ascii_letter(#[trigger] t[i])
            || crate::token_helper::spec_is_digit_char(t[i]))
    &&& exists|i: int| 0 <= i < t.len() && spec_is_ascii_letter(#[trigger] t[i])
}

/// Position of the last `.` of the literal.
pub open spec fn last_dot(s: Seq<char>) -> Option<int>
    decreases s.len(),
{
    if s.len() == 0 {
        None
    } else if s.last() == '.' {
        Some(s.len() - 1)
    } else {
        last_dot(s.drop_last())
    }
}

pub proof fn lemma_last_dot(s: Seq<char>)
    ensures
        match last_dot(s) {
            Some(d) => 0 <= d < s.len() && s[d] == '.' && forall|j: int|
                d < j < s.len() ==> s[j] != '.',
            None => forall|j: int| 0 <= j < s.len() ==> s[j] != '.',
        },
    decreases s.len(),
{
    if s.len() > 0 && s.last() != '.' {
        lemma_last_dot(s.drop_last());
        assert(forall|j: int| 0 <= j < s.len() - 1 ==> #[trigger] s.drop_last()[j] == s[j]);
        match last_dot(s.drop_last()) {
            Some(d) => {
                assert forall|j: int| d < j < s.len() implies s[j] != '.' by {
                    if j < s.len() - 1 {
                        assert(s.drop_last()[j] != '.');
                    } else {
                        assert(s[j] == s.last());
                    }
                }
            },
            None => {
                assert forall|j: int| 0 <= j < s.len() implies s[j] != '.' by {
                    if j < s.len() - 1 {
                        assert(s.drop_last()[j] != '.');
                    } else {
                        assert(s[j] == s.last());
                    }
                }
            },
        }
    }
}

proof fn lemma_last_dot_unique(s: Seq<char>, d: int)
    requires
        0 <= d < s.len(),
        s[d] == '.',
        forall|j: int| d < j < s.len() ==> s[j] != '.',
    ensures
        last_dot(s) == Some(d),
{
    lemma_last_dot(s);
    match last_dot(s) {
        Some(e) => {
            if e < d {
                assert(s[d] != '.');
            } else if d < e {
                assert(s[e] != '.');
            }
        },
        None => {
            assert(s[d] != '.');
        },
    }
}

/// The literal with its extension stripped: everything before the final `.`
/// when a non-empty stem precedes it and the suffix has extension shape;
/// otherwise the literal unchanged.
pub open spec fn spec_remove_extension(s: Seq<char>) -> Seq<char> {
    match last_dot(s) {
        None => s,
        Some(d) => if d > 0 && spec_ext_shape(s.subrange(d + 1, s.len() as int)) {
            s.subrange(0, d)
        } else {
            s
        },
    }
}

/// Strips the file extension: the input up to the final `.` when the suffix
/// after it has extension shape, the input unchanged otherwise.
pub fn remove_file_extension(input: &str) -> (r: String)
    ensures
        r@ == spec_remove_extension(input@),
{
    let n = input.unicode_len();
    // Find the last dot.
    let mut i: usize = n;
    while i > 0
        invariant
            0 <= i <= n,
            n == input@.len(),
            forall|j: int| i <= j < n ==> input@[j] != '.',
        decreases i,
    {
        i = i - 1;
        if input.get_char(i) == '.' {
            proof {
                lemma_last_dot_unique(input@, i as int);
            }
            if i == 0 {
                return input.to_owned();
            }
            let ext = input.substring_char(i + 1, n);
            if ext_shape(ext) {
                let stem = input.substring_char(0, i).to_owned();
                return stem;
            }
            return input.to_owned();
        }
    }
    proof {
        lemma_last_dot(input@);
        match last_dot(input@) {
            Some(d) => {
                assert(input@[d] != '.');
            },
            None => {},
        }
    }
    input.to_owned()
}

/// Whether the literal has extension shape.
fn ext_shape(t: &str) -> (r: bool)
    ensures
        r == spec_ext_shape(t@),
{
    let n = t.unicode_len();
    if n < 1 || n > 4 {
        return false;
    }
    let mut i: usize = 0;
    let mut has_letter: bool = false;
    while i < n
        invariant
            0 <= i <= n,
            n == t@.len(),
            forall|j: int|
                0 <= j < i ==> (spec_is_ascii_letter(#[trigger] t@[j])
                    || crate::token_helper::spec_is_digit_char(t@[j])),
            has_letter == exists|j: int| 0 <= j < i && spec_is_ascii_letter(#[trigger] t@[j]),
        decreases n - i,
    {
        let c = t.get_char(i);
        let letter = (c >= 'a' && c <= 'z') || (c >= 'A' && c <= 'Z');
        if !letter && !crate::token_helper::is_digit_char(c) {
            return false;
        }
        proof {
            if letter {
                assert(spec_is_ascii_letter(t@[i as int]));
            }
        }
        has_letter = has_letter || letter;
        i = i + 1;
    }
    has_letter
}

} // verus!
