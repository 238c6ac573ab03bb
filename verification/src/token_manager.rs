//! The token stream: owns the ordered atoms, assigns them stable identities,
//! pre-computes their shapes, and offers navigation, category updates,
//! keyword identification and flattening of split atoms.

use vstd::prelude::*;
use vstd::string::StrSliceExecFns;
use crate::keyword::{Keyword, KeywordCategory, KeywordKind, KeywordPriority, KeywordView};
use crate::keyword_manager::{
    KeywordManager, dict_wf, find_many_spec, kws_model, seed_spec,
};
use crate::metadata::MetadataKind;
use crate::token::{
    Token, TokenCategory, TokenCategoryView, TokenKind, TokenView, cat_model, tok_model,
    toks_model, tokens_duplicate, lemma_toks_model,
};
use crate::token_helper::{
    spec_is_digits, spec_is_number_like, spec_is_number_or_like, spec_is_ordinal,
    spec_is_video_resolution, is_prefix_upper,
};
use crate::tokenizer::stream_model;

verus! {

/// The owner of the atom sequence, together with the dictionary it matches
/// against and the next free identity.
#[derive(Debug)]
pub struct TokenManager {
    tokens: Vec<Token>,
    keyword_manager: KeywordManager,
    next_id: u64,
}

/// Mathematical model of a stream.
pub struct TokenManagerView {
    pub tokens: Seq<TokenView>,
    pub dict: Seq<(Seq<char>, KeywordView)>,
    pub next_id: u64,
}

impl View for TokenManager {
    type V = TokenManagerView;

    closed spec fn view(&self) -> TokenManagerView {
        TokenManagerView {
            tokens: stream_model(self.tokens@),
            dict: self.keyword_manager@,
            next_id: self.next_id,
        }
    }
}

/// Stream invariant: atom identities are pairwise distinct and all below the
/// next free identity, and the dictionary is well-formed.
pub open spec fn stream_wf(m: TokenManagerView) -> bool {
    &&& forall|i: int, j: int|
        0 <= i < j < m.tokens.len() ==> (#[trigger] m.tokens[i]).id != (#[trigger] m.tokens[j]).id
    &&& forall|i: int| 0 <= i < m.tokens.len() ==> (#[trigger] m.tokens[i]).id < m.next_id
    &&& dict_wf(m.dict)
}

/// Shape of a literal: all digits, number-like, a single character, or a
/// plain string. This is a function of the literal alone.
pub open spec fn shape_spec(v: Seq<char>) -> TokenKind {
    if spec_is_digits(v) {
        TokenKind::Number
    } else if spec_is_number_like(v) {
        TokenKind::NumberLike
    } else if v.len() == 1 {
        TokenKind::SingleCharacter
    } else {
        TokenKind::String
    }
}

/// The stream after construction: identities `0, 1, 2, ...` in order and each
/// atom's shape computed from its literal.
pub open spec fn pre_process_spec(s: Seq<TokenView>) -> Seq<TokenView> {
    Seq::new(
        s.len(),
        |i: int|
            TokenView {
                id: i as u64,
                kind: shape_spec(s[i].value),
                ..s[i]
            },
    )
}

/// Index of the first atom with the given identity.
pub open spec fn first_id_index(s: Seq<TokenView>, id: u64) -> Option<int>
    decreases s.len(),
{
    if s.len() == 0 {
        None
    } else if s[0].id == id {
        Some(0)
    } else {
        match first_id_index(s.drop_first(), id) {
            Some(k) => Some(k + 1),
            None => None,
        }
    }
}

pub proof fn lemma_first_id_index(s: Seq<TokenView>, id: u64)
    ensures
        match first_id_index(s, id) {
            Some(i) => 0 <= i < s.len() && s[i].id == id && forall|j: int|
                0 <= j < i ==> (#[trigger] s[j]).id != id,
            None => forall|j: int| 0 <= j < s.len() ==> (#[trigger] s[j]).id != id,
        },
    decreases s.len(),
{
    if s.len() > 0 && s[0].id != id {
        lemma_first_id_index(s.drop_first(), id);
        assert(forall|j: int| 0 <= j < s.len() - 1 ==> #[trigger] s.drop_first()[j] == s[j + 1]);
        match first_id_index(s.drop_first(), id) {
            Some(k) => {
                assert forall|j: int| 0 <= j < k + 1 implies (#[trigger] s[j]).id != id by {
                    if j > 0 {
                        assert(s.drop_first()[j - 1].id != id);
                    }
                }
            },
            None => {
                assert forall|j: int| 0 <= j < s.len() implies (#[trigger] s[j]).id != id by {
                    if j > 0 {
                        assert(s.drop_first()[j - 1].id != id);
                    }
                }
            },
        }
    }
}

/// The stream after a category update: the first atom with the identity, if
/// any, has its category replaced; everything else is untouched.
pub open spec fn update_first_id(s: Seq<TokenView>, id: u64, cat: TokenCategoryView) -> Seq<
    TokenView,
> {
    match first_id_index(s, id) {
        None => s,
        Some(i) => s.update(i, TokenView { category: cat, ..s[i] }),
    }
}

/// Children installed at a flatten: the supplied atoms with fresh identities
/// assigned in order.
pub open spec fn reid(cs: Seq<TokenView>, base: u64) -> Seq<TokenView> {
    Seq::new(cs.len(), |k: int| TokenView { id: (base + k) as u64, ..cs[k] })
}

/// The stream after flattening the atom at `index` into `cs`.
pub open spec fn flatten_at_spec(s: Seq<TokenView>, index: int, cs: Seq<TokenView>, base: u64) -> Seq<
    TokenView,
> {
    s.subrange(0, index) + reid(cs, base) + s.subrange(index + 1, s.len() as int)
}

impl TokenManager {
    /// Builds a stream over the given atoms: assigns identities in order and
    /// computes each atom's shape from its literal alone.
    pub fn new(tokens: Vec<Token>) -> (r: TokenManager)
        ensures
            r@.tokens == pre_process_spec(stream_model(tokens@)),
            r@.next_id == tokens@.len(),
            r@.dict == seed_spec(),
            dict_wf(r@.dict),
            stream_wf(r@),
    {
        let n = tokens.len();
        let mut out: Vec<Token> = Vec::new();
        let mut i: usize = 0;
        while i < n
            invariant
                0 <= i <= n,
                n == tokens@.len(),
                out@.len() == i,
                forall|j: int|
                    0 <= j < i ==> tok_model(#[trigger] out@[j]) == pre_process_spec(
                        stream_model(tokens@),
                    )[j],
            decreases n - i,
        {
            let t = &tokens[i];
            let kind: TokenKind = if crate::token_helper::is_digits(t.value.as_str()) {
                TokenKind::Number
            } else if crate::token_helper::is_number_like(t.value.as_str()) {
                TokenKind::NumberLike
            } else if t.value.as_str().unicode_len() == 1 {
                TokenKind::SingleCharacter
            } else {
                TokenKind::String
            };
            let mut nt = t.duplicate();
            nt.id = i as u64;
            nt.kind = kind;
            proof {
                assert(tok_model(nt) == pre_process_spec(stream_model(tokens@))[i as int]);
            }
            out.push(nt);
            i = i + 1;
        }
        let r = TokenManager { tokens: out, keyword_manager: KeywordManager::new(), next_id: n as u64 };
        proof {
            assert(r@.tokens =~= pre_process_spec(stream_model(tokens@)));
            assert forall|a: int, b: int|
                0 <= a < b < r@.tokens.len() implies (#[trigger] r@.tokens[a]).id != (
            #[trigger] r@.tokens[b]).id by {
                assert(r@.tokens[a].id == a as u64);
                assert(r@.tokens[b].id == b as u64);
            }
            assert forall|a: int| 0 <= a < r@.tokens.len() implies (#[trigger] r@.tokens[a]).id
                < r@.next_id by {
                assert(r@.tokens[a].id == a as u64);
            }
        }
        r
    }

    /// A copy of the atoms in their current order.
    pub fn get_tokens(&self) -> (r: Vec<Token>)
        ensures
            stream_model(r@) == self@.tokens,
    {
        let r = tokens_duplicate(&self.tokens);
        proof {
            assert(stream_model(r@) =~= stream_model(self.tokens@));
        }
        r
    }

    /// Replaces the category of the first atom carrying the given identity;
    /// literal, shape, enclosure and identity stay as they were.
    pub fn update_token_category(&mut self, id: u64, token_category: TokenCategory)
        ensures
            final(self)@.tokens == update_first_id(
                old(self)@.tokens,
                id,
                cat_model(token_category),
            ),
            final(self)@.dict == old(self)@.dict,
            final(self)@.next_id == old(self)@.next_id,
            stream_wf(old(self)@) ==> stream_wf(final(self)@),
    {
        let ghost s = self@.tokens;
        let n = self.tokens.len();
        let mut i: usize = 0;
        proof {
            lemma_first_id_index(s, id);
        }
        while i < n
            invariant
                0 <= i <= n,
                n == self.tokens@.len(),
                s == stream_model(self.tokens@),
                s == old(self)@.tokens,
                self@.tokens == s,
                self@.dict == old(self)@.dict,
                self@.next_id == old(self)@.next_id,
                self.keyword_manager@ == old(self)@.dict,
                self.next_id == old(self)@.next_id,
                forall|j: int| 0 <= j < i ==> (#[trigger] s[j]).id != id,
            decreases n - i,
        {
            proof {
                assert(s[i as int] == tok_model(self.tokens@[i as int]));
            }
            if self.tokens[i].id == id {
                let nt = {
                    let t = &self.tokens[i];
                    Token {
                        id: t.id,
                        value: t.value.clone(),
                        enclosed: t.enclosed,
                        category: token_category,
                        kind: t.kind,
                    }
                };
                proof {
                    assert(first_id_index(s, id) == Some(i as int)) by {
                        lemma_first_id_index(s, id);
                        match first_id_index(s, id) {
                            Some(k) => {
                                if k < i as int {
                                    assert(s[k].id != id);
                                } else if k > i as int {
                                    assert(s[i as int].id != id);
                                }
                            },
                            None => {
                                assert(s[i as int].id != id);
                            },
                        }
                    }
                }
                self.tokens[i] = nt;
                proof {
                    assert(stream_model(self.tokens@) =~= update_first_id(
                        s,
                        id,
                        cat_model(token_category),
                    ));
                    if stream_wf(old(self)@) {
                        assert forall|a: int, b: int|
                            0 <= a < b < self@.tokens.len() implies (
                        #[trigger] self@.tokens[a]).id != (#[trigger] self@.tokens[b]).id by {
                            assert(self@.tokens[a].id == s[a].id);
                            assert(self@.tokens[b].id == s[b].id);
                        }
                        assert forall|a: int|
                            0 <= a < self@.tokens.len() implies (#[trigger] self@.tokens[a]).id
                            < self@.next_id by {
                            assert(self@.tokens[a].id == s[a].id);
                        }
                    }
                }
                return ;
            }
            i = i + 1;
        }
        proof {
            match first_id_index(s, id) {
                Some(k) => {
                    assert(s[k].id != id);
                },
                None => {},
            }
            assert(update_first_id(s, id, cat_model(token_category)) == s);
        }
    }

    /// Replaces the atom at `index` by the given children, each with a fresh
    /// identity and inheriting the replaced atom's enclosure flag; atoms
    /// after `index` shift by the difference. When the identity space is
    /// exhausted the stream stays untouched.
    pub fn flatten_token_at(&mut self, index: usize, children: Vec<Token>)
        requires
            index < old(self)@.tokens.len(),
        ensures
            old(self)@.next_id + children@.len() <= u64::MAX ==> {
                &&& final(self)@.tokens == flatten_at_spec(
                    old(self)@.tokens,
                    index as int,
                    mark_enclosed_children(
                        stream_model(children@),
                        old(self)@.tokens[index as int].enclosed,
                    ),
                    old(self)@.next_id,
                )
                &&& final(self)@.next_id == old(self)@.next_id + children@.len()
            },
            old(self)@.next_id + children@.len() > u64::MAX ==> final(self)@ == old(self)@,
            final(self)@.dict == old(self)@.dict,
            stream_wf(old(self)@) ==> stream_wf(final(self)@),
    {
        if children.len() as u64 > u64::MAX - self.next_id {
            return ;
        }
        let ghost s = self@.tokens;
        let ghost base = self@.next_id;
        let n = self.tokens.len();
        let m = children.len();
        let parent_enclosed = self.tokens[index].enclosed;
        let ghost cs = mark_enclosed_children(stream_model(children@), s[index as int].enclosed);
        let mut out: Vec<Token> = Vec::new();
        let mut i: usize = 0;
        while i < index
            invariant
                0 <= i <= index,
                index < n,
                n == self.tokens@.len(),
                s == stream_model(self.tokens@),
                out@.len() == i,
                forall|j: int| 0 <= j < i ==> tok_model(#[trigger] out@[j]) == s[j],
            decreases index - i,
        {
            proof {
                assert(s[i as int] == tok_model(self.tokens@[i as int]));
            }
            out.push(self.tokens[i].duplicate());
            i = i + 1;
        }
        let mut k: usize = 0;
        while k < m
            invariant
                0 <= k <= m,
                m == children@.len(),
                index < n,
                n == self.tokens@.len(),
                s == stream_model(self.tokens@),
                base == self@.next_id,
                base + m <= u64::MAX,
                self.next_id == base,
                parent_enclosed == s[index as int].enclosed,
                cs == mark_enclosed_children(stream_model(children@), s[index as int].enclosed),
                out@.len() == index + k,
                forall|j: int| 0 <= j < index ==> tok_model(#[trigger] out@[j]) == s[j],
                forall|j: int|
                    0 <= j < k ==> tok_model(#[trigger] out@[index + j]) == reid(cs, base)[j],
            decreases m - k,
        {
            let mut c = children[k].duplicate();
            c.id = self.next_id + (k as u64);
            c.enclosed = parent_enclosed;
            proof {
                assert(stream_model(children@)[k as int] == tok_model(children@[k as int]));
                assert(tok_model(c) == reid(cs, base)[k as int]);
            }
            out.push(c);
            k = k + 1;
        }
        let mut j: usize = index + 1;
        while j < n
            invariant
                index + 1 <= j <= n,
                n == self.tokens@.len(),
                s == stream_model(self.tokens@),
                out@.len() == index + m + (j - index - 1),
                m == children@.len(),
                forall|x: int| 0 <= x < index ==> tok_model(#[trigger] out@[x]) == s[x],
                forall|x: int|
                    0 <= x < m ==> tok_model(#[trigger] out@[index + x]) == reid(cs, base)[x],
                forall|x: int|
                    index + 1 <= x < j ==> tok_model(#[trigger] out@[m + x - 1]) == s[x],
            decreases n - j,
        {
            proof {
                assert(s[j as int] == tok_model(self.tokens@[j as int]));
            }
            out.push(self.tokens[j].duplicate());
            j = j + 1;
        }
        proof {
            assert(cs.len() == m);
            assert(reid(cs, base).len() == m);
            let f = flatten_at_spec(s, index as int, cs, base);
            assert(f.len() == n + m - 1);
            assert(out@.len() == n + m - 1);
            assert forall|a: int|
                0 <= a < f.len() implies stream_model(out@)[a] == f[a] by {
                assert(stream_model(out@)[a] == tok_model(out@[a]));
                if a < index {
                    assert(f[a] == s[a]);
                    assert(tok_model(out@[a]) == s[a]);
                } else if a < index + m {
                    let x = a - (index as int);
                    assert(f[a] == reid(cs, base)[x]);
                    assert(tok_model(out@[(index as int) + x]) == reid(cs, base)[x]);
                    assert((index as int) + x == a);
                } else {
                    let x = a - (m as int) + 1;
                    assert(f[a] == s[x]);
                    assert(tok_model(out@[(m as int) + x - 1]) == s[x]);
                    assert((m as int) + x - 1 == a);
                }
            }
            assert(stream_model(out@) =~= f);
        }
        self.tokens = out;
        self.next_id = self.next_id + (m as u64);
        proof {
            assert(stream_model(self.tokens@) == flatten_at_spec(s, index as int, cs, base));
            if stream_wf(old(self)@) {
                let f = flatten_at_spec(s, index as int, cs, base);
                assert forall|a: int|
                    0 <= a < f.len() implies (#[trigger] f[a]).id < self@.next_id by {
                    flatten_id_shape(s, index as int, cs, base, a);
                }
                assert forall|a: int, b: int|
                    0 <= a < b < f.len() implies (#[trigger] f[a]).id != (#[trigger] f[b]).id by {
                    flatten_id_shape(s, index as int, cs, base, a);
                    flatten_id_shape(s, index as int, cs, base, b);
                }
            }
        }
    }
}

/// Whether an atom survives the delimiter-skipping filter.
pub open spec fn keeps(t: TokenView, skip: bool) -> bool {
    !skip || !(t.category is Delimiter)
}

/// The atom sequence as the navigation helpers see it: delimiters hidden
/// when `skip` is set.
pub open spec fn filtered(s: Seq<TokenView>, skip: bool) -> Seq<TokenView>
    decreases s.len(),
{
    if s.len() == 0 {
        Seq::empty()
    } else {
        filtered(s.drop_last(), skip) + if keeps(s.last(), skip) {
            seq![s.last()]
        } else {
            Seq::empty()
        }
    }
}

pub proof fn lemma_filtered_push(s: Seq<TokenView>, i: int, skip: bool)
    requires
        0 <= i < s.len(),
    ensures
        filtered(s.subrange(0, i + 1), skip) == filtered(s.subrange(0, i), skip) + if keeps(
            s[i],
            skip,
        ) {
            seq![s[i]]
        } else {
            Seq::<TokenView>::empty()
        },
{
    assert(s.subrange(0, i + 1).drop_last() =~= s.subrange(0, i));
    assert(s.subrange(0, i + 1).last() == s[i]);
}

pub proof fn lemma_filtered_add(a: Seq<TokenView>, b: Seq<TokenView>, skip: bool)
    ensures
        filtered(a + b, skip) == filtered(a, skip) + filtered(b, skip),
    decreases b.len(),
{
    if b.len() == 0 {
        assert(a + b =~= a);
        assert(filtered(a, skip) + filtered(b, skip) =~= filtered(a, skip));
    } else {
        lemma_filtered_add(a, b.drop_last(), skip);
        assert((a + b).drop_last() =~= a + b.drop_last());
        assert((a + b).last() == b.last());
        if keeps(b.last(), skip) {
            assert(filtered(a + b, skip) =~= filtered(a, skip) + filtered(b, skip));
        } else {
            assert(filtered(a + b, skip) =~= filtered(a, skip) + filtered(b, skip));
        }
    }
}

/// Where a kept atom lands in the filtered sequence: right after the
/// filtered image of the atoms before it.
pub proof fn lemma_filtered_at(s: Seq<TokenView>, i: int, skip: bool)
    requires
        0 <= i < s.len(),
        keeps(s[i], skip),
    ensures
        filtered(s.subrange(0, i), skip).len() < filtered(s, skip).len(),
        filtered(s, skip)[filtered(s.subrange(0, i), skip).len() as int] == s[i],
        forall|k: int|
            0 <= k < filtered(s.subrange(0, i), skip).len() ==> filtered(s, skip)[k] == filtered(
                s.subrange(0, i),
                skip,
            )[k],
{
    assert(s =~= s.subrange(0, i + 1) + s.skip(i + 1));
    lemma_filtered_add(s.subrange(0, i + 1), s.skip(i + 1), skip);
    lemma_filtered_push(s, i, skip);
}

/// The filtered whole stream, once the scan has passed every atom.
pub proof fn lemma_filtered_total(s: Seq<TokenView>, skip: bool)
    ensures
        filtered(s.subrange(0, s.len() as int), skip) == filtered(s, skip),
{
    assert(s.subrange(0, s.len() as int) =~= s);
}

impl TokenManager {
    /// The atom at the given position of the filtered sequence.
    fn nth_filtered(&self, pos: usize, skip_delimiter: bool) -> (r: Option<Token>)
        ensures
            match r {
                Some(t) => pos < filtered(self@.tokens, skip_delimiter).len() && t@ == filtered(
                    self@.tokens,
                    skip_delimiter,
                )[pos as int],
                None => pos >= filtered(self@.tokens, skip_delimiter).len(),
            },
    {
        let ghost s = self@.tokens;
        let ghost f = filtered(s, skip_delimiter);
        let n = self.tokens.len();
        let mut i: usize = 0;
        let mut cnt: usize = 0;
        proof {
            assert(s.subrange(0, 0) =~= Seq::<TokenView>::empty());
        }
        while i < n
            invariant
                0 <= i <= n,
                n == self.tokens@.len(),
                s == stream_model(self.tokens@),
                f == filtered(s, skip_delimiter),
                cnt <= pos,
                cnt == filtered(s.subrange(0, i as int), skip_delimiter).len(),
            decreases n - i,
        {
            let t = &self.tokens[i];
            proof {
                assert(s[i as int] == tok_model(self.tokens@[i as int]));
                lemma_filtered_push(s, i as int, skip_delimiter);
            }
            let kept = if skip_delimiter {
                !t.category.is_delimiter()
            } else {
                true
            };
            if kept {
                proof {
                    lemma_filtered_at(s, i as int, skip_delimiter);
                }
                if cnt == pos {
                    return Some(t.duplicate());
                }
                cnt = cnt + 1;
            }
            i = i + 1;
        }
        proof {
            lemma_filtered_total(s, skip_delimiter);
        }
        None
    }

    /// Position of the first atom with the given atom's identity, counted in
    /// the filtered sequence.
    pub fn get_index_of_token(&self, token: &Token, skip_delimiter: bool) -> (r: Option<usize>)
        ensures
            match r {
                Some(u) => first_id_index(filtered(self@.tokens, skip_delimiter), token@.id)
                    == Some(u as int),
                None => first_id_index(filtered(self@.tokens, skip_delimiter), token@.id) is None,
            },
    {
        let ghost s = self@.tokens;
        let ghost f = filtered(s, skip_delimiter);
        let n = self.tokens.len();
        let mut i: usize = 0;
        let mut cnt: usize = 0;
        proof {
            assert(s.subrange(0, 0) =~= Seq::<TokenView>::empty());
            lemma_first_id_index(f, token@.id);
            lemma_filtered_len(s, skip_delimiter);
        }
        while i < n
            invariant
                0 <= i <= n,
                n == self.tokens@.len(),
                s == stream_model(self.tokens@),
                f == filtered(s, skip_delimiter),
                cnt == filtered(s.subrange(0, i as int), skip_delimiter).len(),
                cnt <= f.len(),
                f.len() <= n,
                forall|k: int| 0 <= k < cnt ==> (#[trigger] f[k]).id != token@.id,
            decreases n - i,
        {
            let t = &self.tokens[i];
            proof {
                assert(s[i as int] == tok_model(self.tokens@[i as int]));
                lemma_filtered_push(s, i as int, skip_delimiter);
            }
            let kept = if skip_delimiter {
                !t.category.is_delimiter()
            } else {
                true
            };
            if kept {
                proof {
                    lemma_filtered_at(s, i as int, skip_delimiter);
                }
                if t.id == token.id {
                    proof {
                        assert(f[cnt as int] == s[i as int]);
                        lemma_first_id_index(f, token@.id);
                        match first_id_index(f, token@.id) {
                            Some(k) => {
                                if k < cnt as int {
                                    assert(f[k].id != token@.id);
                                } else if k > cnt as int {
                                    assert(f[cnt as int].id != token@.id);
                                }
                            },
                            None => {
                                assert(f[cnt as int].id != token@.id);
                            },
                        }
                    }
                    return Some(cnt);
                }
                proof {
                    assert(f[cnt as int] == s[i as int]);
                }
                cnt = cnt + 1;
            }
            i = i + 1;
        }
        proof {
            lemma_filtered_total(s, skip_delimiter);
            lemma_first_id_index(f, token@.id);
            match first_id_index(f, token@.id) {
                Some(k) => {
                    assert(f[k].id != token@.id);
                },
                None => {},
            }
        }
        None
    }

    /// The next atom after filtered position `index`, delimiters skipped or
    /// kept as asked.
    pub fn get_token_after(&self, index: usize, skip_delimiter: bool) -> (r: Option<Token>)
        ensures
            match r {
                Some(t) => index + 1 < filtered(self@.tokens, skip_delimiter).len() && t@
                    == filtered(self@.tokens, skip_delimiter)[index + 1],
                None => index + 1 >= filtered(self@.tokens, skip_delimiter).len(),
            },
    {
        if index == usize::MAX {
            let n = self.tokens.len();
            proof {
                lemma_filtered_len(self@.tokens, skip_delimiter);
                assert(filtered(self@.tokens, skip_delimiter).len() <= n);
            }
            return None;
        }
        self.nth_filtered(index + 1, skip_delimiter)
    }

    /// Alias of `get_token_after`.
    pub fn get_next_token_from(&self, index: usize, skip_delimiter: bool) -> (r: Option<Token>)
        ensures
            match r {
                Some(t) => index + 1 < filtered(self@.tokens, skip_delimiter).len() && t@
                    == filtered(self@.tokens, skip_delimiter)[index + 1],
                None => index + 1 >= filtered(self@.tokens, skip_delimiter).len(),
            },
    {
        self.get_token_after(index, skip_delimiter)
    }

    /// The atom just before filtered position `index`.
    pub fn get_token_before(&self, index: usize, skip_delimiter: bool) -> (r: Option<Token>)
        ensures
            match r {
                Some(t) => 1 <= index && index - 1 < filtered(self@.tokens, skip_delimiter).len()
                    && t@ == filtered(self@.tokens, skip_delimiter)[index - 1],
                None => index == 0 || index - 1 >= filtered(self@.tokens, skip_delimiter).len(),
            },
    {
        if index == 0 {
            return None;
        }
        self.nth_filtered(index - 1, skip_delimiter)
    }
}

impl TokenManager {
    /// Whether the next non-delimiter atom after this one has numeric shape.
    fn next_token_is_number_like(&self, token: &Token) -> (r: bool)
        ensures
            r == next_is_number_like_spec(self@.tokens, token@),
    {
        match self.get_index_of_token(token, true) {
            Some(idx) => {
                proof {
                    lemma_first_id_index(filtered(self@.tokens, true), token@.id);
                }
                match self.get_token_after(idx, true) {
                    Some(next) => next.kind.is_number_or_like(),
                    None => false,
                }
            },
            None => false,
        }
    }

    /// Whether the previous non-delimiter atom is a number-like ordinal.
    fn previous_token_is_ordinal_number(&self, token: &Token) -> (r: bool)
        ensures
            r == prev_is_ordinal_spec(self@.tokens, token@),
    {
        match self.get_index_of_token(token, true) {
            Some(idx) => {
                proof {
                    lemma_first_id_index(filtered(self@.tokens, true), token@.id);
                }
                match self.get_token_before(idx, true) {
                    Some(prev) => prev.kind.is_number_like() && crate::token_helper::is_ordinal_number(
                        prev.value.as_str(),
                    ),
                    None => false,
                }
            },
            None => false,
        }
    }

    /// The combined form of a candidate entry: strip the entry's literal
    /// from the front of the atom and keep the numeric suffix.
    fn try_combined_strip(&self, token: &Token, keyword: &Keyword) -> (r: Option<Vec<Token>>)
        ensures
            match r {
                Some(v) => combined_strip_spec(token@, keyword@) == Some(stream_model(v@))
                    && v@.len() == 2,
                None => combined_strip_spec(token@, keyword@) is None,
            },
    {
        if !crate::token_helper::starts_with_ignore_case(
            token.value.as_str(),
            keyword.value.as_str(),
        ) {
            return None;
        }
        let klen = keyword.value.as_str().unicode_len();
        let tlen = token.value.as_str().unicode_len();
        let ghost suffix_spec = token@.value.skip(keyword@.value.len() as int);
        if klen >= tlen {
            proof {
                assert(suffix_spec.len() == 0);
            }
            return None;
        }
        let suffix = token.value.as_str().substring_char(klen, tlen);
        proof {
            assert(suffix@ =~= suffix_spec);
        }
        if !crate::token_helper::is_number_or_like(suffix) {
            return None;
        }
        let kind: TokenKind = if crate::token_helper::is_digits(suffix) {
            TokenKind::Number
        } else {
            TokenKind::NumberLike
        };
        let matched = token.value.as_str().substring_char(0, klen);
        proof {
            assert(matched@ =~= token@.value.subrange(0, keyword@.value.len() as int));
        }
        let mut v: Vec<Token> = Vec::new();
        v.push(
            Token::new_with_kind(
                matched,
                TokenCategory::Keyword(keyword.duplicate()),
                TokenKind::String,
            ),
        );
        v.push(Token::new_with_kind(suffix, TokenCategory::Unknown, kind));
        proof {
            assert(stream_model(v@)[0] == tok_model(v@[0]));
            assert(stream_model(v@)[1] == tok_model(v@[1]));
            assert(stream_model(v@) =~= combined_strip_spec(token@, keyword@)->Some_0);
        }
        Some(v)
    }

    /// Validates one candidate entry against its kind, producing the
    /// replacement atoms when it applies.
    fn validate_keyword(&self, token: &Token, keyword: &Keyword) -> (r: Option<Vec<Token>>)
        ensures
            match r {
                Some(v) => validate_spec(self@.tokens, token@, keyword@) == Some(stream_model(v@))
                    && v@.len() >= 1,
                None => validate_spec(self@.tokens, token@, keyword@) is None,
            },
    {
        match keyword.kind {
            KeywordKind::Combined { next_token_kind: TokenKind::NumberLike } => {
                match crate::token_helper::extract_season_and_episode(token.value.as_str()) {
                    Some(parts) => {
                        let ep_kind: TokenKind = if crate::token_helper::is_digits(
                            parts.2.as_str(),
                        ) {
                            TokenKind::Number
                        } else {
                            TokenKind::NumberLike
                        };
                        let ep_keyword = Keyword::new(
                            parts.1.clone(),
                            KeywordCategory::EpisodePrefix,
                            KeywordKind::Combined { next_token_kind: TokenKind::NumberLike },
                            KeywordPriority::Normal,
                        );
                        // The matched spans are consecutive, so what is left
                        // before them is the optional leading letter.
                        let tlen = token.value.as_str().unicode_len();
                        let l0 = parts.0.as_str().unicode_len();
                        let l1 = parts.1.as_str().unicode_len();
                        let l2 = parts.2.as_str().unicode_len();
                        proof {
                            let ghost tv = token@.value;
                            let ghost b: int = if tv.len() > 0 && (tv[0] == 'S' || tv[0]
                                == 's') {
                                1
                            } else {
                                0
                            };
                            let ghost e1 = crate::token_helper::run_end(tv, b);
                            crate::token_helper::lemma_run_end(tv, b);
                            assert(parts.0@ == tv.subrange(b, e1));
                            assert(parts.1@ == seq![tv[e1]]);
                            assert(parts.2@ == tv.subrange(e1 + 1, tv.len() as int));
                            assert(l0 + l1 + l2 == tv.len() - b);
                        }
                        let prefix = token.value.as_str().substring_char(0, tlen - l0 - l1 - l2);
                        proof {
                            assert(prefix@ == token@.value.subrange(
                                0,
                                token@.value.len() - parts.0@.len() - parts.1@.len()
                                    - parts.2@.len(),
                            ));
                        }
                        let mut v: Vec<Token> = Vec::new();
                        v.push(
                            Token::new_with_kind(
                                prefix,
                                TokenCategory::Keyword(keyword.duplicate()),
                                TokenKind::String,
                            ),
                        );
                        v.push(
                            Token::new_with_kind(
                                parts.0.as_str(),
                                TokenCategory::Known(MetadataKind::Season),
                                TokenKind::Number,
                            ),
                        );
                        v.push(
                            Token::new_with_kind(
                                parts.1.as_str(),
                                TokenCategory::Keyword(ep_keyword),
                                TokenKind::SingleCharacter,
                            ),
                        );
                        v.push(
                            Token::new_with_kind(
                                parts.2.as_str(),
                                TokenCategory::Known(MetadataKind::EpisodeNumber),
                                ep_kind,
                            ),
                        );
                        proof {
                            let sp = season_episode_split(
                                keyword@,
                                token@.value,
                                parts.0@,
                                parts.1@,
                                parts.2@,
                            );
                            assert(stream_model(v@)[0] == tok_model(v@[0]));
                            assert(stream_model(v@)[1] == tok_model(v@[1]));
                            assert(stream_model(v@)[2] == tok_model(v@[2]));
                            assert(stream_model(v@)[3] == tok_model(v@[3]));
                            assert(stream_model(v@) =~= sp);
                        }
                        Some(v)
                    },
                    None => self.try_combined_strip(token, keyword),
                }
            },
            KeywordKind::CombinedOrSeparated { next_token_kind: TokenKind::NumberLike } => {
                match self.try_combined_strip(token, keyword) {
                    Some(v) => Some(v),
                    None => {
                        if self.next_token_is_number_like(token) {
                            let mut v: Vec<Token> = Vec::new();
                            v.push(
                                Token::new_with_kind(
                                    keyword.value.as_str(),
                                    TokenCategory::Keyword(keyword.duplicate()),
                                    TokenKind::String,
                                ),
                            );
                            proof {
                                assert(stream_model(v@)[0] == tok_model(v@[0]));
                                assert(stream_model(v@) =~= seq![keyword_token(keyword@)]);
                            }
                            Some(v)
                        } else {
                            None
                        }
                    },
                }
            },
            KeywordKind::Separated { next_token_kind: TokenKind::NumberLike } => {
                if self.next_token_is_number_like(token) {
                    let mut v: Vec<Token> = Vec::new();
                    v.push(
                        Token::new_with_kind(
                            keyword.value.as_str(),
                            TokenCategory::Keyword(keyword.duplicate()),
                            TokenKind::String,
                        ),
                    );
                    proof {
                        assert(stream_model(v@)[0] == tok_model(v@[0]));
                        assert(stream_model(v@) =~= seq![keyword_token(keyword@)]);
                    }
                    Some(v)
                } else {
                    None
                }
            },
            KeywordKind::OrdinalSuffix => {
                if self.previous_token_is_ordinal_number(token) {
                    let mut v: Vec<Token> = Vec::new();
                    v.push(
                        Token::new_with_kind(
                            keyword.value.as_str(),
                            TokenCategory::Keyword(keyword.duplicate()),
                            TokenKind::String,
                        ),
                    );
                    proof {
                        assert(stream_model(v@)[0] == tok_model(v@[0]));
                        assert(stream_model(v@) =~= seq![keyword_token(keyword@)]);
                    }
                    Some(v)
                } else {
                    None
                }
            },
            KeywordKind::Standalone => {
                let mut v: Vec<Token> = Vec::new();
                v.push(
                    Token::new_with_kind(
                        token.value.as_str(),
                        TokenCategory::Keyword(keyword.duplicate()),
                        TokenKind::String,
                    ),
                );
                proof {
                    assert(stream_model(v@)[0] == tok_model(v@[0]));
                    assert(stream_model(v@) =~= validate_spec(
                        self@.tokens,
                        token@,
                        keyword@,
                    )->Some_0);
                }
                Some(v)
            },
            _ => None,
        }
    }

    /// Identifies whether the atom is a keyword of some kind: `None` for an
    /// already-known atom or when no candidate validates, one replacement
    /// atom for a plain keyword, several for a split combined form. A
    /// validated non-standalone candidate is preferred over a standalone one.
    pub fn identify_keyword(&self, token: &Token) -> (r: Option<Vec<Token>>)
        ensures
            match r {
                Some(v) => identify_spec(self@.dict, self@.tokens, token@) == Some(
                    stream_model(v@),
                ) && v@.len() >= 1,
                None => identify_spec(self@.dict, self@.tokens, token@) is None,
            },
    {
        if token.is_known() {
            return None;
        }
        if crate::token_helper::is_video_resolution(token.value.as_str()) {
            let mut nt = token.duplicate();
            nt.category = TokenCategory::Keyword(
                Keyword::new(
                    token.value.clone(),
                    KeywordCategory::VideoTerm,
                    KeywordKind::Standalone,
                    KeywordPriority::Normal,
                ),
            );
            let mut v: Vec<Token> = Vec::new();
            v.push(nt);
            proof {
                assert(stream_model(v@)[0] == tok_model(v@[0]));
                assert(stream_model(v@) =~= resolution_result(token@));
            }
            return Some(v);
        }
        let ghost s = self@.tokens;
        let ghost t = token@;
        let ghost dict = self@.dict;
        let cands_opt = self.keyword_manager.find_many(token.value.as_str());
        let cands = match cands_opt {
            Some(c) => c,
            None => {
                return None;
            },
        };
        let ghost cm = kws_model(cands@);
        proof {
            assert(cm == find_many_spec(dict, t.value));
        }
        let n = cands.len();
        let mut found: Option<Vec<Token>> = None;
        let mut i: usize = 0;
        while i < n
            invariant
                0 <= i <= n,
                n == cands@.len(),
                s == self@.tokens,
                t == token@,
                dict == self@.dict,
                cm == kws_model(cands@),
                cm == find_many_spec(dict, t.value),
                !(t.category is Known),
                !spec_is_video_resolution(t.value),
                match found {
                    Some(v) => identify_fold(s, t, cm, 0, None) == identify_fold(
                        s,
                        t,
                        cm,
                        i as int,
                        Some(stream_model(v@)),
                    ) && v@.len() >= 1,
                    None => identify_fold(s, t, cm, 0, None) == identify_fold(
                        s,
                        t,
                        cm,
                        i as int,
                        None,
                    ),
                },
            decreases n - i,
        {
            let kw = &cands[i];
            proof {
                assert(cm[i as int] == cands@[i as int]@);
            }
            match self.validate_keyword(token, kw) {
                Some(ret) => {
                    proof {
                        assert(validate_spec(s, t, cm[i as int]) == Some(stream_model(ret@)));
                        assert(stream_model(ret@)[0] == tok_model(ret@[0]));
                    }
                    let standalone = match &ret[0].category {
                        TokenCategory::Keyword(k0) => k0.is_standalone(),
                        _ => false,
                    };
                    let is_kw = match &ret[0].category {
                        TokenCategory::Keyword(_) => true,
                        _ => false,
                    };
                    if is_kw {
                        if standalone {
                            match &found {
                                None => {
                                    found = Some(ret);
                                },
                                Some(_) => {},
                            }
                        } else {
                            found = Some(ret);
                        }
                    }
                },
                None => {
                    proof {
                        assert(validate_spec(s, t, cm[i as int]) is None);
                    }
                },
            }
            i = i + 1;
        }
        proof {
            match &found {
                Some(v) => {
                    assert(identify_fold(s, t, cm, n as int, Some(stream_model(v@))) == Some(
                        stream_model(v@),
                    ));
                },
                None => {
                    assert(identify_fold(s, t, cm, n as int, None) is None);
                },
            }
        }
        found
    }

    /// Reserved hook of the normalisation pass; leaves the stream untouched.
    pub fn normalize(&mut self, _token: &Token, _validated_tokens: Vec<Token>)
        ensures
            final(self)@ == old(self)@,
    {
    }

    /// The first atom after filtered position `index` whose category equals
    /// the given one.
    pub fn get_known_token_after(
        &self,
        index: usize,
        category: TokenCategory,
        skip_delimiter: bool,
    ) -> (r: Option<Token>)
        ensures
            ({
                let f = filtered(self@.tokens, skip_delimiter);
                let cm = cat_model(category);
                match r {
                    Some(t) => exists|j: int|
                        {
                            &&& index + 1 <= j < f.len()
                            &&& (#[trigger] f[j]).category == cm
                            &&& t@ == f[j]
                            &&& forall|k: int| index + 1 <= k < j ==> (#[trigger] f[k]).category != cm
                        },
                    None => forall|j: int|
                        index + 1 <= j < f.len() ==> (#[trigger] f[j]).category != cm,
                }
            }),
    {
        let ghost s = self@.tokens;
        let ghost f = filtered(s, skip_delimiter);
        let ghost cm = cat_model(category);
        let n = self.tokens.len();
        let mut i: usize = 0;
        let mut cnt: usize = 0;
        proof {
            assert(s.subrange(0, 0) =~= Seq::<TokenView>::empty());
            lemma_filtered_len(s, skip_delimiter);
        }
        while i < n
            invariant
                0 <= i <= n,
                n == self.tokens@.len(),
                s == stream_model(self.tokens@),
                f == filtered(s, skip_delimiter),
                cm == cat_model(category),
                cnt == filtered(s.subrange(0, i as int), skip_delimiter).len(),
                cnt <= f.len(),
                f.len() <= n,
                forall|k: int|
                    index + 1 <= k < cnt ==> (#[trigger] f[k]).category != cm,
            decreases n - i,
        {
            let t = &self.tokens[i];
            proof {
                assert(s[i as int] == tok_model(self.tokens@[i as int]));
                lemma_filtered_push(s, i as int, skip_delimiter);
            }
            let kept = if skip_delimiter {
                !t.category.is_delimiter()
            } else {
                true
            };
            if kept {
                proof {
                    lemma_filtered_at(s, i as int, skip_delimiter);
                    assert(f[cnt as int] == s[i as int]);
                }
                if cnt > index && crate::token::cat_eq(&t.category, &category) {
                    return Some(t.duplicate());
                }
                cnt = cnt + 1;
            }
            i = i + 1;
        }
        proof {
            lemma_filtered_total(s, skip_delimiter);
        }
        None
    }

    /// The last atom before filtered position `index` whose category equals
    /// the given one, when `index` lies within the filtered sequence.
    pub fn get_known_token_before(
        &self,
        index: usize,
        category: TokenCategory,
        skip_delimiter: bool,
    ) -> (r: Option<Token>)
        ensures
            ({
                let f = filtered(self@.tokens, skip_delimiter);
                let cm = cat_model(category);
                match r {
                    Some(t) => index <= f.len() && exists|j: int|
                        {
                            &&& 0 <= j < index
                            &&& (#[trigger] f[j]).category == cm
                            &&& t@ == f[j]
                            &&& forall|k: int| j < k < index ==> (#[trigger] f[k]).category != cm
                        },
                    None => index > f.len() || forall|j: int|
                        0 <= j < index && j < f.len() ==> (#[trigger] f[j]).category != cm,
                }
            }),
    {
        let ghost s = self@.tokens;
        let ghost f = filtered(s, skip_delimiter);
        let ghost cm = cat_model(category);
        let n = self.tokens.len();
        let mut i: usize = 0;
        let mut cnt: usize = 0;
        let mut best: Option<Token> = None;
        proof {
            assert(s.subrange(0, 0) =~= Seq::<TokenView>::empty());
            lemma_filtered_len(s, skip_delimiter);
        }
        while i < n
            invariant
                0 <= i <= n,
                n == self.tokens@.len(),
                s == stream_model(self.tokens@),
                f == filtered(s, skip_delimiter),
                cm == cat_model(category),
                cnt == filtered(s.subrange(0, i as int), skip_delimiter).len(),
                cnt <= f.len(),
                f.len() <= n,
                match best {
                    Some(t) => exists|j: int|
                        {
                            &&& 0 <= j < index && j < cnt
                            &&& (#[trigger] f[j]).category == cm
                            &&& t@ == f[j]
                            &&& forall|k: int|
                                j < k < index && k < cnt ==> (#[trigger] f[k]).category != cm
                        },
                    None => forall|j: int|
                        0 <= j < index && j < cnt ==> (#[trigger] f[j]).category != cm,
                },
            decreases n - i,
        {
            let t = &self.tokens[i];
            proof {
                assert(s[i as int] == tok_model(self.tokens@[i as int]));
                lemma_filtered_push(s, i as int, skip_delimiter);
            }
            let kept = if skip_delimiter {
                !t.category.is_delimiter()
            } else {
                true
            };
            if kept {
                proof {
                    lemma_filtered_at(s, i as int, skip_delimiter);
                    assert(f[cnt as int] == s[i as int]);
                }
                if cnt < index && crate::token::cat_eq(&t.category, &category) {
                    best = Some(t.duplicate());
                    proof {
                        assert(f[cnt as int].category == cm);
                    }
                }
                cnt = cnt + 1;
            }
            i = i + 1;
        }
        proof {
            lemma_filtered_total(s, skip_delimiter);
        }
        if index > cnt {
            return None;
        }
        best
    }

    /// The atoms between filtered position `index` and the next atom of the
    /// given category (or the end); `None` when there are none.
    pub fn get_tokens_until_category(
        &self,
        index: usize,
        category: TokenCategory,
        skip_delimiter: bool,
    ) -> (r: Option<Vec<Token>>)
        ensures
            ({
                let f = filtered(self@.tokens, skip_delimiter);
                let cm = cat_model(category);
                match r {
                    Some(ts) => {
                        &&& ts@.len() >= 1
                        &&& index + 1 + ts@.len() <= f.len()
                        &&& forall|k: int|
                            0 <= k < ts@.len() ==> stream_model(ts@)[k] == f[index + 1 + k]
                        &&& forall|k: int|
                            0 <= k < ts@.len() ==> (#[trigger] f[index + 1 + k]).category != cm
                        &&& (index + 1 + ts@.len() == f.len() || f[index + 1 + ts@.len()].category
                            == cm)
                    },
                    None => index + 1 >= f.len() || f[index + 1].category == cm,
                }
            }),
    {
        let ghost s = self@.tokens;
        let ghost f = filtered(s, skip_delimiter);
        let ghost cm = cat_model(category);
        let n = self.tokens.len();
        let mut out: Vec<Token> = Vec::new();
        let mut i: usize = 0;
        let mut cnt: usize = 0;
        let mut done: bool = false;
        proof {
            assert(s.subrange(0, 0) =~= Seq::<TokenView>::empty());
            lemma_filtered_len(s, skip_delimiter);
        }
        while i < n
            invariant
                0 <= i <= n,
                n == self.tokens@.len(),
                s == stream_model(self.tokens@),
                f == filtered(s, skip_delimiter),
                cm == cat_model(category),
                cnt == filtered(s.subrange(0, i as int), skip_delimiter).len(),
                cnt <= f.len(),
                f.len() <= n,
                done ==> index + 1 + out@.len() < f.len() && f[index + 1
                    + out@.len()].category == cm,
                !done ==> out@.len() == if cnt > index {
                    cnt - index - 1
                } else {
                    0int
                },
                forall|k: int|
                    0 <= k < out@.len() ==> stream_model(out@)[k] == f[index + 1 + k],
                forall|k: int|
                    0 <= k < out@.len() ==> (#[trigger] f[index + 1 + k]).category != cm,
            decreases n - i,
        {
            let t = &self.tokens[i];
            proof {
                assert(s[i as int] == tok_model(self.tokens@[i as int]));
                lemma_filtered_push(s, i as int, skip_delimiter);
            }
            let kept = if skip_delimiter {
                !t.category.is_delimiter()
            } else {
                true
            };
            if kept {
                proof {
                    lemma_filtered_at(s, i as int, skip_delimiter);
                    assert(f[cnt as int] == s[i as int]);
                }
                if !done && cnt > index {
                    if crate::token::cat_eq(&t.category, &category) {
                        done = true;
                    } else {
                        let ghost oldout = out@;
                        out.push(t.duplicate());
                        proof {
                            assert forall|k: int|
                                0 <= k < out@.len() implies stream_model(out@)[k] == f[index + 1
                                + k] by {
                                assert(stream_model(out@)[k] == tok_model(out@[k]));
                                if k < oldout.len() {
                                    assert(out@[k] == oldout[k]);
                                    assert(stream_model(oldout)[k] == tok_model(oldout[k]));
                                } else {
                                    assert(index + 1 + k == cnt);
                                }
                            }
                        }
                    }
                }
                cnt = cnt + 1;
            }
            i = i + 1;
        }
        proof {
            lemma_filtered_total(s, skip_delimiter);
        }
        if out.len() == 0 {
            None
        } else {
            Some(out)
        }
    }

    /// The next `sequence.len()` atoms after filtered position `index`, if
    /// each matches the corresponding category of the pattern.
    pub fn get_matching_tokens_after(
        &self,
        index: usize,
        sequence: Vec<TokenCategory>,
        skip_delimiter: bool,
    ) -> (r: Option<Vec<Token>>)
        ensures
            ({
                let f = filtered(self@.tokens, skip_delimiter);
                match r {
                    Some(ts) => {
                        &&& ts@.len() == sequence@.len()
                        &&& sequence@.len() >= 1
                        &&& index + 1 + sequence@.len() <= f.len()
                        &&& forall|k: int|
                            0 <= k < sequence@.len() ==> stream_model(ts@)[k] == f[index + 1 + k]
                        &&& forall|k: int|
                            0 <= k < sequence@.len() ==> (#[trigger] f[index + 1 + k]).category
                                == cat_model(sequence@[k])
                    },
                    None => sequence@.len() == 0 || index + 1 + sequence@.len() > f.len()
                        || exists|k: int|
                        0 <= k < sequence@.len() && (#[trigger] f[index + 1 + k]).category
                            != cat_model(sequence@[k]),
                }
            }),
    {
        let ghost f = filtered(self@.tokens, skip_delimiter);
        let m = sequence.len();
        if m == 0 {
            return None;
        }
        let n = self.tokens.len();
        proof {
            lemma_filtered_len(self@.tokens, skip_delimiter);
        }
        let mut out: Vec<Token> = Vec::new();
        let mut k: usize = 0;
        while k < m
            invariant
                0 <= k <= m,
                m == sequence@.len(),
                n == self.tokens@.len(),
                f == filtered(self@.tokens, skip_delimiter),
                f.len() <= n,
                out@.len() == k,
                k >= 1 ==> index + k < f.len(),
                forall|j: int|
                    0 <= j < k ==> stream_model(out@)[j] == f[index + 1 + j],
                forall|j: int|
                    0 <= j < k ==> (#[trigger] f[index + 1 + j]).category == cat_model(
                        sequence@[j],
                    ),
            decreases m - k,
        {
            match self.get_token_after(index + k, skip_delimiter) {
                Some(t) => {
                    proof {
                        assert(t@ == f[index + k + 1]);
                    }
                    if !crate::token::cat_eq(&t.category, &sequence[k]) {
                        proof {
                            assert(f[index + 1 + k as int].category != cat_model(
                                sequence@[k as int],
                            ));
                        }
                        return None;
                    }
                    proof {
                        assert(f[index + 1 + k as int].category == cat_model(sequence@[k as int]));
                    }
                    let ghost oldout = out@;
                    out.push(t);
                    proof {
                        assert forall|j: int|
                            0 <= j < out@.len() implies stream_model(out@)[j] == f[index + 1
                            + j] by {
                            assert(stream_model(out@)[j] == tok_model(out@[j]));
                            if j < oldout.len() {
                                assert(out@[j] == oldout[j]);
                                assert(stream_model(oldout)[j] == tok_model(oldout[j]));
                            }
                        }
                    }
                    k = k + 1;
                },
                None => {
                    return None;
                },
            }
        }
        Some(out)
    }

    /// The first atom, in stream order, labelled `known` with the given
    /// metadata kind.
    pub fn get_token_by_metadata_kind(&self, kind: MetadataKind) -> (r: Option<Token>)
        ensures
            ({
                let s = self@.tokens;
                match r {
                    Some(t) => exists|j: int|
                        {
                            &&& 0 <= j < s.len()
                            &&& (#[trigger] s[j]).category == TokenCategoryView::Known(kind)
                            &&& t@ == s[j]
                            &&& forall|k: int|
                                0 <= k < j ==> (#[trigger] s[k]).category
                                    != TokenCategoryView::Known(kind)
                        },
                    None => forall|j: int|
                        0 <= j < s.len() ==> (#[trigger] s[j]).category
                            != TokenCategoryView::Known(kind),
                }
            }),
    {
        let ghost s = self@.tokens;
        let n = self.tokens.len();
        let mut i: usize = 0;
        while i < n
            invariant
                0 <= i <= n,
                n == self.tokens@.len(),
                s == stream_model(self.tokens@),
                forall|k: int|
                    0 <= k < i ==> (#[trigger] s[k]).category != TokenCategoryView::Known(kind),
            decreases n - i,
        {
            let t = &self.tokens[i];
            proof {
                assert(s[i as int] == tok_model(self.tokens@[i as int]));
            }
            if t.has_metadata_kind(kind) {
                return Some(t.duplicate());
            }
            i = i + 1;
        }
        None
    }

    /// Whether any atom is labelled `known` with the given metadata kind.
    pub fn has_token_with_metadata_kind(&self, kind: MetadataKind) -> (r: bool)
        ensures
            r == exists|j: int|
                0 <= j < self@.tokens.len() && (#[trigger] self@.tokens[j]).category
                    == TokenCategoryView::Known(kind),
    {
        match self.get_token_by_metadata_kind(kind) {
            Some(_) => true,
            None => false,
        }
    }
}

/// The very next non-delimiter neighbour of the atom has numeric shape.
pub open spec fn next_is_number_like_spec(s: Seq<TokenView>, t: TokenView) -> bool {
    let f = filtered(s, true);
    match first_id_index(f, t.id) {
        None => false,
        Some(idx) => idx + 1 < f.len() && (f[idx + 1].kind is Number || f[idx
            + 1].kind is NumberLike),
    }
}

/// The previous non-delimiter neighbour is a number-like ordinal.
pub open spec fn prev_is_ordinal_spec(s: Seq<TokenView>, t: TokenView) -> bool {
    let f = filtered(s, true);
    match first_id_index(f, t.id) {
        None => false,
        Some(idx) => idx >= 1 && f[idx - 1].kind is NumberLike && spec_is_ordinal(
            f[idx - 1].value,
        ),
    }
}

/// The single atom a keyword entry validated against its neighbours
/// becomes: the entry's canonical literal with the entry as category. Such
/// an answer only ever updates the atom's category; it never replaces the
/// atom's literal.
pub open spec fn keyword_token(kw: KeywordView) -> TokenView {
    TokenView {
        id: 0,
        value: kw.value,
        enclosed: false,
        category: TokenCategoryView::Keyword(kw),
        kind: TokenKind::String,
    }
}

/// The atom a keyword entry becomes inside a split: the span of the
/// original literal the entry matched, case preserved, with the entry as
/// category. Splits replace the atom in the stream, so they carry the
/// atom's own characters and the concatenation of the split restores the
/// literal exactly.
pub open spec fn matched_keyword_token(span: Seq<char>, kw: KeywordView) -> TokenView {
    TokenView {
        id: 0,
        value: span,
        enclosed: false,
        category: TokenCategoryView::Keyword(kw),
        kind: TokenKind::String,
    }
}

/// The combined form: stripping the entry's literal from the front of the
/// atom, case-insensitively, must leave a non-empty number-or-like suffix.
pub open spec fn combined_strip_spec(t: TokenView, kw: KeywordView) -> Option<Seq<TokenView>> {
    if is_prefix_upper(kw.value, t.value) {
        let suffix = t.value.skip(kw.value.len() as int);
        if suffix.len() > 0 && spec_is_number_or_like(suffix) {
            Some(
                seq![
                    matched_keyword_token(t.value.subrange(0, kw.value.len() as int), kw),
                    TokenView {
                        id: 0,
                        value: suffix,
                        enclosed: false,
                        category: TokenCategoryView::Unknown,
                        kind: if spec_is_digits(suffix) {
                            TokenKind::Number
                        } else {
                            TokenKind::NumberLike
                        },
                    },
                ],
            )
        } else {
            None
        }
    } else {
        None
    }
}

/// The four atoms of the combined season-episode split: the matched prefix
/// letter (possibly empty) as the season-prefix keyword, the season number,
/// the separator letter as a fresh episode-prefix keyword, and the episode
/// tail. All four are spans of the original literal, in order.
pub open spec fn season_episode_split(
    kw: KeywordView,
    v: Seq<char>,
    se: Seq<char>,
    sep: Seq<char>,
    ep: Seq<char>,
) -> Seq<TokenView> {
    seq![
        matched_keyword_token(
            v.subrange(0, v.len() - se.len() - sep.len() - ep.len()),
            kw,
        ),
        TokenView {
            id: 0,
            value: se,
            enclosed: false,
            category: TokenCategoryView::Known(MetadataKind::Season),
            kind: TokenKind::Number,
        },
        TokenView {
            id: 0,
            value: sep,
            enclosed: false,
            category: TokenCategoryView::Keyword(
                KeywordView {
                    value: sep,
                    category: KeywordCategory::EpisodePrefix,
                    kind: KeywordKind::Combined { next_token_kind: TokenKind::NumberLike },
                    priority: KeywordPriority::Normal,
                },
            ),
            kind: TokenKind::SingleCharacter,
        },
        TokenView {
            id: 0,
            value: ep,
            enclosed: false,
            category: TokenCategoryView::Known(MetadataKind::EpisodeNumber),
            kind: if spec_is_digits(ep) {
                TokenKind::Number
            } else {
                TokenKind::NumberLike
            },
        },
    ]
}

/// Validation of one candidate entry against its kind.
pub open spec fn validate_spec(s: Seq<TokenView>, t: TokenView, kw: KeywordView) -> Option<
    Seq<TokenView>,
> {
    match kw.kind {
        KeywordKind::Combined { next_token_kind } => {
            if !(next_token_kind is NumberLike) {
                None
            } else {
                match crate::token_helper::spec_extract_season_episode(t.value) {
                    Some(parts) => Some(
                        season_episode_split(kw, t.value, parts.0, parts.1, parts.2),
                    ),
                    None => combined_strip_spec(t, kw),
                }
            }
        },
        KeywordKind::CombinedOrSeparated { next_token_kind } => {
            if !(next_token_kind is NumberLike) {
                None
            } else {
                match combined_strip_spec(t, kw) {
                    Some(r) => Some(r),
                    None => if next_is_number_like_spec(s, t) {
                        Some(seq![keyword_token(kw)])
                    } else {
                        None
                    },
                }
            }
        },
        KeywordKind::Separated { next_token_kind } => {
            if next_token_kind is NumberLike && next_is_number_like_spec(s, t) {
                Some(seq![keyword_token(kw)])
            } else {
                None
            }
        },
        KeywordKind::OrdinalSuffix => {
            if prev_is_ordinal_spec(s, t) {
                Some(seq![keyword_token(kw)])
            } else {
                None
            }
        },
        KeywordKind::Standalone => Some(
            seq![
                TokenView {
                    id: 0,
                    value: t.value,
                    enclosed: false,
                    category: TokenCategoryView::Keyword(kw),
                    kind: TokenKind::String,
                },
            ],
        ),
    }
}

/// The fold over the candidate entries: a validated non-standalone result
/// replaces the held one, a validated standalone result is held only when
/// nothing was held yet.
pub open spec fn identify_fold(
    s: Seq<TokenView>,
    t: TokenView,
    cands: Seq<KeywordView>,
    i: int,
    found: Option<Seq<TokenView>>,
) -> Option<Seq<TokenView>>
    decreases cands.len() - i,
{
    if i < 0 || i >= cands.len() {
        found
    } else {
        let newfound = match validate_spec(s, t, cands[i]) {
            None => found,
            Some(ret) => match ret[0].category {
                TokenCategoryView::Keyword(kw0) => if kw0.kind is Standalone {
                    if found is None {
                        Some(ret)
                    } else {
                        found
                    }
                } else {
                    Some(ret)
                },
                _ => found,
            },
        };
        identify_fold(s, t, cands, i + 1, newfound)
    }
}

/// The single replacement atom of the video-resolution shortcut: the atom
/// itself re-categorized as a standalone video-term keyword.
pub open spec fn resolution_result(t: TokenView) -> Seq<TokenView> {
    seq![
        TokenView {
            category: TokenCategoryView::Keyword(
                KeywordView {
                    value: t.value,
                    category: KeywordCategory::VideoTerm,
                    kind: KeywordKind::Standalone,
                    priority: KeywordPriority::Normal,
                },
            ),
            ..t
        },
    ]
}

/// What the identifier answers for an atom: nothing for a known atom, the
/// video-term shortcut for a resolution-shaped literal, otherwise the best
/// validated dictionary candidate.
pub open spec fn identify_spec(
    dict: Seq<(Seq<char>, KeywordView)>,
    s: Seq<TokenView>,
    t: TokenView,
) -> Option<Seq<TokenView>> {
    if t.category is Known {
        None
    } else if spec_is_video_resolution(t.value) {
        Some(resolution_result(t))
    } else {
        identify_fold(s, t, find_many_spec(dict, t.value), 0, None)
    }
}

/// The filter can only shorten the sequence.
pub proof fn lemma_filtered_len(s: Seq<TokenView>, skip: bool)
    ensures
        filtered(s, skip).len() <= s.len(),
    decreases s.len(),
{
    if s.len() > 0 {
        lemma_filtered_len(s.drop_last(), skip);
    }
}

/// Without delimiter skipping the filter hides nothing.
pub proof fn lemma_filtered_noskip(s: Seq<TokenView>)
    ensures
        filtered(s, false) == s,
    decreases s.len(),
{
    if s.len() > 0 {
        lemma_filtered_noskip(s.drop_last());
        assert(filtered(s, false) =~= s);
    } else {
        assert(filtered(s, false) =~= s);
    }
}

/// With pairwise distinct identities, the first atom with an identity is
/// the atom at that position.
pub proof fn lemma_first_id_at(s: Seq<TokenView>, i: int)
    requires
        0 <= i < s.len(),
        forall|a: int, b: int|
            0 <= a < b < s.len() ==> (#[trigger] s[a]).id != (#[trigger] s[b]).id,
    ensures
        first_id_index(s, s[i].id) == Some(i),
{
    lemma_first_id_index(s, s[i].id);
    match first_id_index(s, s[i].id) {
        Some(k) => {
            if k < i {
                assert(s[k].id != s[i].id);
            } else if k > i {
                assert(s[i].id != s[k].id);
            }
        },
        None => {
            assert(s[i].id != s[i].id);
        },
    }
}

/// Children of a flatten inherit the replaced atom's enclosure flag.
pub open spec fn mark_enclosed_children(cs: Seq<TokenView>, enclosed: bool) -> Seq<TokenView> {
    Seq::new(cs.len(), |k: int| TokenView { enclosed, ..cs[k] })
}

/// Where each identity of a flattened stream comes from.
proof fn flatten_id_shape(s: Seq<TokenView>, index: int, cs: Seq<TokenView>, base: u64, a: int)
    requires
        0 <= index < s.len(),
        0 <= a < flatten_at_spec(s, index, cs, base).len(),
        base + cs.len() <= u64::MAX,
    ensures
        a < index ==> flatten_at_spec(s, index, cs, base)[a] == s[a],
        index <= a < index + cs.len() ==> flatten_at_spec(s, index, cs, base)[a].id == base + (a
            - index),
        index + cs.len() <= a ==> flatten_at_spec(s, index, cs, base)[a] == s[a - cs.len() + 1],
{
}

} // verus!
