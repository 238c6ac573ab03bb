//! Stream-level laws of the parser: atoms surviving a full parse keep their
//! literal and their enclosure flag and are never relabelled back to
//! unknown, and a full parse of a stream without pending splits — every
//! freshly lexed stream — reproduces the concatenation of the literals
//! exactly, character for character.

use vstd::prelude::*;
use crate::keyword::{KeywordPriority, KeywordView};
use crate::token::{TokenCategoryView, TokenView};
use crate::keyword_manager::find_many_spec;
use crate::token_helper::spec_extract_season_episode;
use crate::token_manager::{
    TokenManagerView, combined_strip_spec, filtered, first_id_index, flatten_at_spec,
    identify_fold, identify_spec, keyword_token, lemma_first_id_index, mark_enclosed_children,
    reid, resolution_result, season_episode_split, stream_wf, update_first_id, validate_spec,
};
use crate::parser::{
    checksum_resolution_cat, checksum_resolution_pass, flatten_pass, flatten_pass_upto,
    flatten_step, keywords_pass, keywords_pass_upto, keywords_step, season_pass, upd2,
};
use crate::tokenizer::values_concat;

verus! {

/// What a full parse owes every atom that exists before and after it: the
/// literal and the enclosure flag are untouched, and an atom labelled
/// keyword or known never returns to unknown.
pub open spec fn survivors_kept(pre: Seq<TokenView>, post: Seq<TokenView>) -> bool {
    forall|i: int, j: int|
        0 <= i < pre.len() && 0 <= j < post.len() && (#[trigger] pre[i]).id == (
        #[trigger] post[j]).id ==> {
            &&& (post[j].category is Unknown ==> pre[i].category is Unknown)
            &&& post[j].enclosed == pre[i].enclosed
            &&& post[j].value == pre[i].value
        }
}

/// A pass that touches categories only, in place: identities, literals,
/// enclosure flags and shapes are untouched, and no atom is relabelled to
/// unknown.
pub open spec fn pointwise_monotone(pre: Seq<TokenView>, post: Seq<TokenView>) -> bool {
    &&& post.len() == pre.len()
    &&& forall|i: int|
        0 <= i < pre.len() ==> {
            &&& (#[trigger] post[i]).id == pre[i].id
            &&& post[i].enclosed == pre[i].enclosed
            &&& post[i].value == pre[i].value
            &&& post[i].kind == pre[i].kind
            &&& (post[i].category is Unknown ==> pre[i].category is Unknown)
        }
}

proof fn lemma_pointwise_trans(a: Seq<TokenView>, b: Seq<TokenView>, c: Seq<TokenView>)
    requires
        pointwise_monotone(a, b),
        pointwise_monotone(b, c),
    ensures
        pointwise_monotone(a, c),
{
}

/// The checksum-and-resolution pass only promotes categories.
pub proof fn lemma_checksum_pointwise(s: Seq<TokenView>)
    ensures
        pointwise_monotone(s, checksum_resolution_pass(s)),
{
    let cr = checksum_resolution_pass(s);
    assert forall|i: int| 0 <= i < s.len() implies {
        &&& (#[trigger] cr[i]).id == s[i].id
        &&& cr[i].enclosed == s[i].enclosed
        &&& cr[i].value == s[i].value
        &&& cr[i].kind == s[i].kind
        &&& (cr[i].category is Unknown ==> s[i].category is Unknown)
    } by {
        assert(cr[i] == TokenView { category: checksum_resolution_cat(s[i]), ..s[i] });
    }
}

/// A category update that does not write `unknown` keeps the pass pointwise
/// monotone.
proof fn lemma_update_pointwise(s: Seq<TokenView>, id: u64, cat: TokenCategoryView)
    requires
        !(cat is Unknown),
    ensures
        pointwise_monotone(s, update_first_id(s, id, cat)),
{
    let u = update_first_id(s, id, cat);
    match first_id_index(s, id) {
        None => {},
        Some(i) => {
            lemma_first_id_index(s, id);
            assert forall|j: int| 0 <= j < s.len() implies {
                &&& (#[trigger] u[j]).id == s[j].id
                &&& u[j].enclosed == s[j].enclosed
                &&& u[j].value == s[j].value
                &&& u[j].kind == s[j].kind
                &&& (u[j].category is Unknown ==> s[j].category is Unknown)
            } by {
                if j == i {
                    assert(u[j] == TokenView { category: cat, ..s[i] });
                }
            }
        },
    }
}

/// One keyword step only promotes categories.
proof fn lemma_keywords_step_pointwise(
    dict: Seq<(Seq<char>, KeywordView)>,
    state: Seq<TokenView>,
    tok: TokenView,
    prio: KeywordPriority,
)
    ensures
        pointwise_monotone(state, keywords_step(dict, state, tok, prio)),
{
    match identify_spec(dict, state, tok) {
        None => {},
        Some(ret) => {
            if ret.len() == 1 {
                match ret[0].category {
                    TokenCategoryView::Keyword(kw) => {
                        if kw.priority == prio {
                            lemma_update_pointwise(
                                state,
                                tok.id,
                                TokenCategoryView::Keyword(kw),
                            );
                        }
                    },
                    _ => {},
                }
            } else {
                lemma_update_pointwise(state, tok.id, TokenCategoryView::TokenParts(ret));
            }
        },
    }
}

/// The whole keyword pass only promotes categories.
pub proof fn lemma_keywords_pointwise(
    dict: Seq<(Seq<char>, KeywordView)>,
    orig: Seq<TokenView>,
    k: int,
    prio: KeywordPriority,
)
    ensures
        pointwise_monotone(orig, keywords_pass_upto(dict, orig, k, prio)),
    decreases k,
{
    if k <= 0 {
    } else {
        lemma_keywords_pointwise(dict, orig, k - 1, prio);
        let prev = keywords_pass_upto(dict, orig, k - 1, prio);
        lemma_keywords_step_pointwise(dict, prev, orig[k - 1], prio);
        lemma_pointwise_trans(orig, prev, keywords_pass_upto(dict, orig, k, prio));
    }
}

/// The season pass only promotes categories.
pub proof fn lemma_season_pointwise(state: Seq<TokenView>)
    ensures
        pointwise_monotone(state, season_pass(state)),
{
    let sp = season_pass(state);
    if !crate::parser::has_season(state) {
        match crate::parser::first_season_prefix_index(state) {
            None => {},
            Some(j) => {
                let kw = state[j].category->Keyword_0;
                match kw.kind {
                    crate::keyword::KeywordKind::Standalone => {},
                    crate::keyword::KeywordKind::Combined { .. } => {},
                    crate::keyword::KeywordKind::OrdinalSuffix => {},
                    _ => {
                        let f = filtered(state, true);
                        match first_id_index(f, state[j].id) {
                            None => {},
                            Some(idx) => {
                                match crate::parser::range_pair(f, idx) {
                                    Some(pr) => {
                                        lemma_upd2_pointwise(state, pr.0.id, pr.1.id);
                                    },
                                    None => {
                                        if idx + 1 < f.len() && (f[idx + 1].kind is Number || f[
                                            idx + 1].kind is NumberLike) {
                                            lemma_update_pointwise(
                                                state,
                                                f[idx + 1].id,
                                                TokenCategoryView::Known(
                                                    crate::metadata::MetadataKind::Season,
                                                ),
                                            );
                                        }
                                    },
                                }
                            },
                        }
                    },
                }
            },
        }
    }
}

proof fn lemma_upd2_pointwise(state: Seq<TokenView>, aid: u64, bid: u64)
    ensures
        pointwise_monotone(state, upd2(state, aid, bid, true)),
        pointwise_monotone(state, upd2(state, aid, bid, false)),
{
    let s1 = update_first_id(state, aid, TokenCategoryView::Known(
        crate::metadata::MetadataKind::Season,
    ));
    lemma_update_pointwise(state, aid, TokenCategoryView::Known(
        crate::metadata::MetadataKind::Season,
    ));
    lemma_update_pointwise(s1, bid, TokenCategoryView::Known(
        crate::metadata::MetadataKind::EpisodeNumber,
    ));
    lemma_update_pointwise(s1, bid, TokenCategoryView::Known(
        crate::metadata::MetadataKind::Season,
    ));
    lemma_pointwise_trans(state, s1, upd2(state, aid, bid, true));
    lemma_pointwise_trans(state, s1, upd2(state, aid, bid, false));
}

/// Identities are pairwise distinct and below the bound.
pub open spec fn ids_wf(s: Seq<TokenView>, nid: u64) -> bool {
    &&& forall|a: int, b: int|
        0 <= a < b < s.len() ==> (#[trigger] s[a]).id != (#[trigger] s[b]).id
    &&& forall|a: int| 0 <= a < s.len() ==> (#[trigger] s[a]).id < nid
}

/// Across the flattening pass, every atom whose identity predates the pass
/// is one of the pass's input atoms, unchanged; identities stay
/// well-formed and the identity bound only grows.
pub proof fn lemma_flatten_survivors(orig: Seq<TokenView>, init: (Seq<TokenView>, u64), k: int)
    requires
        ids_wf(init.0, init.1),
    ensures
        ({
            let r = flatten_pass_upto(orig, init, k);
            &&& ids_wf(r.0, r.1)
            &&& r.1 >= init.1
            &&& forall|j: int|
                0 <= j < r.0.len() && (#[trigger] r.0[j]).id < init.1 ==> exists|i: int|
                    0 <= i < init.0.len() && init.0[i] == r.0[j]
        }),
    decreases k,
{
    if k <= 0 {
        let r = flatten_pass_upto(orig, init, k);
        assert forall|j: int|
            0 <= j < r.0.len() && (#[trigger] r.0[j]).id < init.1 implies exists|i: int|
                0 <= i < init.0.len() && init.0[i] == r.0[j] by {
            assert(init.0[j] == r.0[j]);
        }
    } else {
        lemma_flatten_survivors(orig, init, k - 1);
        let prev = flatten_pass_upto(orig, init, k - 1);
        let r = flatten_step(prev, orig[k - 1]);
        match orig[k - 1].category {
            TokenCategoryView::TokenParts(cs) => {
                match first_id_index(prev.0, orig[k - 1].id) {
                    Some(idx) => {
                        if prev.1 + cs.len() <= u64::MAX {
                            lemma_first_id_index(prev.0, orig[k - 1].id);
                            let marked = mark_enclosed_children(cs, prev.0[idx].enclosed);
                            let fl = flatten_at_spec(prev.0, idx, marked, prev.1);
                            assert(fl.len() == prev.0.len() + marked.len() - 1);
                            assert forall|j: int| 0 <= j < fl.len() implies ((#[trigger] fl[j]).id
                                < prev.1 ==> exists|i2: int|
                                0 <= i2 < prev.0.len() && prev.0[i2] == fl[j]) && (fl[j].id
                                >= prev.1 ==> prev.1 <= fl[j].id < prev.1 + cs.len()) by {
                                if j < idx {
                                    assert(fl[j] == prev.0[j]);
                                } else if j < idx + marked.len() {
                                    assert(fl[j] == reid(marked, prev.1)[j - idx]);
                                    assert(fl[j].id == prev.1 + (j - idx));
                                } else {
                                    assert(fl[j] == prev.0[j - marked.len() + 1]);
                                }
                            }
                            assert forall|a: int, b: int|
                                0 <= a < b < fl.len() implies (#[trigger] fl[a]).id != (
                            #[trigger] fl[b]).id by {
                                if a < idx {
                                    assert(fl[a] == prev.0[a]);
                                } else if a < idx + marked.len() {
                                    assert(fl[a].id == prev.1 + (a - idx));
                                } else {
                                    assert(fl[a] == prev.0[a - marked.len() + 1]);
                                }
                                if b < idx {
                                    assert(fl[b] == prev.0[b]);
                                } else if b < idx + marked.len() {
                                    assert(fl[b].id == prev.1 + (b - idx));
                                } else {
                                    assert(fl[b] == prev.0[b - marked.len() + 1]);
                                }
                            }
                            assert forall|a: int| 0 <= a < fl.len() implies (#[trigger] fl[a]).id
                                < r.1 by {
                                if a < idx {
                                    assert(fl[a] == prev.0[a]);
                                } else if a < idx + marked.len() {
                                    assert(fl[a].id == prev.1 + (a - idx));
                                } else {
                                    assert(fl[a] == prev.0[a - marked.len() + 1]);
                                }
                            }
                            assert forall|j: int|
                                0 <= j < r.0.len() && (#[trigger] r.0[j]).id
                                < init.1 implies exists|i: int|
                                0 <= i < init.0.len() && init.0[i] == r.0[j] by {
                                assert(r.0[j].id < prev.1);
                                let i2 = choose|i2: int|
                                    0 <= i2 < prev.0.len() && prev.0[i2] == r.0[j];
                                assert(prev.0[i2].id < init.1);
                            }
                        }
                    },
                    None => {},
                }
            },
            _ => {},
        }
    }
}

/// Monotone labels and enclosure stability. Every atom that exists both
/// before and after a full parse (matched by its stable identity) keeps its
/// literal and its enclosure flag, and if it was already labelled a keyword
/// or known, it never returns to unknown.
pub proof fn lemma_parse_survivors(m: TokenManagerView)
    requires
        stream_wf(m),
    ensures
        ({
            let s1 = checksum_resolution_pass(m.tokens);
            let s2 = keywords_pass(m.dict, s1, KeywordPriority::Normal);
            let fl = flatten_pass(s2, m.next_id);
            survivors_kept(m.tokens, season_pass(fl.0))
        }),
{
    let s1 = checksum_resolution_pass(m.tokens);
    let s2 = keywords_pass(m.dict, s1, KeywordPriority::Normal);
    let fl = flatten_pass(s2, m.next_id);
    let fin = season_pass(fl.0);
    lemma_checksum_pointwise(m.tokens);
    lemma_keywords_pointwise(m.dict, s1, s1.len() as int, KeywordPriority::Normal);
    lemma_pointwise_trans(m.tokens, s1, s2);
    assert(ids_wf(s2, m.next_id)) by {
        assert forall|a: int, b: int|
            0 <= a < b < s2.len() implies (#[trigger] s2[a]).id != (#[trigger] s2[b]).id by {
            assert(s2[a].id == m.tokens[a].id);
            assert(s2[b].id == m.tokens[b].id);
        }
        assert forall|a: int| 0 <= a < s2.len() implies (#[trigger] s2[a]).id < m.next_id by {
            assert(s2[a].id == m.tokens[a].id);
        }
    }
    lemma_flatten_survivors(s2, (s2, m.next_id), s2.len() as int);
    lemma_season_pointwise(fl.0);
    assert forall|i: int, j: int|
        0 <= i < m.tokens.len() && 0 <= j < fin.len() && (#[trigger] m.tokens[i]).id == (
    #[trigger] fin[j]).id implies {
        &&& (fin[j].category is Unknown ==> m.tokens[i].category is Unknown)
        &&& fin[j].enclosed == m.tokens[i].enclosed
        &&& fin[j].value == m.tokens[i].value
    } by {
        assert(fl.0[j].id == fin[j].id);
        assert(fl.0[j].id < m.next_id);
        let i2 = choose|i2: int| 0 <= i2 < s2.len() && s2[i2] == fl.0[j];
        assert(s2[i2].id == m.tokens[i2].id);
        if i != i2 {
            if i < i2 {
                assert(m.tokens[i].id != m.tokens[i2].id);
            } else {
                assert(m.tokens[i2].id != m.tokens[i].id);
            }
        }
        assert(i == i2);
    }
}

/// Flattening preserves the literal sum: replacing an atom by children
/// whose literals concatenate to the atom's own literal leaves the
/// concatenation of the stream's literals unchanged.
pub proof fn lemma_flatten_preserves_text(
    s: Seq<TokenView>,
    index: int,
    cs: Seq<TokenView>,
    base: u64,
)
    requires
        0 <= index < s.len(),
        values_concat(cs) == s[index].value,
    ensures
        values_concat(flatten_at_spec(s, index, mark_enclosed_children(cs, s[index].enclosed), base))
            == values_concat(s),
{
    let marked = mark_enclosed_children(cs, s[index].enclosed);
    let fl = flatten_at_spec(s, index, marked, base);
    lemma_values_concat_add(s.subrange(0, index) + reid(marked, base), s.subrange(
        index + 1,
        s.len() as int,
    ));
    lemma_values_concat_add(s.subrange(0, index), reid(marked, base));
    assert(fl == (s.subrange(0, index) + reid(marked, base)) + s.subrange(
        index + 1,
        s.len() as int,
    ));
    crate::tokenizer::lemma_values_concat_pointwise(reid(marked, base), cs);
    assert(s =~= (s.subrange(0, index) + s.subrange(index, index + 1)) + s.subrange(
        index + 1,
        s.len() as int,
    ));
    lemma_values_concat_add(s.subrange(0, index) + s.subrange(index, index + 1), s.subrange(
        index + 1,
        s.len() as int,
    ));
    lemma_values_concat_add(s.subrange(0, index), s.subrange(index, index + 1));
    assert(values_concat(s.subrange(index, index + 1)) =~= s[index].value) by {
        assert(s.subrange(index, index + 1)[0] == s[index]);
        assert(s.subrange(index, index + 1).drop_first() =~= Seq::<TokenView>::empty());
        assert(values_concat(Seq::<TokenView>::empty()) == Seq::<char>::empty());
        assert(values_concat(s.subrange(index, index + 1)) == s[index].value + Seq::<
            char,
        >::empty());
        assert(s[index].value + Seq::<char>::empty() =~= s[index].value);
    }
}

/// Concatenation of literals distributes over concatenation of streams.
pub proof fn lemma_values_concat_add(a: Seq<TokenView>, b: Seq<TokenView>)
    ensures
        values_concat(a + b) == values_concat(a) + values_concat(b),
    decreases a.len(),
{
    if a.len() == 0 {
        assert(a + b =~= b);
        assert(values_concat(a) + values_concat(b) =~= values_concat(b));
    } else {
        assert((a + b).drop_first() =~= a.drop_first() + b);
        lemma_values_concat_add(a.drop_first(), b);
        assert((a + b)[0] == a[0]);
        assert(values_concat(a + b) == a[0].value + (values_concat(a.drop_first()) + values_concat(
            b,
        )));
        assert(a[0].value + (values_concat(a.drop_first()) + values_concat(b)) =~= (a[0].value
            + values_concat(a.drop_first())) + values_concat(b));
    }
}

/// A freshly lexed stream never carries a split atom, so a parse of it
/// reproduces the input text exactly.
pub proof fn lemma_tokenize_no_parts(s: Seq<char>)
    ensures
        no_parts(crate::tokenizer::tokenize_spec(s)),
{
    lemma_lex_no_parts(s);
    let lexed = crate::tokenizer::lex_spec(s);
    let marked = crate::tokenizer::mark_enclosed_spec(lexed);
    assert forall|k: int| 0 <= k < marked.len() implies !((#[trigger] marked[k]).category
        is TokenParts) by {
        assert(marked[k].category == lexed[k].category);
    }
}

proof fn lemma_lex_no_parts(s: Seq<char>)
    ensures
        no_parts(crate::tokenizer::lex_spec(s)),
    decreases s.len(),
{
    if s.len() == 0 {
    } else if !crate::tokenizer::spec_is_unknown_char(s[0]) {
        lemma_lex_no_parts(s.drop_first());
        let vs = crate::tokenizer::lex_spec(s);
        assert forall|k: int| 0 <= k < vs.len() implies !((#[trigger] vs[k]).category
            is TokenParts) by {
            if k == 0 {
                assert(vs[0] == crate::tokenizer::char_token(s[0]));
            } else {
                assert(vs[k] == crate::tokenizer::lex_spec(s.drop_first())[k - 1]);
            }
        }
    } else {
        let run = crate::tokenizer::unknown_run_end(s, 0);
        crate::tokenizer::lemma_unknown_run_end(s, 0);
        assert(run >= 1) by {
            if run == 0 {
                assert(!crate::tokenizer::spec_is_unknown_char(s[0]));
            }
        }
        lemma_lex_no_parts(s.skip(run));
        let vs = crate::tokenizer::lex_spec(s);
        assert forall|k: int| 0 <= k < vs.len() implies !((#[trigger] vs[k]).category
            is TokenParts) by {
            if k == 0 {
                assert(vs[0] == crate::tokenizer::unknown_token(s.subrange(0, run)));
            } else {
                assert(vs[k] == crate::tokenizer::lex_spec(s.skip(run))[k - 1]);
            }
        }
    }
}

/// Every atom that carries children satisfies the split laws: the
/// children's literals concatenate back to the atom's own literal and none
/// of them carries children itself.
pub open spec fn parts_ok(s: Seq<TokenView>) -> bool {
    forall|i: int|
        0 <= i < s.len() ==> match (#[trigger] s[i]).category {
            TokenCategoryView::TokenParts(cs) => values_concat(cs) == s[i].value && no_parts(cs),
            _ => true,
        }
}

/// No atom of the sequence carries children.
pub open spec fn no_parts(s: Seq<TokenView>) -> bool {
    forall|k: int| 0 <= k < s.len() ==> !((#[trigger] s[k]).category is TokenParts)
}

/// What a replacement answer from the identifier owes: it holds no nested
/// split, and a multi-atom answer concatenates back to the atom's literal,
/// character for character.
pub open spec fn split_ok(t: TokenView, ret: Seq<TokenView>) -> bool {
    &&& no_parts(ret)
    &&& ret.len() != 1 ==> values_concat(ret) == t.value
}

/// A validated candidate yields a well-behaved answer.
proof fn lemma_validate_split_ok(s: Seq<TokenView>, t: TokenView, kw: KeywordView)
    ensures
        validate_spec(s, t, kw) matches Some(ret) ==> split_ok(t, ret),
{
    match validate_spec(s, t, kw) {
        None => {},
        Some(ret) => {
            match kw.kind {
                crate::keyword::KeywordKind::Combined { next_token_kind } => {
                    match spec_extract_season_episode(t.value) {
                        Some(parts) => {
                            lemma_season_split_ok(t, kw, parts.0, parts.1, parts.2);
                        },
                        None => {
                            lemma_strip_split_ok(t, kw);
                        },
                    }
                },
                crate::keyword::KeywordKind::CombinedOrSeparated { next_token_kind } => {
                    match combined_strip_spec(t, kw) {
                        Some(r) => {
                            lemma_strip_split_ok(t, kw);
                        },
                        None => {
                            assert(ret =~= seq![keyword_token(kw)]);
                        },
                    }
                },
                crate::keyword::KeywordKind::Separated { .. } => {},
                crate::keyword::KeywordKind::OrdinalSuffix => {},
                crate::keyword::KeywordKind::Standalone => {},
            }
        },
    }
}

/// The fold over the candidates keeps the split laws: it only ever holds a
/// validated candidate's answer.
proof fn lemma_fold_split_ok(
    s: Seq<TokenView>,
    t: TokenView,
    cands: Seq<KeywordView>,
    i: int,
    found: Option<Seq<TokenView>>,
)
    requires
        found matches Some(r) ==> split_ok(t, r),
    ensures
        identify_fold(s, t, cands, i, found) matches Some(r) ==> split_ok(t, r),
    decreases cands.len() - i,
{
    if 0 <= i < cands.len() {
        lemma_validate_split_ok(s, t, cands[i]);
        let newfound = match validate_spec(s, t, cands[i]) {
            None => found,
            Some(ret) => match ret[0].category {
                TokenCategoryView::Keyword(kw0) => if kw0.kind is Standalone {
                    if found is None {
                        Some(ret)
                    } else {
                        found
                    }
                } else {
                    Some(ret)
                },
                _ => found,
            },
        };
        lemma_fold_split_ok(s, t, cands, i + 1, newfound);
    }
}

/// Whatever the identifier answers keeps the split laws.
pub proof fn lemma_identify_split_ok(
    dict: Seq<(Seq<char>, KeywordView)>,
    s: Seq<TokenView>,
    t: TokenView,
)
    ensures
        identify_spec(dict, s, t) matches Some(r) ==> split_ok(t, r),
{
    if t.category is Known {
    } else if crate::token_helper::spec_is_video_resolution(t.value) {
        let r = resolution_result(t);
        assert(r.len() == 1);
        assert(!(r[0].category is TokenParts));
    } else {
        lemma_fold_split_ok(s, t, find_many_spec(dict, t.value), 0, None);
    }
}

/// The combined strip answer concatenates back to the atom's literal.
proof fn lemma_strip_split_ok(t: TokenView, kw: KeywordView)
    ensures
        combined_strip_spec(t, kw) matches Some(ret) ==> split_ok(t, ret),
{
    match combined_strip_spec(t, kw) {
        None => {},
        Some(ret) => {
            let matched = t.value.subrange(0, kw.value.len() as int);
            let suffix = t.value.skip(kw.value.len() as int);
            assert(ret.len() == 2);
            assert(values_concat(ret) =~= matched + suffix) by {
                assert(ret[0].value == matched);
                assert(ret.drop_first()[0].value == suffix);
                assert(ret.drop_first().drop_first() =~= Seq::<TokenView>::empty());
                assert(values_concat(Seq::<TokenView>::empty()) == Seq::<char>::empty());
                assert(values_concat(ret.drop_first()) == suffix + Seq::<char>::empty());
                assert(suffix + Seq::<char>::empty() =~= suffix);
            }
            assert(matched + suffix =~= t.value);
        },
    }
}

/// The four-way season-episode split concatenates back to the atom's
/// literal: all four atoms are consecutive spans of it.
proof fn lemma_season_split_ok(
    t: TokenView,
    kw: KeywordView,
    se: Seq<char>,
    sep: Seq<char>,
    ep: Seq<char>,
)
    requires
        spec_extract_season_episode(t.value) == Some((se, sep, ep)),
    ensures
        split_ok(t, season_episode_split(kw, t.value, se, sep, ep)),
{
    let v = t.value;
    let ret = season_episode_split(kw, v, se, sep, ep);
    let b: int = if v.len() > 0 && (v[0] == 'S' || v[0] == 's') {
        1
    } else {
        0
    };
    let e1 = crate::token_helper::run_end(v, b);
    crate::token_helper::lemma_run_end(v, b);
    assert(b <= e1 <= v.len());
    assert(e1 != b && e1 < v.len());
    assert(se == v.subrange(b, e1) && sep == seq![v[e1]] && ep == v.subrange(e1 + 1, v.len() as int));
    assert(se.len() == e1 - b);
    assert(sep.len() == 1);
    assert(ep.len() == v.len() - e1 - 1);
    let pre = v.subrange(0, v.len() - se.len() - sep.len() - ep.len());
    assert(pre == v.subrange(0, b));
    assert(values_concat(ret) =~= pre + (se + (sep + ep))) by {
        let d1 = ret.drop_first();
        let d2 = d1.drop_first();
        let d3 = d2.drop_first();
        let d4 = d3.drop_first();
        assert(ret[0].value == pre);
        assert(d1[0].value == se);
        assert(d2[0].value == sep);
        assert(d3[0].value == ep);
        assert(d4 =~= Seq::<TokenView>::empty());
        assert(values_concat(Seq::<TokenView>::empty()) == Seq::<char>::empty());
        assert(values_concat(d3) == ep + Seq::<char>::empty());
        assert(ep + Seq::<char>::empty() =~= ep);
        assert(values_concat(d2) == sep + values_concat(d3));
        assert(values_concat(d1) == se + values_concat(d2));
        assert(values_concat(ret) == pre + values_concat(d1));
        assert(sep + ep =~= sep + values_concat(d3));
        assert(se + (sep + ep) =~= se + values_concat(d2));
    }
    assert(pre + (se + (sep + ep)) =~= v) by {
        assert forall|i: int| 0 <= i < v.len() implies (pre + (se + (sep + ep)))[i] == v[i] by {
            if i < b {
                assert(pre[i] == v.subrange(0, b)[i]);
            } else if i < e1 {
                assert((pre + (se + (sep + ep)))[i] == (se + (sep + ep))[i - b]);
                assert((se + (sep + ep))[i - b] == se[i - b]);
                assert(se[i - b] == v.subrange(b, e1)[i - b]);
            } else if i == e1 {
                assert((pre + (se + (sep + ep)))[i] == (se + (sep + ep))[i - b]);
                assert((se + (sep + ep))[i - b] == (sep + ep)[i - b - se.len()]);
                assert((sep + ep)[0] == sep[0]);
            } else {
                assert((pre + (se + (sep + ep)))[i] == (se + (sep + ep))[i - b]);
                assert((se + (sep + ep))[i - b] == (sep + ep)[i - b - se.len()]);
                assert((sep + ep)[i - b - se.len()] == ep[i - b - se.len() - 1]);
                assert(ep[i - e1 - 1] == v.subrange(e1 + 1, v.len() as int)[i - e1 - 1]);
            }
        }
    }
}

/// Streams with pointwise equal literals concatenate equally; a pass that
/// touches only categories keeps the text unchanged.
proof fn lemma_pointwise_same_text(a: Seq<TokenView>, b: Seq<TokenView>)
    requires
        pointwise_monotone(a, b),
    ensures
        values_concat(b) == values_concat(a),
{
    crate::tokenizer::lemma_values_concat_pointwise(b, a);
}

/// The checksum-and-resolution pass cannot create a split atom.
proof fn lemma_checksum_parts(s: Seq<TokenView>)
    requires
        no_parts(s),
    ensures
        no_parts(checksum_resolution_pass(s)),
{
    let cr = checksum_resolution_pass(s);
    assert forall|i: int| 0 <= i < cr.len() implies !((#[trigger] cr[i]).category
        is TokenParts) by {
        assert(cr[i] == TokenView { category: crate::parser::checksum_resolution_cat(s[i]), ..s[
            i] });
    }
}

/// Through the keyword pass, every split atom satisfies the split laws.
proof fn lemma_keywords_parts_ok(
    dict: Seq<(Seq<char>, KeywordView)>,
    orig: Seq<TokenView>,
    k: int,
    prio: crate::keyword::KeywordPriority,
)
    requires
        no_parts(orig),
        forall|a: int, b: int|
            0 <= a < b < orig.len() ==> (#[trigger] orig[a]).id != (#[trigger] orig[b]).id,
        0 <= k <= orig.len(),
    ensures
        parts_ok(keywords_pass_upto(dict, orig, k, prio)),
    decreases k,
{
    if k <= 0 {
        assert forall|i: int|
            0 <= i < orig.len() implies match (#[trigger] orig[i]).category {
            TokenCategoryView::TokenParts(cs) => values_concat(cs) == orig[i].value
                && no_parts(cs),
            _ => true,
        } by {
            assert(!(orig[i].category is TokenParts));
        }
    } else {
        lemma_keywords_parts_ok(dict, orig, k - 1, prio);
        let state = keywords_pass_upto(dict, orig, k - 1, prio);
        let tok = orig[k - 1];
        let next = keywords_step(dict, state, tok, prio);
        lemma_keywords_pointwise(dict, orig, k - 1, prio);
        lemma_identify_split_ok(dict, state, tok);
        match identify_spec(dict, state, tok) {
            None => {},
            Some(ret) => {
                if ret.len() == 1 {
                    match ret[0].category {
                        TokenCategoryView::Keyword(kw) => {
                            if kw.priority == prio {
                                lemma_update_parts_ok(
                                    state,
                                    tok.id,
                                    TokenCategoryView::Keyword(kw),
                                );
                            }
                        },
                        _ => {},
                    }
                } else {
                    // The split is installed on the atom that carries the
                    // identity; its literal equals the identified atom's.
                    lemma_first_id_index(state, tok.id);
                    match first_id_index(state, tok.id) {
                        None => {},
                        Some(idx) => {
                            assert(state[idx].id == orig[idx].id);
                            if idx != k - 1 {
                                if idx < k - 1 {
                                    assert(orig[idx].id != orig[k - 1].id);
                                } else {
                                    assert(orig[k - 1].id != orig[idx].id);
                                }
                            }
                            assert(idx == k - 1);
                            assert(state[idx].value == tok.value);
                            assert forall|i: int|
                                0 <= i < next.len() implies match (#[trigger] next[i]).category {
                                TokenCategoryView::TokenParts(cs) => values_concat(cs)
                                    == next[i].value && no_parts(cs),
                                _ => true,
                            } by {
                                if i == idx {
                                    assert(next[i] == TokenView {
                                        category: TokenCategoryView::TokenParts(ret),
                                        ..state[idx]
                                    });
                                } else {
                                    assert(next[i] == state[i]);
                                }
                            }
                        },
                    }
                }
            },
        }
    }
}

/// An update that writes no split keeps the split laws.
proof fn lemma_update_parts_ok(s: Seq<TokenView>, id: u64, cat: TokenCategoryView)
    requires
        parts_ok(s),
        !(cat is TokenParts),
    ensures
        parts_ok(update_first_id(s, id, cat)),
{
    let u = update_first_id(s, id, cat);
    match first_id_index(s, id) {
        None => {},
        Some(i) => {
            lemma_first_id_index(s, id);
            assert forall|j: int|
                0 <= j < u.len() implies match (#[trigger] u[j]).category {
                TokenCategoryView::TokenParts(cs) => values_concat(cs) == u[j].value
                    && no_parts(cs),
                _ => true,
            } by {
                if j == i {
                    assert(u[j] == TokenView { category: cat, ..s[i] });
                } else {
                    assert(u[j] == s[j]);
                }
            }
        },
    }
}

/// Through the flattening pass the concatenation of literals never
/// changes: each flatten substitutes an atom by children whose literals
/// concatenate to the atom's own.
proof fn lemma_flatten_text(orig: Seq<TokenView>, nid: u64, k: int)
    requires
        ids_wf(orig, nid),
        parts_ok(orig),
        0 <= k <= orig.len(),
    ensures
        values_concat(flatten_pass_upto(orig, (orig, nid), k).0) == values_concat(orig),
    decreases k,
{
    if k > 0 {
        lemma_flatten_text(orig, nid, k - 1);
        let prev = flatten_pass_upto(orig, (orig, nid), k - 1);
        lemma_flatten_survivors(orig, (orig, nid), k - 1);
        let tok = orig[k - 1];
        match tok.category {
            TokenCategoryView::TokenParts(cs) => {
                match first_id_index(prev.0, tok.id) {
                    Some(idx) => {
                        if prev.1 + cs.len() <= u64::MAX {
                            lemma_first_id_index(prev.0, tok.id);
                            assert(prev.0[idx].id == tok.id);
                            assert(prev.0[idx].id < nid);
                            let i2 = choose|i2: int|
                                0 <= i2 < orig.len() && orig[i2] == prev.0[idx];
                            if i2 != k - 1 {
                                if i2 < k - 1 {
                                    assert(orig[i2].id != orig[k - 1].id);
                                } else {
                                    assert(orig[k - 1].id != orig[i2].id);
                                }
                            }
                            assert(prev.0[idx] == tok);
                            assert(values_concat(cs) == prev.0[idx].value);
                            lemma_flatten_preserves_text(prev.0, idx, cs, prev.1);
                        }
                    },
                    None => {},
                }
            },
            _ => {},
        }
    }
}

/// Round-trip preservation: concatenating every atom's literal in final
/// order reproduces the concatenation before the parse, character for
/// character. Splits carry the spans of the original literal, so a full
/// parse of a freshly lexed stream never drops, invents or recases a
/// character.
pub proof fn lemma_parse_preserves_text(m: TokenManagerView)
    requires
        stream_wf(m),
        no_parts(m.tokens),
    ensures
        ({
            let s1 = checksum_resolution_pass(m.tokens);
            let s2 = keywords_pass(m.dict, s1, KeywordPriority::Normal);
            let fl = flatten_pass(s2, m.next_id);
            values_concat(season_pass(fl.0)) == values_concat(m.tokens)
        }),
{
    let s1 = checksum_resolution_pass(m.tokens);
    let s2 = keywords_pass(m.dict, s1, KeywordPriority::Normal);
    let fl = flatten_pass(s2, m.next_id);
    let fin = season_pass(fl.0);
    lemma_checksum_pointwise(m.tokens);
    lemma_pointwise_same_text(m.tokens, s1);
    lemma_checksum_parts(m.tokens);
    assert(forall|a: int, b: int|
        0 <= a < b < s1.len() ==> (#[trigger] s1[a]).id != (#[trigger] s1[b]).id) by {
        assert(forall|a: int| 0 <= a < s1.len() ==> (#[trigger] s1[a]).id == m.tokens[a].id);
    }
    lemma_keywords_parts_ok(m.dict, s1, s1.len() as int, KeywordPriority::Normal);
    lemma_keywords_pointwise(m.dict, s1, s1.len() as int, KeywordPriority::Normal);
    lemma_pointwise_same_text(s1, s2);
    assert(ids_wf(s2, m.next_id)) by {
        assert forall|a: int, b: int|
            0 <= a < b < s2.len() implies (#[trigger] s2[a]).id != (#[trigger] s2[b]).id by {
            assert(s2[a].id == s1[a].id && s1[a].id == m.tokens[a].id);
            assert(s2[b].id == s1[b].id && s1[b].id == m.tokens[b].id);
        }
        assert forall|a: int| 0 <= a < s2.len() implies (#[trigger] s2[a]).id < m.next_id by {
            assert(s2[a].id == s1[a].id && s1[a].id == m.tokens[a].id);
        }
    }
    lemma_flatten_text(s2, m.next_id, s2.len() as int);
    lemma_season_pointwise(fl.0);
    lemma_pointwise_same_text(fl.0, fin);
}

} // verus!

