//! The parser driver: a fixed sequence of total passes over the stream —
//! checksum and resolution detection, normal-priority keyword
//! identification, flattening of split atoms, and season resolution.

use vstd::prelude::*;
use crate::keyword::{KeywordCategory, KeywordKind, KeywordPriority, KeywordView};
use crate::metadata::MetadataKind;
use crate::token::{
    Token, TokenCategory, TokenCategoryView, TokenKind, TokenView, cat_model, tok_model,
    lemma_toks_model, toks_model,
};
use crate::token_helper::{spec_is_crc32, spec_is_video_resolution, spec_is_zero_padded};
use crate::token_manager::{
    TokenManager, TokenManagerView, filtered, first_id_index, flatten_at_spec, identify_spec,
    lemma_filtered_noskip, lemma_first_id_at, lemma_first_id_index, mark_enclosed_children,
    stream_wf, update_first_id,
};
use crate::tokenizer::stream_model;

verus! {

/// Category after the checksum-and-resolution pass: a resolution-shaped
/// literal becomes a known video resolution; otherwise a not-yet-known atom
/// whose literal is eight characters of hexadecimal becomes a known file
/// checksum; anything else keeps its category.
pub open spec fn checksum_resolution_cat(t: TokenView) -> TokenCategoryView {
    if spec_is_video_resolution(t.value) {
        TokenCategoryView::Known(MetadataKind::VideoResolution)
    } else if !(t.category is Known) && spec_is_crc32(t.value) {
        TokenCategoryView::Known(MetadataKind::FileChecksum)
    } else {
        t.category
    }
}

/// The checksum-and-resolution pass, atom by atom.
pub open spec fn checksum_resolution_pass(s: Seq<TokenView>) -> Seq<TokenView> {
    Seq::new(s.len(), |i: int| TokenView { category: checksum_resolution_cat(s[i]), ..s[i] })
}

/// One step of the keyword pass: what the identifier answers for the atom as
/// it stood before the pass, applied to the stream as it stands now.
pub open spec fn keywords_step(
    dict: Seq<(Seq<char>, KeywordView)>,
    state: Seq<TokenView>,
    tok: TokenView,
    prio: KeywordPriority,
) -> Seq<TokenView> {
    match identify_spec(dict, state, tok) {
        None => state,
        Some(ret) => if ret.len() == 1 {
            match ret[0].category {
                TokenCategoryView::Keyword(kw) => if kw.priority == prio {
                    update_first_id(state, tok.id, TokenCategoryView::Keyword(kw))
                } else {
                    state
                },
                _ => state,
            }
        } else {
            update_first_id(state, tok.id, TokenCategoryView::TokenParts(ret))
        },
    }
}

/// The keyword pass over the first `k` atoms of the pre-pass stream.
pub open spec fn keywords_pass_upto(
    dict: Seq<(Seq<char>, KeywordView)>,
    orig: Seq<TokenView>,
    k: int,
    prio: KeywordPriority,
) -> Seq<TokenView>
    decreases k,
{
    if k <= 0 {
        orig
    } else {
        keywords_step(dict, keywords_pass_upto(dict, orig, k - 1, prio), orig[k - 1], prio)
    }
}

/// The whole keyword pass.
pub open spec fn keywords_pass(
    dict: Seq<(Seq<char>, KeywordView)>,
    orig: Seq<TokenView>,
    prio: KeywordPriority,
) -> Seq<TokenView> {
    keywords_pass_upto(dict, orig, orig.len() as int, prio)
}

/// One step of the flattening pass: an atom that was split into parts is
/// replaced, at its current position, by its children.
pub open spec fn flatten_step(state: (Seq<TokenView>, u64), tok: TokenView) -> (
    Seq<TokenView>,
    u64,
) {
    match tok.category {
        TokenCategoryView::TokenParts(cs) => match first_id_index(state.0, tok.id) {
            Some(idx) => if state.1 + cs.len() <= u64::MAX {
                (
                    flatten_at_spec(
                        state.0,
                        idx,
                        mark_enclosed_children(cs, state.0[idx].enclosed),
                        state.1,
                    ),
                    (state.1 + cs.len()) as u64,
                )
            } else {
                state
            },
            None => state,
        },
        _ => state,
    }
}

/// The flattening pass over the first `k` atoms of the pre-pass stream.
pub open spec fn flatten_pass_upto(orig: Seq<TokenView>, init: (Seq<TokenView>, u64), k: int) -> (
    Seq<TokenView>,
    u64,
)
    decreases k,
{
    if k <= 0 {
        init
    } else {
        flatten_step(flatten_pass_upto(orig, init, k - 1), orig[k - 1])
    }
}

/// The whole flattening pass.
pub open spec fn flatten_pass(orig: Seq<TokenView>, nid: u64) -> (Seq<TokenView>, u64) {
    flatten_pass_upto(orig, (orig, nid), orig.len() as int)
}

/// The stream already carries a known season.
pub open spec fn has_season(s: Seq<TokenView>) -> bool {
    exists|j: int|
        0 <= j < s.len() && (#[trigger] s[j]).category == TokenCategoryView::Known(
            MetadataKind::Season,
        )
}

/// A keyword atom of the season-prefix category.
pub open spec fn is_season_prefix_token(t: TokenView) -> bool {
    t.category matches TokenCategoryView::Keyword(kw) && kw.category
        == KeywordCategory::SeasonPrefix
}

/// Index of the first season-prefix keyword atom.
pub open spec fn first_season_prefix_index(s: Seq<TokenView>) -> Option<int>
    decreases s.len(),
{
    if s.len() == 0 {
        None
    } else if is_season_prefix_token(s[0]) {
        Some(0)
    } else {
        match first_season_prefix_index(s.drop_first()) {
            Some(k) => Some(k + 1),
            None => None,
        }
    }
}

pub proof fn lemma_first_season_prefix_index(s: Seq<TokenView>)
    ensures
        match first_season_prefix_index(s) {
            Some(i) => 0 <= i < s.len() && is_season_prefix_token(s[i]) && forall|j: int|
                0 <= j < i ==> !is_season_prefix_token(#[trigger] s[j]),
            None => forall|j: int| 0 <= j < s.len() ==> !is_season_prefix_token(#[trigger] s[j]),
        },
    decreases s.len(),
{
    if s.len() > 0 && !is_season_prefix_token(s[0]) {
        lemma_first_season_prefix_index(s.drop_first());
        assert(forall|j: int| 0 <= j < s.len() - 1 ==> #[trigger] s.drop_first()[j] == s[j + 1]);
        match first_season_prefix_index(s.drop_first()) {
            Some(k) => {
                assert forall|j: int| 0 <= j < k + 1 implies !is_season_prefix_token(
                    #[trigger] s[j],
                ) by {
                    if j > 0 {
                        assert(!is_season_prefix_token(s.drop_first()[j - 1]));
                    }
                }
            },
            None => {
                assert forall|j: int| 0 <= j < s.len() implies !is_season_prefix_token(
                    #[trigger] s[j],
                ) by {
                    if j > 0 {
                        assert(!is_season_prefix_token(s.drop_first()[j - 1]));
                    }
                }
            },
        }
    }
}

/// Three consecutive filtered atoms after `idx` shaped `unknown separator
/// unknown`.
pub open spec fn range_positions_ok(f: Seq<TokenView>, idx: int) -> bool {
    &&& idx + 4 <= f.len()
    &&& f[idx + 1].category is Unknown
    &&& f[idx + 2].category is Separator
    &&& f[idx + 3].category is Unknown
}

/// The two number-shaped atoms of a detected range, in order; `None` unless
/// exactly two of the three atoms have shape `number`.
pub open spec fn range_pair(f: Seq<TokenView>, idx: int) -> Option<(TokenView, TokenView)> {
    if !range_positions_ok(f, idx) {
        None
    } else {
        let a = f[idx + 1];
        let b = f[idx + 2];
        let c = f[idx + 3];
        if a.kind is Number && b.kind is Number && !(c.kind is Number) {
            Some((a, b))
        } else if a.kind is Number && !(b.kind is Number) && c.kind is Number {
            Some((a, c))
        } else if !(a.kind is Number) && b.kind is Number && c.kind is Number {
            Some((b, c))
        } else {
            None
        }
    }
}

/// The atom just before the one carrying `id`, delimiters kept, is a
/// delimiter.
pub open spec fn delimiter_before_spec(s: Seq<TokenView>, id: u64) -> bool {
    match first_id_index(s, id) {
        Some(p) => p >= 1 && s[p - 1].category is Delimiter,
        None => false,
    }
}

/// The season-range disambiguation table over (zero-padded-left,
/// zero-padded-right) and whether a delimiter stands right before the right
/// number: `true` means the right number is an episode number, `false` a
/// second season.
pub open spec fn spec_right_is_episode(
    zl: bool,
    zr: bool,
    delimiter_before_right: bool,
    right_value: Option<u32>,
) -> bool {
    if !zl && zr {
        true
    } else if zl && zr {
        delimiter_before_right
    } else {
        right_value matches Some(v) && v > 10
    }
}

/// Decides whether the right number of a season range is an episode number:
/// an unpadded-to-padded range always is; a padded-to-padded range is one
/// exactly when a delimiter stands before the right number; otherwise only a
/// right value above ten is.
pub fn season_range_right_is_episode(
    zl: bool,
    zr: bool,
    delimiter_before_right: bool,
    right_value: Option<u32>,
) -> (r: bool)
    ensures
        r == spec_right_is_episode(zl, zr, delimiter_before_right, right_value),
{
    if !zl && zr {
        true
    } else if zl && zr {
        delimiter_before_right
    } else {
        match right_value {
            Some(v) => v > 10,
            None => false,
        }
    }
}

/// The two updates a resolved range performs: the left number becomes a
/// known season, the right a known episode number or a second season.
pub open spec fn upd2(state: Seq<TokenView>, aid: u64, bid: u64, right_episode: bool) -> Seq<
    TokenView,
> {
    let s1 = update_first_id(state, aid, TokenCategoryView::Known(MetadataKind::Season));
    update_first_id(
        s1,
        bid,
        if right_episode {
            TokenCategoryView::Known(MetadataKind::EpisodeNumber)
        } else {
            TokenCategoryView::Known(MetadataKind::Season)
        },
    )
}

/// The season pass: with no season known yet, the first season-prefix
/// keyword of separated or combined-or-separated kind either resolves a
/// following number range by the disambiguation table (a plural prefix
/// forces season-to-season), or claims the single following number as the
/// season.
pub open spec fn season_pass(state: Seq<TokenView>) -> Seq<TokenView> {
    if has_season(state) {
        state
    } else {
        match first_season_prefix_index(state) {
            None => state,
            Some(j) => {
                let kw = state[j].category->Keyword_0;
                match kw.kind {
                    KeywordKind::Standalone => state,
                    KeywordKind::Combined { .. } => state,
                    KeywordKind::OrdinalSuffix => state,
                    _ => {
                        let f = filtered(state, true);
                        match first_id_index(f, state[j].id) {
                            None => state,
                            Some(idx) => match range_pair(f, idx) {
                                Some(pr) => {
                                    if kw.value.len() >= 1 && kw.value.last() == 'S' {
                                        upd2(state, pr.0.id, pr.1.id, false)
                                    } else {
                                        upd2(
                                            state,
                                            pr.0.id,
                                            pr.1.id,
                                            spec_right_is_episode(
                                                spec_is_zero_padded(pr.0.value),
                                                spec_is_zero_padded(pr.1.value),
                                                delimiter_before_spec(state, pr.1.id),
                                                crate::token_helper::spec_parse_u32(pr.1.value),
                                            ),
                                        )
                                    }
                                },
                                None => {
                                    if idx + 1 < f.len() && (f[idx + 1].kind is Number || f[idx
                                        + 1].kind is NumberLike) {
                                        update_first_id(
                                            state,
                                            f[idx + 1].id,
                                            TokenCategoryView::Known(MetadataKind::Season),
                                        )
                                    } else {
                                        state
                                    }
                                },
                            },
                        }
                    },
                }
            },
        }
    }
}

/// The parser: owns the stream and drives the passes over it.
#[derive(Debug)]
pub struct Parser {
    pub token_manager: TokenManager,
}

impl View for Parser {
    type V = TokenManagerView;

    open spec fn view(&self) -> TokenManagerView {
        self.token_manager@
    }
}

impl Parser {
    /// Builds a parser over a freshly pre-processed stream.
    pub fn new(tokens: Vec<Token>) -> (r: Parser)
        ensures
            r@.tokens == crate::token_manager::pre_process_spec(stream_model(tokens@)),
            r@.next_id == tokens@.len(),
            r@.dict == crate::keyword_manager::seed_spec(),
            stream_wf(r@),
    {
        Parser { token_manager: TokenManager::new(tokens) }
    }

    /// Labels every resolution-shaped literal a known video resolution and
    /// every not-yet-known eight-character hexadecimal literal a known file
    /// checksum.
    fn parse_file_checksum_and_video_resolution(&mut self)
        requires
            stream_wf(old(self)@),
        ensures
            final(self)@.tokens == checksum_resolution_pass(old(self)@.tokens),
            final(self)@.dict == old(self)@.dict,
            final(self)@.next_id == old(self)@.next_id,
            stream_wf(final(self)@),
    {
        let ghost orig = self@.tokens;
        let ghost applied = checksum_resolution_pass(orig);
        let tokens = self.token_manager.get_tokens();
        let n = tokens.len();
        let mut i: usize = 0;
        while i < n
            invariant
                0 <= i <= n,
                n == tokens@.len(),
                n == orig.len(),
                orig == stream_model(tokens@),
                applied == checksum_resolution_pass(orig),
                stream_wf(self@),
                self@.dict == old(self)@.dict,
                self@.next_id == old(self)@.next_id,
                self@.tokens.len() == n,
                forall|j: int| 0 <= j < i ==> self@.tokens[j] == applied[j],
                forall|j: int| i <= j < n ==> self@.tokens[j] == orig[j],
            decreases n - i,
        {
            let t = &tokens[i];
            proof {
                assert(tok_model(tokens@[i as int]) == orig[i as int]);
                assert(self@.tokens[i as int] == orig[i as int]);
                lemma_first_id_at(self@.tokens, i as int);
            }
            let ghost before = self@.tokens;
            if !t.category.is_known() && crate::token_helper::is_crc32(t.value.as_str()) {
                self.token_manager.update_token_category(
                    t.id,
                    TokenCategory::Known(MetadataKind::FileChecksum),
                );
                proof {
                    assert(self@.tokens == before.update(
                        i as int,
                        TokenView {
                            category: TokenCategoryView::Known(MetadataKind::FileChecksum),
                            ..before[i as int]
                        },
                    ));
                }
            }
            if crate::token_helper::is_video_resolution(t.value.as_str()) {
                proof {
                    assert forall|a: int, b: int|
                        0 <= a < b < self@.tokens.len() implies (#[trigger] self@.tokens[a]).id
                        != (#[trigger] self@.tokens[b]).id by {}
                    lemma_first_id_at(self@.tokens, i as int);
                }
                let ghost mid = self@.tokens;
                self.token_manager.update_token_category(
                    t.id,
                    TokenCategory::Known(MetadataKind::VideoResolution),
                );
                proof {
                    assert(self@.tokens == mid.update(
                        i as int,
                        TokenView {
                            category: TokenCategoryView::Known(MetadataKind::VideoResolution),
                            ..mid[i as int]
                        },
                    ));
                }
            }
            proof {
                assert(self@.tokens[i as int] == applied[i as int]) by {
                    assert(applied[i as int] == TokenView {
                        category: checksum_resolution_cat(orig[i as int]),
                        ..orig[i as int]
                    });
                }
                assert forall|j: int| 0 <= j < n && j != i implies self@.tokens[j] == before[j]
                    by {}
            }
            i = i + 1;
        }
        proof {
            assert(self@.tokens =~= applied);
        }
    }

    /// Runs the identifier over every atom in pre-pass order: a single
    /// normal-priority keyword answer overwrites the atom's category, a
    /// multi-atom answer is installed as its parts.
    fn parse_keywords(&mut self, keyword_priority: KeywordPriority)
        ensures
            final(self)@.tokens == keywords_pass(
                old(self)@.dict,
                old(self)@.tokens,
                keyword_priority,
            ),
            final(self)@.dict == old(self)@.dict,
            final(self)@.next_id == old(self)@.next_id,
            stream_wf(old(self)@) ==> stream_wf(final(self)@),
    {
        let ghost orig = self@.tokens;
        let ghost dict = self@.dict;
        let tokens = self.token_manager.get_tokens();
        let n = tokens.len();
        let mut i: usize = 0;
        while i < n
            invariant
                0 <= i <= n,
                n == tokens@.len(),
                n == orig.len(),
                orig == stream_model(tokens@),
                dict == old(self)@.dict,
                self@.dict == dict,
                self@.next_id == old(self)@.next_id,
                self@.tokens == keywords_pass_upto(dict, orig, i as int, keyword_priority),
                stream_wf(old(self)@) ==> stream_wf(self@),
            decreases n - i,
        {
            let token = &tokens[i];
            proof {
                assert(tok_model(tokens@[i as int]) == orig[i as int]);
            }
            let ghost state = self@.tokens;
            if !token.category.is_known() {
                match self.token_manager.identify_keyword(token) {
                    Some(ret_tokens) => {
                        proof {
                            assert(identify_spec(dict, state, orig[i as int]) == Some(
                                stream_model(ret_tokens@),
                            ));
                        }
                        if ret_tokens.len() == 1 {
                            let ret0 = &ret_tokens[0];
                            proof {
                                assert(stream_model(ret_tokens@)[0] == tok_model(ret_tokens@[0]));
                            }
                            match &ret0.category {
                                TokenCategory::Keyword(keyword) => {
                                    if keyword.priority == keyword_priority {
                                        self.token_manager.update_token_category(
                                            token.id,
                                            TokenCategory::Keyword(keyword.duplicate()),
                                        );
                                    }
                                },
                                _ => {},
                            }
                        } else {
                            let ghost retm = stream_model(ret_tokens@);
                            proof {
                                lemma_toks_model(ret_tokens@);
                                assert(toks_model(ret_tokens@) =~= retm);
                            }
                            self.token_manager.update_token_category(
                                token.id,
                                TokenCategory::TokenParts(ret_tokens),
                            );
                        }
                    },
                    None => {
                        proof {
                            assert(identify_spec(dict, state, orig[i as int]) is None);
                        }
                    },
                }
            } else {
                proof {
                    assert(orig[i as int].category is Known);
                    assert(identify_spec(dict, state, orig[i as int]) is None);
                }
            }
            proof {
                assert(self@.tokens == keywords_step(
                    dict,
                    state,
                    orig[i as int],
                    keyword_priority,
                ));
            }
            i = i + 1;
        }
    }

    /// Flattens every atom that the keyword pass split into parts, replacing
    /// it in place by its children.
    fn normalize_keywords(&mut self)
        requires
            stream_wf(old(self)@),
        ensures
            final(self)@.tokens == flatten_pass(old(self)@.tokens, old(self)@.next_id).0,
            final(self)@.next_id == flatten_pass(old(self)@.tokens, old(self)@.next_id).1,
            final(self)@.dict == old(self)@.dict,
            stream_wf(final(self)@),
    {
        let ghost orig = self@.tokens;
        let ghost nid0 = self@.next_id;
        let tokens = self.token_manager.get_tokens();
        let n = tokens.len();
        let mut i: usize = 0;
        while i < n
            invariant
                0 <= i <= n,
                n == tokens@.len(),
                n == orig.len(),
                orig == stream_model(tokens@),
                self@.dict == old(self)@.dict,
                (self@.tokens, self@.next_id) == flatten_pass_upto(orig, (orig, nid0), i as int),
                nid0 == old(self)@.next_id,
                stream_wf(self@),
            decreases n - i,
        {
            let token = &tokens[i];
            proof {
                assert(tok_model(tokens@[i as int]) == orig[i as int]);
            }
            let ghost state = (self@.tokens, self@.next_id);
            if token.category.is_token_parts() {
                match self.token_manager.get_index_of_token(token, false) {
                    Some(idx) => {
                        proof {
                            lemma_filtered_noskip(state.0);
                            lemma_first_id_index(state.0, token@.id);
                        }
                        match token.category.get_token_parts() {
                            Some(parts) => {
                                proof {
                                    lemma_toks_model(parts@);
                                    let cs = cat_model(
                                        tokens@[i as int].category,
                                    )->TokenParts_0;
                                    assert(stream_model(parts@) =~= cs);
                                }
                                self.token_manager.flatten_token_at(idx, parts);
                            },
                            None => {
                                proof {
                                    assert(false);
                                }
                            },
                        }
                    },
                    None => {
                        proof {
                            lemma_filtered_noskip(state.0);
                        }
                    },
                }
            }
            proof {
                assert((self@.tokens, self@.next_id) == flatten_step(state, orig[i as int]));
            }
            i = i + 1;
        }
    }

    /// A number range after the atom: three filtered atoms shaped
    /// `unknown separator unknown`, exactly two of them pure numbers.
    fn get_number_range_after(&self, token: &Token) -> (r: Option<Vec<Token>>)
        ensures
            ({
                let f = filtered(self@.tokens, true);
                match first_id_index(f, token@.id) {
                    Some(idx) => match r {
                        Some(v) => v@.len() == 2 && range_pair(f, idx) == Some(
                            (tok_model(v@[0]), tok_model(v@[1])),
                        ),
                        None => range_pair(f, idx) is None,
                    },
                    None => r is None,
                }
            }),
    {
        let ghost f = filtered(self@.tokens, true);
        let idx = match self.token_manager.get_index_of_token(token, true) {
            Some(i) => i,
            None => {
                return None;
            },
        };
        let mut pattern: Vec<TokenCategory> = Vec::new();
        pattern.push(TokenCategory::Unknown);
        pattern.push(TokenCategory::Separator);
        pattern.push(TokenCategory::Unknown);
        let ghost patm = pattern@;
        proof {
            assert(cat_model(patm[0]) == TokenCategoryView::Unknown);
            assert(cat_model(patm[1]) == TokenCategoryView::Separator);
            assert(cat_model(patm[2]) == TokenCategoryView::Unknown);
        }
        match self.token_manager.get_matching_tokens_after(idx, pattern, true) {
            Some(ts) => {
                proof {
                    assert(f[idx + 1].category == cat_model(patm[0]));
                    assert(f[idx + 2].category == cat_model(patm[1]));
                    assert(f[idx + 3].category == cat_model(patm[2]));
                    assert(range_positions_ok(f, idx as int));
                    assert(stream_model(ts@)[0] == tok_model(ts@[0]));
                    assert(stream_model(ts@)[1] == tok_model(ts@[1]));
                    assert(stream_model(ts@)[2] == tok_model(ts@[2]));
                }
                let k0 = ts[0].kind.is_number();
                let k1 = ts[1].kind.is_number();
                let k2 = ts[2].kind.is_number();
                let mut out: Vec<Token> = Vec::new();
                if k0 && k1 && !k2 {
                    out.push(ts[0].duplicate());
                    out.push(ts[1].duplicate());
                } else if k0 && !k1 && k2 {
                    out.push(ts[0].duplicate());
                    out.push(ts[2].duplicate());
                } else if !k0 && k1 && k2 {
                    out.push(ts[1].duplicate());
                    out.push(ts[2].duplicate());
                } else {
                    return None;
                }
                Some(out)
            },
            None => {
                proof {
                    if range_positions_ok(f, idx as int) {
                        let k = choose|k: int|
                            0 <= k < patm.len() && (#[trigger] f[idx + 1 + k]).category
                                != cat_model(patm[k]);
                        assert(f[idx + 1 + k].category == cat_model(patm[k]));
                    }
                }
                None
            },
        }
    }

    /// A decimal number written as three atoms right after this one,
    /// delimiters kept: `digits`, the delimiter `.`, `digits`.
    #[allow(dead_code)]
    fn get_number_with_decimal_after(&self, token: &Token) -> (r: Option<Vec<Token>>)
        ensures
            ({
                let s = self@.tokens;
                match first_id_index(s, token@.id) {
                    Some(idx) => match r {
                        Some(v) => {
                            &&& v@.len() == 3
                            &&& idx + 4 <= s.len()
                            &&& forall|k: int|
                                0 <= k < 3 ==> stream_model(v@)[k] == s[idx + 1 + k]
                            &&& s[idx + 1].category is Unknown
                            &&& s[idx + 2].category is Delimiter
                            &&& s[idx + 3].category is Unknown
                            &&& s[idx + 2].value == seq!['.']
                        },
                        None => !(idx + 4 <= s.len() && s[idx + 1].category is Unknown && s[idx
                            + 2].category is Delimiter && s[idx + 3].category is Unknown && s[idx
                            + 2].value == seq!['.']),
                    },
                    None => r is None,
                }
            }),
    {
        let ghost s = self@.tokens;
        proof {
            lemma_filtered_noskip(s);
        }
        let idx = match self.token_manager.get_index_of_token(token, false) {
            Some(i) => i,
            None => {
                return None;
            },
        };
        let mut pattern: Vec<TokenCategory> = Vec::new();
        pattern.push(TokenCategory::Unknown);
        pattern.push(TokenCategory::Delimiter);
        pattern.push(TokenCategory::Unknown);
        let ghost patm = pattern@;
        proof {
            assert(cat_model(patm[0]) == TokenCategoryView::Unknown);
            assert(cat_model(patm[1]) == TokenCategoryView::Delimiter);
            assert(cat_model(patm[2]) == TokenCategoryView::Unknown);
        }
        match self.token_manager.get_matching_tokens_after(idx, pattern, false) {
            Some(ts) => {
                proof {
                    assert forall|k: int|
                        0 <= k < 3 implies (filtered(s, false)[idx + 1 + k]).category
                        == cat_model(patm[k]) by {}
                    assert(filtered(s, false)[idx + 1 + 0] == s[idx + 1]);
                    assert(filtered(s, false)[idx + 1 + 1] == s[idx + 2]);
                    assert(filtered(s, false)[idx + 1 + 2] == s[idx + 3]);
                    assert(stream_model(ts@)[1] == tok_model(ts@[1]));
                }
                let mid = &ts[1];
                let is_dot = mid.value.as_str().unicode_len() == 1 && mid.value.as_str().get_char(
                    0,
                ) == '.';
                proof {
                    if is_dot {
                        assert(mid@.value =~= seq!['.']);
                    } else {
                        if mid@.value == seq!['.'] {
                            assert(mid@.value.len() == 1 && mid@.value[0] == '.');
                        }
                    }
                }
                if is_dot {
                    Some(ts)
                } else {
                    None
                }
            },
            None => {
                proof {
                    if idx + 4 <= s.len() && s[idx + 1].category is Unknown && s[idx
                        + 2].category is Delimiter && s[idx + 3].category is Unknown {
                        let k = choose|k: int|
                            0 <= k < patm.len() && (#[trigger] filtered(s, false)[idx + 1
                                + k]).category != cat_model(patm[k]);
                        assert(filtered(s, false)[idx + 1 + k].category == s[idx + 1
                            + k].category);
                    }
                }
                None
            },
        }
    }

    /// The next filtered atom after this one, when it has numeric shape.
    fn get_number_or_like_after(&self, token: &Token) -> (r: Option<Token>)
        ensures
            ({
                let f = filtered(self@.tokens, true);
                match first_id_index(f, token@.id) {
                    Some(idx) => match r {
                        Some(t) => idx + 1 < f.len() && (f[idx + 1].kind is Number || f[idx
                            + 1].kind is NumberLike) && t@ == f[idx + 1],
                        None => !(idx + 1 < f.len() && (f[idx + 1].kind is Number || f[idx
                            + 1].kind is NumberLike)),
                    },
                    None => r is None,
                }
            }),
    {
        match self.token_manager.get_index_of_token(token, true) {
            Some(idx) => match self.token_manager.get_token_after(idx, true) {
                Some(t) => {
                    if t.kind.is_number_or_like() {
                        Some(t)
                    } else {
                        None
                    }
                },
                None => None,
            },
            None => None,
        }
    }

    /// The atom right before this one, delimiters kept, when it is a
    /// delimiter.
    fn get_delimiter_before(&self, token: &Token) -> (r: Option<Token>)
        ensures
            r is Some <==> delimiter_before_spec(self@.tokens, token@.id),
    {
        let ghost s = self@.tokens;
        proof {
            lemma_filtered_noskip(s);
        }
        match self.token_manager.get_index_of_token(token, false) {
            Some(idx) => match self.token_manager.get_token_before(idx, false) {
                Some(t) => {
                    proof {
                        lemma_first_id_index(s, token@.id);
                    }
                    if t.category.is_delimiter() {
                        Some(t)
                    } else {
                        None
                    }
                },
                None => {
                    proof {
                        lemma_first_id_index(s, token@.id);
                    }
                    None
                },
            },
            None => None,
        }
    }

    /// Resolves the season: with no season known yet, the first
    /// season-prefix keyword of separated or combined-or-separated kind
    /// either classifies a following number range — season to season for a
    /// plural prefix, otherwise by the disambiguation table — or claims the
    /// single following number as the season.
    fn parse_season(&mut self)
        requires
            stream_wf(old(self)@),
        ensures
            final(self)@.tokens == season_pass(old(self)@.tokens),
            final(self)@.dict == old(self)@.dict,
            final(self)@.next_id == old(self)@.next_id,
            stream_wf(final(self)@),
    {
        let ghost state = self@.tokens;
        if self.token_manager.has_token_with_metadata_kind(MetadataKind::Season) {
            proof {
                assert(has_season(state));
            }
            return ;
        }
        proof {
            assert(!has_season(state));
        }
        let tokens = self.token_manager.get_tokens();
        let n = tokens.len();
        let mut j: usize = 0;
        while j < n
            invariant
                0 <= j <= n,
                n == tokens@.len(),
                n == state.len(),
                state == stream_model(tokens@),
                forall|k: int| 0 <= k < j ==> !is_season_prefix_token(#[trigger] state[k]),
            ensures
                0 <= j <= n,
                j < n ==> is_season_prefix_token(state[j as int]),
                forall|k: int| 0 <= k < j ==> !is_season_prefix_token(#[trigger] state[k]),
            decreases n - j,
        {
            let is_prefix = match &tokens[j].category {
                TokenCategory::Keyword(kw) => kw.category == KeywordCategory::SeasonPrefix,
                _ => false,
            };
            proof {
                assert(tok_model(tokens@[j as int]) == state[j as int]);
            }
            if is_prefix {
                break ;
            }
            j = j + 1;
        }
        if j == n {
            proof {
                lemma_first_season_prefix_index(state);
                match first_season_prefix_index(state) {
                    Some(k) => {
                        assert(!is_season_prefix_token(state[k]));
                    },
                    None => {},
                }
            }
            return ;
        }
        proof {
            assert(is_season_prefix_token(state[j as int]));
            lemma_first_season_prefix_index(state);
            match first_season_prefix_index(state) {
                Some(k) => {
                    if k < j as int {
                        assert(!is_season_prefix_token(state[k]));
                    } else if k > j as int {
                        assert(!is_season_prefix_token(state[j as int]));
                    }
                },
                None => {
                    assert(!is_season_prefix_token(state[j as int]));
                },
            }
            assert(first_season_prefix_index(state) == Some(j as int));
        }
        let token = &tokens[j];
        let keyword = match token.category.get_keyword() {
            Some(kw) => kw,
            None => {
                proof {
                    assert(false);
                }
                return ;
            },
        };
        let ghost kwv = state[j as int].category->Keyword_0;
        proof {
            assert(keyword@ == kwv);
        }
        match keyword.kind {
            KeywordKind::Standalone => {
                return ;
            },
            KeywordKind::Combined { .. } => {
                return ;
            },
            KeywordKind::OrdinalSuffix => {
                return ;
            },
            _ => {},
        }
        match self.get_number_range_after(token) {
            Some(pair) => {
                let a = &pair[0];
                let b = &pair[1];
                let vl = keyword.value.as_str().unicode_len();
                let plural = vl >= 1 && keyword.value.as_str().get_char(vl - 1) == 'S';
                proof {
                    assert(plural == (kwv.value.len() >= 1 && kwv.value.last() == 'S'));
                }
                if plural {
                    self.token_manager.update_token_category(
                        a.id,
                        TokenCategory::Known(MetadataKind::Season),
                    );
                    self.token_manager.update_token_category(
                        b.id,
                        TokenCategory::Known(MetadataKind::Season),
                    );
                    proof {
                        assert(self@.tokens == upd2(state, a@.id, b@.id, false));
                    }
                } else {
                    let zl = crate::token_helper::number_is_zero_padded(a.value.as_str());
                    let zr = crate::token_helper::number_is_zero_padded(b.value.as_str());
                    let delim = match self.get_delimiter_before(b) {
                        Some(_) => true,
                        None => false,
                    };
                    let rv = crate::token_helper::parse_decimal_u32(b.value.as_str());
                    let episode = season_range_right_is_episode(zl, zr, delim, rv);
                    self.token_manager.update_token_category(
                        a.id,
                        TokenCategory::Known(MetadataKind::Season),
                    );
                    if episode {
                        self.token_manager.update_token_category(
                            b.id,
                            TokenCategory::Known(MetadataKind::EpisodeNumber),
                        );
                    } else {
                        self.token_manager.update_token_category(
                            b.id,
                            TokenCategory::Known(MetadataKind::Season),
                        );
                    }
                    proof {
                        assert(self@.tokens == upd2(state, a@.id, b@.id, episode));
                    }
                }
            },
            None => {
                match self.get_number_or_like_after(token) {
                    Some(num) => {
                        self.token_manager.update_token_category(
                            num.id,
                            TokenCategory::Known(MetadataKind::Season),
                        );
                    },
                    None => {},
                }
            },
        }
    }

    /// Runs the fixed pass sequence: checksum and resolution detection,
    /// normal-priority keyword identification, flattening of split atoms,
    /// season resolution.
    pub fn parse(&mut self)
        requires
            stream_wf(old(self)@),
        ensures
            ({
                let s1 = checksum_resolution_pass(old(self)@.tokens);
                let s2 = keywords_pass(old(self)@.dict, s1, KeywordPriority::Normal);
                let fl = flatten_pass(s2, old(self)@.next_id);
                final(self)@.tokens == season_pass(fl.0) && final(self)@.next_id == fl.1
            }),
            final(self)@.dict == old(self)@.dict,
            stream_wf(final(self)@),
            // Atoms alive before and after keep their literal and enclosure
            // flag and never return to unknown.
            crate::laws::survivors_kept(old(self)@.tokens, final(self)@.tokens),
            // On a stream without pending splits — every freshly lexed
            // stream — the concatenation of the literals is reproduced
            // exactly.
            crate::laws::no_parts(old(self)@.tokens) ==> crate::tokenizer::values_concat(
                final(self)@.tokens,
            ) == crate::tokenizer::values_concat(old(self)@.tokens),
    {
        proof {
            crate::laws::lemma_parse_survivors(old(self)@);
            if crate::laws::no_parts(old(self)@.tokens) {
                crate::laws::lemma_parse_preserves_text(old(self)@);
            }
        }
        self.parse_file_checksum_and_video_resolution();
        self.parse_keywords(KeywordPriority::Normal);
        self.normalize_keywords();
        self.parse_season();
    }
}

} // verus!
