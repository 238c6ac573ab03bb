//! Atoms of the token stream: each atom carries the literal substring it
//! spans, a category, a shape, an enclosure flag and a stable identity.

use vstd::prelude::*;
use crate::keyword::{Keyword, KeywordView, KeywordCategory};
use crate::metadata::MetadataKind;

verus! {

/// Which side of a bracket pair a bracket atom is.
#[derive(Debug, Eq, PartialEq, Clone, Copy, Hash, Structural)]
pub enum BracketType {
    Opening,
    Closing,
}

/// Shape of an atom's literal, computed once from the literal alone.
#[derive(Debug, Eq, PartialEq, Clone, Copy, Hash, Structural)]
pub enum TokenKind {
    Unknown,
    SingleCharacter,
    String,
    Number,
    NumberLike,
    Year,
}

/// Category of an atom. `TokenParts` is the transient state of an atom that
/// has been split into several children and awaits flattening.
#[derive(Debug, Eq, PartialEq)]
pub enum TokenCategory {
    Bracket(BracketType),
    Delimiter,
    Separator,
    Keyword(Keyword),
    Unknown,
    Known(MetadataKind),
    TokenParts(Vec<Token>),
}

/// One atom of the stream.
#[derive(Debug, Eq, PartialEq)]
pub struct Token {
    pub id: u64,
    pub value: String,
    pub enclosed: bool,
    pub category: TokenCategory,
    pub kind: TokenKind,
}

/// Mathematical model of a category; literals are sequences of characters.
pub enum TokenCategoryView {
    Bracket(BracketType),
    Delimiter,
    Separator,
    Keyword(KeywordView),
    Unknown,
    Known(MetadataKind),
    TokenParts(Seq<TokenView>),
}

/// Mathematical model of an atom.
pub struct TokenView {
    pub id: u64,
    pub value: Seq<char>,
    pub enclosed: bool,
    pub category: TokenCategoryView,
    pub kind: TokenKind,
}

pub open spec fn cat_model(c: TokenCategory) -> TokenCategoryView
    decreases c,
{
    match c {
        TokenCategory::Bracket(b) => TokenCategoryView::Bracket(b),
        TokenCategory::Delimiter => TokenCategoryView::Delimiter,
        TokenCategory::Separator => TokenCategoryView::Separator,
        TokenCategory::Keyword(k) => TokenCategoryView::Keyword(k@),
        TokenCategory::Unknown => TokenCategoryView::Unknown,
        TokenCategory::Known(m) => TokenCategoryView::Known(m),
        TokenCategory::TokenParts(ts) => TokenCategoryView::TokenParts(toks_model(ts@)),
    }
}

pub open spec fn toks_model(s: Seq<Token>) -> Seq<TokenView>
    decreases s,
{
    if s.len() == 0 {
        Seq::empty()
    } else {
        seq![tok_model(s[0])] + toks_model(s.drop_first())
    }
}

pub open spec fn tok_model(t: Token) -> TokenView
    decreases t,
{
    TokenView {
        id: t.id,
        value: t.value@,
        enclosed: t.enclosed,
        category: cat_model(t.category),
        kind: t.kind,
    }
}

impl View for Token {
    type V = TokenView;

    open spec fn view(&self) -> TokenView {
        tok_model(*self)
    }
}

/// Index and length of the recursive model of a token sequence.
pub proof fn lemma_toks_model(s: Seq<Token>)
    ensures
        toks_model(s).len() == s.len(),
        forall|i: int| 0 <= i < s.len() ==> toks_model(s)[i] == tok_model(#[trigger] s[i]),
    decreases s.len(),
{
    if s.len() > 0 {
        lemma_toks_model(s.drop_first());
        assert(forall|i: int|
            0 <= i < s.len() - 1 ==> #[trigger] s.drop_first()[i] == s[i + 1]);
        assert forall|i: int| 0 <= i < s.len() implies toks_model(s)[i] == tok_model(
            #[trigger] s[i],
        ) by {
            if i > 0 {
                assert(toks_model(s)[i] == toks_model(s.drop_first())[i - 1]);
                assert(toks_model(s.drop_first())[i - 1] == tok_model(s.drop_first()[i - 1]));
                assert(s.drop_first()[i - 1] == s[i]);
            }
        }
    }
}

/// Structural equality of two categories' models.
pub fn cat_eq(a: &TokenCategory, b: &TokenCategory) -> (r: bool)
    ensures
        r == (cat_model(*a) == cat_model(*b)),
    decreases *a,
{
    match (a, b) {
        (TokenCategory::Bracket(x), TokenCategory::Bracket(y)) => *x == *y,
        (TokenCategory::Delimiter, TokenCategory::Delimiter) => true,
        (TokenCategory::Separator, TokenCategory::Separator) => true,
        (TokenCategory::Keyword(k1), TokenCategory::Keyword(k2)) => {
            let r = k1.value == k2.value && k1.category == k2.category && k1.kind == k2.kind
                && k1.priority == k2.priority;
            proof {
                if !r {
                    assert(k1@ != k2@);
                }
            }
            r
        },
        (TokenCategory::Unknown, TokenCategory::Unknown) => true,
        (TokenCategory::Known(m1), TokenCategory::Known(m2)) => *m1 == *m2,
        (TokenCategory::TokenParts(v1), TokenCategory::TokenParts(v2)) => tokens_eq(v1, v2),
        _ => false,
    }
}

/// Structural equality of two token vectors' models.
pub fn tokens_eq(a: &Vec<Token>, b: &Vec<Token>) -> (r: bool)
    ensures
        r == (toks_model(a@) == toks_model(b@)),
    decreases *a,
{
    proof {
        lemma_toks_model(a@);
        lemma_toks_model(b@);
    }
    if a.len() != b.len() {
        return false;
    }
    let n = a.len();
    let mut i: usize = 0;
    while i < n
        invariant
            0 <= i <= n,
            n == a@.len(),
            n == b@.len(),
            toks_model(a@).len() == n,
            toks_model(b@).len() == n,
            forall|j: int| 0 <= j < a@.len() ==> toks_model(a@)[j] == tok_model(#[trigger] a@[j]),
            forall|j: int| 0 <= j < b@.len() ==> toks_model(b@)[j] == tok_model(#[trigger] b@[j]),
            forall|j: int| 0 <= j < i ==> toks_model(a@)[j] == toks_model(b@)[j],
        decreases n - i,
    {
        if !token_eq(&a[i], &b[i]) {
            proof {
                assert(toks_model(a@)[i as int] != toks_model(b@)[i as int]);
            }
            return false;
        }
        i = i + 1;
    }
    proof {
        assert(toks_model(a@) =~= toks_model(b@));
    }
    true
}

/// Structural equality of two atoms' models, identity included.
pub fn token_eq(a: &Token, b: &Token) -> (r: bool)
    ensures
        r == (tok_model(*a) == tok_model(*b)),
    decreases *a,
{
    let r = a.id == b.id && a.value == b.value && a.enclosed == b.enclosed && a.kind == b.kind
        && cat_eq(&a.category, &b.category);
    proof {
        if !r {
            assert(tok_model(*a) != tok_model(*b));
        }
    }
    r
}

/// A copy of a token vector with the same model.
pub fn tokens_duplicate(v: &Vec<Token>) -> (r: Vec<Token>)
    ensures
        r@.len() == v@.len(),
        forall|i: int| 0 <= i < v@.len() ==> tok_model(#[trigger] r@[i]) == tok_model(v@[i]),
        toks_model(r@) == toks_model(v@),
    decreases *v,
{
    let n = v.len();
    let mut out: Vec<Token> = Vec::new();
    let mut i: usize = 0;
    while i < n
        invariant
            0 <= i <= n,
            n == v@.len(),
            out@.len() == i,
            forall|j: int| 0 <= j < i ==> tok_model(#[trigger] out@[j]) == tok_model(v@[j]),
        decreases n - i,
    {
        let t = &v[i];
        out.push(t.duplicate());
        i = i + 1;
    }
    proof {
        lemma_toks_model(out@);
        lemma_toks_model(v@);
        assert forall|j: int| 0 <= j < v@.len() implies toks_model(out@)[j] == toks_model(
            v@,
        )[j] by {
            assert(toks_model(out@)[j] == tok_model(out@[j]));
            assert(toks_model(v@)[j] == tok_model(v@[j]));
            assert(tok_model(out@[j]) == tok_model(v@[j]));
        }
        assert(toks_model(out@) =~= toks_model(v@));
    }
    out
}

impl Token {
    /// A fresh atom; stream identities are assigned by the stream owner.
    pub fn new(value: &str, category: TokenCategory) -> (r: Token)
        ensures
            r@ == (TokenView {
                id: 0,
                value: value@,
                enclosed: false,
                category: cat_model(category),
                kind: TokenKind::Unknown,
            }),
    {
        Token {
            id: 0,
            value: value.to_owned(),
            enclosed: false,
            category,
            kind: TokenKind::Unknown,
        }
    }

    /// A fresh atom with its shape already chosen.
    pub fn new_with_kind(value: &str, category: TokenCategory, kind: TokenKind) -> (r: Token)
        ensures
            r@ == (TokenView {
                id: 0,
                value: value@,
                enclosed: false,
                category: cat_model(category),
                kind,
            }),
    {
        Token { id: 0, value: value.to_owned(), enclosed: false, category, kind }
    }

    /// A copy with the same model.
    pub fn duplicate(&self) -> (r: Token)
        ensures
            r@ == self@,
        decreases *self,
    {
        let category: TokenCategory = match &self.category {
            TokenCategory::Bracket(b) => TokenCategory::Bracket(*b),
            TokenCategory::Delimiter => TokenCategory::Delimiter,
            TokenCategory::Separator => TokenCategory::Separator,
            TokenCategory::Keyword(k) => TokenCategory::Keyword(k.duplicate()),
            TokenCategory::Unknown => TokenCategory::Unknown,
            TokenCategory::Known(m) => TokenCategory::Known(*m),
            TokenCategory::TokenParts(v) => TokenCategory::TokenParts(tokens_duplicate(v)),
        };
        Token {
            id: self.id,
            value: self.value.clone(),
            enclosed: self.enclosed,
            category,
            kind: self.kind,
        }
    }

    pub fn is_enclosed(&self) -> (r: bool)
        ensures
            r == self@.enclosed,
    {
        self.enclosed
    }

    pub fn has_category(&self, category: &TokenCategory) -> (r: bool)
        ensures
            r == (self@.category == cat_model(*category)),
    {
        cat_eq(&self.category, category)
    }

    pub fn has_metadata_kind(&self, kind: MetadataKind) -> (r: bool)
        ensures
            r == (self@.category matches TokenCategoryView::Known(k) && k == kind),
    {
        match &self.category {
            TokenCategory::Known(k) => *k == kind,
            _ => false,
        }
    }

    pub fn is_known(&self) -> (r: bool)
        ensures
            r == (self@.category is Known),
    {
        self.category.is_known()
    }
}

impl TokenCategory {
    pub fn get_metadata_kind(&self) -> (r: Option<MetadataKind>)
        ensures
            r == (match cat_model(*self) {
                TokenCategoryView::Known(kind) => Some(kind),
                _ => None::<MetadataKind>,
            }),
    {
        match self {
            TokenCategory::Known(kind) => Some(*kind),
            _ => None,
        }
    }

    pub fn is_bracket(&self) -> (r: bool)
        ensures
            r == (cat_model(*self) is Bracket),
    {
        match self {
            TokenCategory::Bracket(_) => true,
            _ => false,
        }
    }

    pub fn is_delimiter(&self) -> (r: bool)
        ensures
            r == (cat_model(*self) is Delimiter),
    {
        match self {
            TokenCategory::Delimiter => true,
            _ => false,
        }
    }

    pub fn is_separator(&self) -> (r: bool)
        ensures
            r == (cat_model(*self) is Separator),
    {
        match self {
            TokenCategory::Separator => true,
            _ => false,
        }
    }

    pub fn is_any_keyword(&self) -> (r: bool)
        ensures
            r == (cat_model(*self) is Keyword),
    {
        match self {
            TokenCategory::Keyword(_) => true,
            _ => false,
        }
    }

    pub fn is_keyword(&self, keyword_category: KeywordCategory) -> (r: bool)
        ensures
            r == (cat_model(*self) matches TokenCategoryView::Keyword(k) && k.category
                == keyword_category),
    {
        match self {
            TokenCategory::Keyword(keyword) => keyword.category == keyword_category,
            _ => false,
        }
    }

    pub fn get_keyword(&self) -> (r: Option<Keyword>)
        ensures
            match r {
                Some(k) => cat_model(*self) matches TokenCategoryView::Keyword(kv) && kv == k@,
                None => !(cat_model(*self) is Keyword),
            },
    {
        match self {
            TokenCategory::Keyword(keyword) => Some(keyword.duplicate()),
            _ => None,
        }
    }

    pub fn is_token_parts(&self) -> (r: bool)
        ensures
            r == (cat_model(*self) is TokenParts),
    {
        match self {
            TokenCategory::TokenParts(_) => true,
            _ => false,
        }
    }

    pub fn get_token_parts(&self) -> (r: Option<Vec<Token>>)
        ensures
            match r {
                Some(ts) => cat_model(*self) matches TokenCategoryView::TokenParts(m) && m
                    == toks_model(ts@),
                None => !(cat_model(*self) is TokenParts),
            },
    {
        match self {
            TokenCategory::TokenParts(tokens) => Some(tokens_duplicate(tokens)),
            _ => None,
        }
    }

    pub fn is_unknown(&self) -> (r: bool)
        ensures
            r == (cat_model(*self) is Unknown),
    {
        match self {
            TokenCategory::Unknown => true,
            _ => false,
        }
    }

    pub fn is_known(&self) -> (r: bool)
        ensures
            r == (cat_model(*self) is Known),
    {
        match self {
            TokenCategory::Known(_) => true,
            _ => false,
        }
    }

    pub fn is_opening_bracket(&self) -> (r: bool)
        ensures
            r == (cat_model(*self) == TokenCategoryView::Bracket(BracketType::Opening)),
    {
        match self {
            TokenCategory::Bracket(b_type) => *b_type == BracketType::Opening,
            _ => false,
        }
    }

    pub fn is_closing_bracket(&self) -> (r: bool)
        ensures
            r == (cat_model(*self) == TokenCategoryView::Bracket(BracketType::Closing)),
    {
        match self {
            TokenCategory::Bracket(b_type) => *b_type == BracketType::Closing,
            _ => false,
        }
    }
}

impl TokenKind {
    pub fn is_string(&self) -> (r: bool)
        ensures
            r == (*self is String),
    {
        match self {
            TokenKind::String => true,
            _ => false,
        }
    }

    pub fn is_single_character(&self) -> (r: bool)
        ensures
            r == (*self is SingleCharacter),
    {
        match self {
            TokenKind::SingleCharacter => true,
            _ => false,
        }
    }

    pub fn is_number(&self) -> (r: bool)
        ensures
            r == (*self is Number),
    {
        match self {
            TokenKind::Number => true,
            _ => false,
        }
    }

    pub fn is_number_like(&self) -> (r: bool)
        ensures
            r == (*self is NumberLike),
    {
        match self {
            TokenKind::NumberLike => true,
            _ => false,
        }
    }

    pub fn is_number_or_like(&self) -> (r: bool)
        ensures
            r == (*self is Number || *self is NumberLike),
    {
        match self {
            TokenKind::Number => true,
            TokenKind::NumberLike => true,
            _ => false,
        }
    }
}

} // verus!
