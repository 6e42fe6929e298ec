use vstd::prelude::*;
use vstd::string::*;
use crate::text::{chars_of, string_from_range, to_lowercase, lowercase, utf8_len, char_width, char_utf8_width,
    lemma_utf8_len_push};
use crate::query_lexer::{is_whitespace, spec_is_whitespace};

verus! {

/// A metadata value attached to a token.
#[derive(Debug, Clone)]
pub enum Metadata {
    Number(usize),
    Text(String),
    Numbers(Vec<usize>),
}

pub enum MetadataModel {
    Number(usize),
    Text(Seq<char>),
    Numbers(Seq<usize>),
}

impl Metadata {
    pub open spec fn model(&self) -> MetadataModel {
        match self {
            Metadata::Number(n) => MetadataModel::Number(*n),
            Metadata::Text(t) => MetadataModel::Text(t@),
            Metadata::Numbers(v) => MetadataModel::Numbers(v@),
        }
    }

    /// A copy.
    pub fn duplicate(&self) -> (r: Metadata)
        ensures
            r.model() == self.model(),
    {
        match self {
            Metadata::Number(n) => Metadata::Number(*n),
            Metadata::Text(t) => Metadata::Text(t.clone()),
            Metadata::Numbers(v) => Metadata::Numbers(v.clone()),
        }
    }
}

/// A term with its metadata, each entry a key and a value.
#[derive(Debug, Clone)]
pub struct Token {
    pub term: String,
    pub metadata: Vec<(String, Metadata)>,
}

pub struct TokenModel {
    pub term: Seq<char>,
    pub metadata: Seq<(Seq<char>, MetadataModel)>,
}

pub open spec fn metadata_model(m: Seq<(String, Metadata)>) -> Seq<(Seq<char>, MetadataModel)> {
    m.map_values(|e: (String, Metadata)| (e.0@, e.1.model()))
}

pub open spec fn token_models(v: Seq<Token>) -> Seq<TokenModel> {
    v.map_values(|t: Token| t.model())
}

impl Token {
    pub open spec fn model(&self) -> TokenModel {
        TokenModel { term: self.term@, metadata: metadata_model(self.metadata@) }
    }

    /// A token without metadata.
    pub fn new(term: &str) -> (r: Token)
        ensures
            r.model().term == term@,
            r.model().metadata == Seq::<(Seq<char>, MetadataModel)>::empty(),
    {
        let r = Token { term: term.to_owned(), metadata: Vec::new() };
        proof {
            assert(r.model().metadata =~= Seq::<(Seq<char>, MetadataModel)>::empty());
        }
        r
    }

    /// A copy of the metadata.
    pub fn copy_metadata(&self) -> (r: Vec<(String, Metadata)>)
        ensures
            metadata_model(r@) == metadata_model(self.metadata@),
    {
        let mut r: Vec<(String, Metadata)> = Vec::new();
        let mut i: usize = 0;
        while i < self.metadata.len()
            invariant
                0 <= i <= self.metadata@.len(),
                metadata_model(r@) == metadata_model(self.metadata@).take(i as int),
            decreases self.metadata.len() - i,
        {
            let e = (self.metadata[i].0.clone(), self.metadata[i].1.duplicate());
            let ghost before = r@;
            r.push(e);
            proof {
                assert(metadata_model(before).len() == before.len());
                assert forall|j: int| 0 <= j < i + 1 implies metadata_model(r@)[j] == metadata_model(self.metadata@)[j] by {
                    if j < i {
                        assert(metadata_model(before)[j] == metadata_model(self.metadata@).take(i as int)[j]);
                        assert(r@[j] == before[j]);
                    } else {
                        assert(r@[j] == e);
                    }
                }
                assert(metadata_model(r@) =~= metadata_model(self.metadata@).take(i + 1));
            }
            i = i + 1;
        }
        proof {
            assert(metadata_model(self.metadata@).take(self.metadata@.len() as int) =~= metadata_model(self.metadata@));
        }
        r
    }

    /// A copy.
    pub fn duplicate(&self) -> (r: Token)
        ensures
            r.model() == self.model(),
    {
        Token { term: self.term.clone(), metadata: self.copy_metadata() }
    }

    /// Replaces the term by what `f` makes of the term and the metadata;
    /// `false` where the new term is empty, so that the token is to be skipped.
    pub fn update<F: Fn(String, Vec<(String, Metadata)>) -> String>(&mut self, f: F) -> (r: bool)
        requires
            forall|t: String, m: Vec<(String, Metadata)>| #[trigger] f.requires((t, m)),
        ensures
            final(self).metadata == old(self).metadata,
            exists|m: Vec<(String, Metadata)>| metadata_model(m@) == metadata_model(old(self).metadata@)
                && #[trigger] f.ensures((old(self).term, m), final(self).term),
            r == (final(self).term@.len() > 0),
    {
        let m = self.copy_metadata();
        let ghost t0 = self.term;
        let ghost m0 = m;
        self.term = f(self.term.clone(), m);
        assert(f.ensures((t0, m0), self.term));
        !self.term.as_str().is_empty()
    }

    /// A token with the same metadata and the term that `f` makes of the term and the metadata.
    pub fn clone_with<F: Fn(String, Vec<(String, Metadata)>) -> String>(&self, f: F) -> (r: Token)
        requires
            forall|t: String, m: Vec<(String, Metadata)>| #[trigger] f.requires((t, m)),
        ensures
            r.model().metadata == self.model().metadata,
            exists|m: Vec<(String, Metadata)>| metadata_model(m@) == metadata_model(self.metadata@)
                && #[trigger] f.ensures((self.term, m), r.term),
    {
        let m = self.copy_metadata();
        let ghost m0 = m;
        let term = f(self.term.clone(), m);
        let r = Token { term, metadata: self.copy_metadata() };
        assert(f.ensures((self.term, m0), r.term));
        r
    }
}

/// The tokens of a text.
#[derive(Debug, Clone)]
pub struct Tokens(Vec<Token>);

/// A term separator in texts: white space or a hyphen.
pub open spec fn is_text_separator(c: char) -> bool {
    spec_is_whitespace(c) || c == '-'
}

/// The character ranges of the terms of `s` from index `i` on, where the
/// pending term starts at `start`: the maximal runs of non-separators.
pub open spec fn term_ranges(s: Seq<char>, i: int, start: int) -> Seq<(int, int)>
    decreases s.len() - i,
{
    if i >= s.len() {
        if start < s.len() { seq![(start, s.len() as int)] } else { Seq::empty() }
    } else if is_text_separator(s[i]) {
        (if i > start { seq![(start, i)] } else { Seq::empty() }) + term_ranges(s, i + 1, i + 1)
    } else {
        term_ranges(s, i + 1, start)
    }
}

/// The token for the `k`-th term of `s` (already lower-cased): the term, its
/// byte position and byte length, and its index.
pub open spec fn text_token(s: Seq<char>, k: int) -> TokenModel {
    let r = term_ranges(s, 0, 0)[k];
    TokenModel {
        term: s.subrange(r.0, r.1),
        metadata: seq![
            ("position"@, MetadataModel::Numbers(seq![utf8_len(s.take(r.0)) as usize, utf8_len(s.subrange(r.0, r.1)) as usize])),
            ("index"@, MetadataModel::Number(k as usize)),
        ],
    }
}

/// The tokens of a text: its lower-cased form split at white space and hyphens.
pub open spec fn text_tokens(text: Seq<char>) -> Seq<TokenModel> {
    let s = lowercase(text);
    Seq::new(term_ranges(s, 0, 0).len(), |k: int| text_token(s, k))
}

proof fn lemma_take_push(s: Seq<char>, i: int)
    requires
        0 <= i < s.len(),
    ensures
        s.take(i + 1) == s.take(i).push(s[i]),
{
    assert(s.take(i + 1) =~= s.take(i).push(s[i]));
}

proof fn lemma_utf8_len_prefix(s: Seq<char>, i: int)
    requires
        0 <= i <= s.len(),
    ensures
        utf8_len(s.take(i)) <= utf8_len(s),
        utf8_len(s) == utf8_len(s.take(i)) + utf8_len(s.skip(i)),
{
    crate::text::lemma_utf8_len_append(s.take(i), s.skip(i));
    assert(s.take(i) + s.skip(i) =~= s);
}

proof fn lemma_utf8_len_range(s: Seq<char>, a: int, b: int)
    requires
        0 <= a <= b <= s.len(),
    ensures
        utf8_len(s.take(b)) == utf8_len(s.take(a)) + utf8_len(s.subrange(a, b)),
{
    crate::text::lemma_utf8_len_append(s.take(a), s.subrange(a, b));
    assert(s.take(a) + s.subrange(a, b) =~= s.take(b));
}

fn make_token(v: &Vec<char>, start: usize, end: usize, start_b: usize, len_b: usize, index: usize) -> (t: Token)
    requires
        start <= end <= v@.len(),
    ensures
        t.model() == (TokenModel {
            term: v@.subrange(start as int, end as int),
            metadata: seq![
                ("position"@, MetadataModel::Numbers(seq![start_b, len_b])),
                ("index"@, MetadataModel::Number(index)),
            ],
        }),
{
    let term = string_from_range(v, start, end);
    let mut position: Vec<usize> = Vec::new();
    position.push(start_b);
    position.push(len_b);
    let mut metadata: Vec<(String, Metadata)> = Vec::new();
    metadata.push(("position".to_owned(), Metadata::Numbers(position)));
    metadata.push(("index".to_owned(), Metadata::Number(index)));
    let t = Token { term, metadata };
    proof {
        assert(position@ =~= seq![start_b, len_b]);
        assert(t.model().metadata =~= seq![
            ("position"@, MetadataModel::Numbers(seq![start_b, len_b])),
            ("index"@, MetadataModel::Number(index)),
        ]);
    }
    t
}

impl Tokens {
    pub closed spec fn model(&self) -> Seq<TokenModel> {
        token_models(self.0@)
    }

    /// The number of tokens.
    pub fn len(&self) -> (r: usize)
        ensures
            r == self.model().len(),
    {
        self.0.len()
    }

    /// The tokens, in order.
    pub fn into_vec(self) -> (r: Vec<Token>)
        ensures
            token_models(r@) == self.model(),
    {
        self.0
    }

    /// Lower-cases the text and splits it at white space and hyphens; each
    /// token records its byte position and byte length, and its index.
    pub fn from_text(text: &str) -> (r: Tokens)
        ensures
            r.model() == text_tokens(text@),
    {
        let normalized = to_lowercase(text);
        let ghost s = lowercase(text@);
        let total = normalized.as_str().as_bytes().len();
        let v = chars_of(normalized.as_str());
        let n = v.len();
        let mut tokens: Vec<Token> = Vec::new();
        let mut start: usize = 0;
        let mut start_b: usize = 0;
        let mut b: usize = 0;
        let mut index: usize = 0;
        let mut i: usize = 0;
        proof {
            assert(v@ == s);
            assert(s.take(0) =~= Seq::<char>::empty());
            assert(token_models(tokens@) =~= Seq::<TokenModel>::empty());
            assert(term_ranges(s, 0, 0) =~= Seq::<(int, int)>::empty() + term_ranges(s, 0, 0));
        }
        while i < n
            invariant
                v@ == s,
                n == s.len(),
                total == utf8_len(s),
                0 <= start <= i <= n,
                b == utf8_len(s.take(i as int)),
                start_b == utf8_len(s.take(start as int)),
                index == tokens@.len(),
                index <= i,
                term_ranges(s, 0, 0) == Seq::new(index as nat, |k: int| term_ranges(s, 0, 0)[k]) + term_ranges(s, i as int, start as int),
                forall|k: int| 0 <= k < index ==> #[trigger] token_models(tokens@)[k] == text_token(s, k),
                token_models(tokens@).len() == index,
            decreases n - i,
        {
            let ch = v[i];
            let w = char_utf8_width(ch);
            proof {
                lemma_take_push(s, i as int);
                lemma_utf8_len_push(s.take(i as int), ch);
                lemma_utf8_len_prefix(s, i as int + 1);
            }
            let ghost rs = term_ranges(s, 0, 0);
            if is_whitespace(ch) || ch == '-' {
                if i > start {
                    proof {
                        lemma_utf8_len_range(s, start as int, i as int);
                        assert(rs[index as int] == (start as int, i as int));
                    }
                    let t = make_token(&v, start, i, start_b, b - start_b, index);
                    let ghost before = tokens@;
                    tokens.push(t);
                    proof {
                        assert(token_models(tokens@) =~= token_models(before).push(t.model()));
                        assert(t.model() == text_token(s, index as int));
                        assert(rs =~= Seq::new((index + 1) as nat, |k: int| rs[k]) + term_ranges(s, i + 1, i + 1));
                    }
                    index = index + 1;
                } else {
                    proof {
                        assert(rs =~= Seq::new(index as nat, |k: int| rs[k]) + term_ranges(s, i + 1, i + 1));
                    }
                }
                start = i + 1;
                start_b = b + w;
            }
            b = b + w;
            i = i + 1;
        }
        if start < n {
            proof {
                lemma_utf8_len_range(s, start as int, n as int);
                assert(s.take(n as int) =~= s);
                assert(term_ranges(s, 0, 0)[index as int] == (start as int, n as int));
            }
            let t = make_token(&v, start, n, start_b, b - start_b, index);
            let ghost before = tokens@;
            tokens.push(t);
            proof {
                assert(token_models(tokens@) =~= token_models(before).push(t.model()));
                assert(t.model() == text_token(s, index as int));
            }
        }
        let r = Tokens(tokens);
        proof {
            assert(r.model() =~= text_tokens(text@));
        }
        r
    }
}

} // verus!
