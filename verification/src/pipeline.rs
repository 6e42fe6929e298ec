use vstd::prelude::*;
use crate::token::{Token, TokenModel, token_models};
use crate::trimmer::{trimmer, trim_result};
use crate::stop_word_filter::{stop_word_filter, filter_result, stop_words};
use crate::stemmer::{stemmer, stem_result};
use crate::text::strings_view;

verus! {

/// What a pipeline function makes of one token: one token, several, or none.
pub enum PipelineResult {
    Token(Token),
    Tokens(Vec<Token>),
    Nothing,
}

pub enum PipelineResultModel {
    Token(TokenModel),
    Tokens(Seq<TokenModel>),
    Nothing,
}

impl PipelineResult {
    pub open spec fn model(&self) -> PipelineResultModel {
        match self {
            PipelineResult::Token(t) => PipelineResultModel::Token(t.model()),
            PipelineResult::Tokens(ts) => PipelineResultModel::Tokens(token_models(ts@)),
            PipelineResult::Nothing => PipelineResultModel::Nothing,
        }
    }
}

/// The tokens that a result passes on.
pub open spec fn result_tokens(r: PipelineResultModel) -> Seq<TokenModel> {
    match r {
        PipelineResultModel::Token(t) => seq![t],
        PipelineResultModel::Tokens(ts) => ts,
        PipelineResultModel::Nothing => Seq::empty(),
    }
}

/// The functions a pipeline can run.
#[derive(Clone, Copy, Debug, PartialEq, Eq, Structural)]
pub enum PipelineFunction {
    Trimmer,
    StopWordFilter,
    Stemmer,
}

/// The label a function is registered and serialised under.
pub open spec fn function_label(f: PipelineFunction) -> Seq<char> {
    match f {
        PipelineFunction::Trimmer => "trimmer"@,
        PipelineFunction::StopWordFilter => "stopWordFilter"@,
        PipelineFunction::Stemmer => "stemmer"@,
    }
}

/// What `f` makes of one token.
pub open spec fn function_result(f: PipelineFunction, t: TokenModel) -> PipelineResultModel {
    match f {
        PipelineFunction::Trimmer => trim_result(t),
        PipelineFunction::StopWordFilter => filter_result(stop_words(), t),
        PipelineFunction::Stemmer => stem_result(t),
    }
}

/// `f` applied to every token, the results concatenated in order.
pub open spec fn apply_to_all(f: PipelineFunction, ts: Seq<TokenModel>) -> Seq<TokenModel>
    decreases ts.len(),
{
    if ts.len() == 0 {
        Seq::empty()
    } else {
        result_tokens(function_result(f, ts[0])) + apply_to_all(f, ts.drop_first())
    }
}

/// The functions applied one after another.
pub open spec fn run_functions(fs: Seq<PipelineFunction>, ts: Seq<TokenModel>) -> Seq<TokenModel>
    decreases fs.len(),
{
    if fs.len() == 0 {
        ts
    } else {
        run_functions(fs.drop_first(), apply_to_all(fs[0], ts))
    }
}

impl PipelineFunction {
    /// The label it is registered under.
    pub fn label(&self) -> (r: &'static str)
        ensures
            r@ == function_label(*self),
    {
        match self {
            PipelineFunction::Trimmer => "trimmer",
            PipelineFunction::StopWordFilter => "stopWordFilter",
            PipelineFunction::Stemmer => "stemmer",
        }
    }

    /// The function applied to one token.
    pub fn apply(&self, token: Token) -> (r: PipelineResult)
        ensures
            r.model() == function_result(*self, token.model()),
    {
        match self {
            PipelineFunction::Trimmer => trimmer(token),
            PipelineFunction::StopWordFilter => stop_word_filter(token),
            PipelineFunction::Stemmer => stemmer(token),
        }
    }
}

/// A sequence of functions that tokens pass through, with their labels.
#[derive(Clone, Debug)]
pub struct Pipeline {
    stack: Vec<PipelineFunction>,
    labels: Vec<String>,
}

impl Pipeline {
    pub closed spec fn functions(&self) -> Seq<PipelineFunction> {
        self.stack@
    }

    pub closed spec fn labels(&self) -> Seq<Seq<char>> {
        strings_view(self.labels@)
    }

    pub fn new() -> (r: Self)
        ensures
            r.functions() == Seq::<PipelineFunction>::empty(),
            r.labels() == Seq::<Seq<char>>::empty(),
    {
        let r = Pipeline { stack: Vec::new(), labels: Vec::new() };
        proof {
            assert(r.labels() =~= Seq::<Seq<char>>::empty());
        }
        r
    }

    /// Adds a function at the end, under the given label.
    pub fn add(&mut self, label: &str, f: PipelineFunction)
        ensures
            final(self).functions() == old(self).functions().push(f),
            final(self).labels() == old(self).labels().push(label@),
    {
        self.stack.push(f);
        let ghost before = self.labels@;
        self.labels.push(label.to_owned());
        proof {
            assert(strings_view(self.labels@) =~= strings_view(before).push(label@));
        }
    }

    /// Adds a function at the end, under its own label.
    pub fn add_function(&mut self, f: PipelineFunction)
        ensures
            final(self).functions() == old(self).functions().push(f),
            final(self).labels() == old(self).labels().push(function_label(f)),
    {
        let label = f.label();
        self.add(label, f);
    }

    /// Passes the tokens through each function in turn.
    pub fn run(&self, tokens: Vec<Token>) -> (r: Vec<Token>)
        ensures
            token_models(r@) == run_functions(self.functions(), token_models(tokens@)),
    {
        let mut tokens = tokens;
        let mut k: usize = 0;
        let ghost target = run_functions(self.functions(), token_models(tokens@));
        proof {
            assert(self.functions().skip(0) =~= self.functions());
        }
        while k < self.stack.len()
            invariant
                0 <= k <= self.stack@.len(),
                run_functions(self.functions().skip(k as int), token_models(tokens@)) == target,
            decreases self.stack.len() - k,
        {
            let f = self.stack[k];
            let ghost fs = self.functions().skip(k as int);
            let ghost ts = token_models(tokens@);
            proof {
                assert(fs[0] == f);
                assert(fs.drop_first() =~= self.functions().skip(k + 1));
            }
            let memo = apply_each(f, &tokens);
            tokens = memo;
            k = k + 1;
        }
        proof {
            assert(self.functions().skip(k as int) =~= Seq::<PipelineFunction>::empty());
        }
        tokens
    }

    /// The terms that a token of the text becomes.
    pub fn run_string(&self, text: &str) -> (r: Vec<String>)
        ensures
            strings_view(r@) == run_functions(self.functions(), seq![TokenModel { term: text@, metadata: Seq::empty() }]).map_values(
                |t: TokenModel| t.term,
            ),
    {
        let token = Token::new(text);
        let mut tokens: Vec<Token> = Vec::new();
        tokens.push(token);
        proof {
            assert(token_models(tokens@) =~= seq![TokenModel { term: text@, metadata: Seq::empty() }]);
        }
        let out = self.run(tokens);
        let mut terms: Vec<String> = Vec::new();
        let mut i: usize = 0;
        while i < out.len()
            invariant
                0 <= i <= out@.len(),
                strings_view(terms@) == token_models(out@).take(i as int).map_values(|t: TokenModel| t.term),
            decreases out.len() - i,
        {
            let ghost before = terms@;
            let c = out[i].term.clone();
            terms.push(c);
            proof {
                let lhs = strings_view(terms@);
                let rhs = token_models(out@).take(i + 1).map_values(|t: TokenModel| t.term);
                assert(strings_view(before).len() == before.len());
                assert(lhs.len() == rhs.len());
                assert forall|j: int| 0 <= j < i + 1 implies lhs[j] == rhs[j] by {
                    if j < i {
                        assert(strings_view(before)[j] == token_models(out@).take(i as int).map_values(|t: TokenModel| t.term)[j]);
                        assert(terms@[j] == before[j]);
                    } else {
                        assert(terms@[j] == c);
                        assert(token_models(out@)[j] == out@[j].model());
                    }
                }
                assert(lhs =~= rhs);
            }
            i = i + 1;
        }
        proof {
            assert(token_models(out@).take(out@.len() as int) =~= token_models(out@));
        }
        terms
    }

    /// Removes every function.
    pub fn reset(&mut self)
        ensures
            final(self).functions() == Seq::<PipelineFunction>::empty(),
            final(self).labels() == Seq::<Seq<char>>::empty(),
    {
        self.stack.clear();
        self.labels.clear();
        proof {
            assert(self.labels() =~= Seq::<Seq<char>>::empty());
        }
    }

    /// The labels of the functions, in order.
    pub fn to_json(&self) -> (r: Vec<String>)
        ensures
            strings_view(r@) == self.labels(),
    {
        crate::text::copy_strings(&self.labels)
    }
}

impl Default for Pipeline {
    fn default() -> (r: Self)
        ensures
            r.functions() == Seq::<PipelineFunction>::empty(),
            r.labels() == Seq::<Seq<char>>::empty(),
    {
        Pipeline::new()
    }
}

/// `f` applied to each token, the results concatenated in order.
fn apply_each(f: PipelineFunction, tokens: &Vec<Token>) -> (r: Vec<Token>)
    ensures
        token_models(r@) == apply_to_all(f, token_models(tokens@)),
{
    let ghost ts = token_models(tokens@);
    let mut memo: Vec<Token> = Vec::new();
    let mut i: usize = 0;
    proof {
        assert(ts.skip(0) =~= ts);
        assert(token_models(memo@) + apply_to_all(f, ts) =~= apply_to_all(f, ts));
    }
    while i < tokens.len()
        invariant
            0 <= i <= tokens@.len(),
            ts == token_models(tokens@),
            token_models(memo@) + apply_to_all(f, ts.skip(i as int)) == apply_to_all(f, ts),
        decreases tokens.len() - i,
    {
        let ghost rest = ts.skip(i as int);
        proof {
            assert(rest[0] == ts[i as int]);
            assert(rest.drop_first() =~= ts.skip(i + 1));
        }
        let t = tokens[i].duplicate();
        let ghost before = memo@;
        match f.apply(t) {
            PipelineResult::Token(t2) => {
                memo.push(t2);
                proof {
                    assert(token_models(memo@) =~= token_models(before) + seq![t2.model()]);
                }
            },
            PipelineResult::Tokens(ts2) => {
                let mut ts2 = ts2;
                let ghost added = ts2@;
                memo.append(&mut ts2);
                proof {
                    assert(token_models(memo@) =~= token_models(before) + token_models(added));
                }
            },
            PipelineResult::Nothing => {
                proof {
                    assert(token_models(before) + Seq::<TokenModel>::empty() =~= token_models(before));
                }
            },
        }
        proof {
            let a = result_tokens(function_result(f, ts[i as int]));
            let b = apply_to_all(f, ts.skip(i + 1));
            assert(apply_to_all(f, rest) == a + b);
            assert(token_models(before) + (a + b) =~= (token_models(before) + a) + b);
        }
        i = i + 1;
    }
    proof {
        assert(ts.skip(tokens@.len() as int) =~= Seq::<TokenModel>::empty());
        assert(token_models(memo@) + Seq::<TokenModel>::empty() =~= token_models(memo@));
    }
    memo
}

} // verus!
