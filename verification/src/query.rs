use vstd::prelude::*;
use crate::text::{copy_strings, strings_view, chars_of, push_char};

verus! {

pub const WILDCARD_NONE: u8 = 0;
pub const WILDCARD_LEADING: u8 = 1;
pub const WILDCARD_TRAILING: u8 = 2;

pub const PRESENCE_OPTIONAL: u8 = 1;
pub const PRESENCE_REQUIRED: u8 = 2;
pub const PRESENCE_PROHIBITED: u8 = 3;

/// A non-negative decimal number, kept exactly as its digits: `whole.fraction`.
/// Each entry is a digit value from 0 to 9.
#[derive(Debug, Clone)]
pub struct Boost {
    pub whole: Vec<u8>,
    pub fraction: Vec<u8>,
}

pub struct BoostModel {
    pub whole: Seq<u8>,
    pub fraction: Seq<u8>,
}

/// Whether every digit is 0: the number is zero.
pub open spec fn all_zero(s: Seq<u8>) -> bool {
    forall|i: int| 0 <= i < s.len() ==> s[i] == 0
}

pub open spec fn boost_is_zero(b: BoostModel) -> bool {
    all_zero(b.whole) && all_zero(b.fraction)
}

pub open spec fn boost_one() -> BoostModel {
    BoostModel { whole: seq![1u8], fraction: Seq::empty() }
}

impl Boost {
    pub open spec fn model(&self) -> BoostModel {
        BoostModel { whole: self.whole@, fraction: self.fraction@ }
    }

    /// The boost 1.
    pub fn one() -> (r: Boost)
        ensures
            r.model() == boost_one(),
    {
        let mut whole = Vec::new();
        whole.push(1u8);
        let r = Boost { whole, fraction: Vec::new() };
        proof {
            assert(r.model().whole =~= seq![1u8]);
            assert(r.model().fraction =~= Seq::<u8>::empty());
        }
        r
    }

    /// Whether the number is zero.
    pub fn is_zero(&self) -> (r: bool)
        ensures
            r == boost_is_zero(self.model()),
    {
        let mut i: usize = 0;
        while i < self.whole.len()
            invariant
                0 <= i <= self.whole@.len(),
                forall|j: int| 0 <= j < i ==> self.whole@[j] == 0,
            decreases self.whole.len() - i,
        {
            if self.whole[i] != 0 {
                return false;
            }
            i = i + 1;
        }
        let mut k: usize = 0;
        while k < self.fraction.len()
            invariant
                0 <= k <= self.fraction@.len(),
                all_zero(self.whole@),
                forall|j: int| 0 <= j < k ==> self.fraction@[j] == 0,
            decreases self.fraction.len() - k,
        {
            if self.fraction[k] != 0 {
                return false;
            }
            k = k + 1;
        }
        true
    }

    /// A copy.
    pub fn duplicate(&self) -> (r: Boost)
        ensures
            r.model() == self.model(),
    {
        Boost { whole: self.whole.clone(), fraction: self.fraction.clone() }
    }
}

/// One clause of a query: a term, the fields it is searched in, and its options.
#[derive(Debug, Clone)]
pub struct Clause {
    pub fields: Vec<String>,
    pub boost: Boost,
    pub edit_distance: Option<usize>,
    pub use_pipeline: bool,
    pub wildcard: u8,
    pub presence: u8,
    pub term: String,
}

pub struct ClauseModel {
    pub fields: Seq<Seq<char>>,
    pub boost: BoostModel,
    pub edit_distance: Option<usize>,
    pub use_pipeline: bool,
    pub wildcard: u8,
    pub presence: u8,
    pub term: Seq<char>,
}

impl Clause {
    pub open spec fn model(&self) -> ClauseModel {
        ClauseModel {
            fields: strings_view(self.fields@),
            boost: self.boost.model(),
            edit_distance: self.edit_distance,
            use_pipeline: self.use_pipeline,
            wildcard: self.wildcard,
            presence: self.presence,
            term: self.term@,
        }
    }

    /// A copy.
    pub fn duplicate(&self) -> (r: Clause)
        ensures
            r.model() == self.model(),
    {
        Clause {
            fields: copy_strings(&self.fields),
            boost: self.boost.duplicate(),
            edit_distance: self.edit_distance,
            use_pipeline: self.use_pipeline,
            wildcard: self.wildcard,
            presence: self.presence,
            term: self.term.clone(),
        }
    }
}

/// The clause that `Clause::default` gives: every field, boost 1, no edit
/// distance, the pipeline on, no wildcard, optional, empty term.
pub open spec fn default_clause() -> ClauseModel {
    ClauseModel {
        fields: Seq::empty(),
        boost: boost_one(),
        edit_distance: None,
        use_pipeline: true,
        wildcard: WILDCARD_NONE,
        presence: PRESENCE_OPTIONAL,
        term: Seq::empty(),
    }
}

impl Default for Clause {
    fn default() -> (r: Self)
        ensures
            r.model() == default_clause(),
    {
        let r = Clause {
            fields: Vec::new(),
            boost: Boost::one(),
            edit_distance: None,
            use_pipeline: true,
            wildcard: WILDCARD_NONE,
            presence: PRESENCE_OPTIONAL,
            term: String::new(),
        };
        proof {
            assert(r.model().fields =~= Seq::<Seq<char>>::empty());
        }
        r
    }
}

/// The clause as `Query::clause` stores it: unset fields, boost and presence
/// take their defaults, and a wildcard flag puts a `*` at that end of the term
/// unless one is there already.
pub open spec fn normalize_clause(c: ClauseModel, all_fields: Seq<Seq<char>>) -> ClauseModel {
    let fields = if c.fields.len() == 0 { all_fields } else { c.fields };
    let boost = if boost_is_zero(c.boost) { boost_one() } else { c.boost };
    let presence = if c.presence == 0 { PRESENCE_OPTIONAL } else { c.presence };
    let t1 = if (c.wildcard & WILDCARD_LEADING) != 0 && !(c.term.len() > 0 && c.term[0] == '*') {
        seq!['*'] + c.term
    } else {
        c.term
    };
    let t2 = if (c.wildcard & WILDCARD_TRAILING) != 0 && !(t1.len() > 0 && t1.last() == '*') {
        t1.push('*')
    } else {
        t1
    };
    ClauseModel { fields, boost, presence, term: t2, ..c }
}

/// A query: its clauses, and the fields a clause without fields searches.
#[derive(Debug, Clone)]
pub struct Query {
    pub clauses: Vec<Clause>,
    pub all_fields: Vec<String>,
}

pub struct QueryModel {
    pub clauses: Seq<ClauseModel>,
    pub all_fields: Seq<Seq<char>>,
}

pub open spec fn clause_models(v: Seq<Clause>) -> Seq<ClauseModel> {
    v.map_values(|c: Clause| c.model())
}

/// The query after adding one clause.
pub open spec fn add_clause(q: QueryModel, c: ClauseModel) -> QueryModel {
    QueryModel { clauses: q.clauses.push(normalize_clause(c, q.all_fields)), ..q }
}

/// Whether the query has clauses and all of them are prohibited.
pub open spec fn spec_is_negated(q: QueryModel) -> bool {
    q.clauses.len() > 0 && forall|i: int| 0 <= i < q.clauses.len() ==> q.clauses[i].presence == PRESENCE_PROHIBITED
}

/// `"*"` followed by `s`.
fn star_then(s: &String) -> (r: String)
    ensures
        r@ == seq!['*'] + s@,
{
    let mut r = String::new();
    push_char(&mut r, '*');
    r.append(s.as_str());
    proof {
        assert(r@ =~= seq!['*'] + s@);
    }
    r
}

impl Query {
    pub open spec fn model(&self) -> QueryModel {
        QueryModel { clauses: clause_models(self.clauses@), all_fields: strings_view(self.all_fields@) }
    }

    pub fn new(all_fields: Vec<String>) -> (r: Self)
        ensures
            r.model().clauses == Seq::<ClauseModel>::empty(),
            r.model().all_fields == strings_view(all_fields@),
    {
        let r = Query { clauses: Vec::new(), all_fields };
        proof {
            assert(r.model().clauses =~= Seq::<ClauseModel>::empty());
        }
        r
    }

    /// A copy.
    pub fn duplicate(&self) -> (r: Query)
        ensures
            r.model() == self.model(),
    {
        let mut clauses: Vec<Clause> = Vec::new();
        let mut i: usize = 0;
        while i < self.clauses.len()
            invariant
                0 <= i <= self.clauses@.len(),
                clause_models(clauses@) == clause_models(self.clauses@).take(i as int),
            decreases self.clauses.len() - i,
        {
            let c = self.clauses[i].duplicate();
            let ghost old_c = clauses@;
            clauses.push(c);
            proof {
                assert(clause_models(old_c).len() == old_c.len());
                assert forall|j: int| 0 <= j < i + 1 implies clause_models(clauses@)[j] == clause_models(self.clauses@)[j] by {
                    if j < i {
                        assert(clause_models(old_c)[j] == clause_models(self.clauses@).take(i as int)[j]);
                        assert(clauses@[j] == old_c[j]);
                    } else {
                        assert(clauses@[j] == c);
                    }
                }
                assert(clause_models(clauses@) =~= clause_models(self.clauses@).take(i + 1));
            }
            i = i + 1;
        }
        proof {
            assert(clause_models(self.clauses@).take(self.clauses@.len() as int) =~= clause_models(self.clauses@));
        }
        Query { clauses, all_fields: copy_strings(&self.all_fields) }
    }

    /// Fills in the clause's defaults and wildcards, then adds a copy of it.
    pub fn clause(&mut self, clause: &mut Clause)
        ensures
            final(clause).model() == normalize_clause(old(clause).model(), old(self).model().all_fields),
            final(self).model() == add_clause(old(self).model(), old(clause).model()),
    {
        let ghost c0 = clause.model();
        if clause.fields.len() == 0 {
            clause.fields = copy_strings(&self.all_fields);
        }
        if clause.boost.is_zero() {
            clause.boost = Boost::one();
        }
        if clause.wildcard == 0 {
            clause.wildcard = WILDCARD_NONE;
        }
        if clause.presence == 0 {
            clause.presence = PRESENCE_OPTIONAL;
        }
        let term = chars_of(clause.term.as_str());
        if (clause.wildcard & WILDCARD_LEADING) != 0 && !(term.len() > 0 && term[0] == '*') {
            clause.term = star_then(&clause.term);
        }
        let term = chars_of(clause.term.as_str());
        if (clause.wildcard & WILDCARD_TRAILING) != 0 && !(term.len() > 0 && term[term.len() - 1] == '*') {
            push_char(&mut clause.term, '*');
        }
        let ghost old_clauses = self.clauses@;
        self.clauses.push(clause.duplicate());
        proof {
            assert(clause.model() == normalize_clause(c0, old(self).model().all_fields));
            assert(clause_models(self.clauses@) =~= clause_models(old_clauses).push(clause.model()));
        }
    }

    /// Adds a clause for `term` with the given options.
    pub fn term(&mut self, term: &str, options: Option<ClauseOptions>)
        ensures
            final(self).model() == add_clause(
                old(self).model(),
                ClauseModel { term: term@, ..options_clause(options) },
            ),
    {
        let mut clause = match options {
            Some(o) => o.to_clause(),
            None => Clause::default(),
        };
        clause.term = term.to_owned();
        self.clause(&mut clause);
    }

    /// Whether the query has clauses and every one of them is prohibited.
    pub fn is_negated(&self) -> (r: bool)
        ensures
            r == spec_is_negated(self.model()),
    {
        if self.clauses.len() == 0 {
            return false;
        }
        let mut i: usize = 0;
        while i < self.clauses.len()
            invariant
                0 <= i <= self.clauses@.len(),
                forall|j: int| 0 <= j < i ==> self.model().clauses[j].presence == PRESENCE_PROHIBITED,
            decreases self.clauses.len() - i,
        {
            if self.clauses[i].presence != PRESENCE_PROHIBITED {
                assert(self.model().clauses[i as int].presence != PRESENCE_PROHIBITED);
                return false;
            }
            i = i + 1;
        }
        true
    }
}

/// Options for `Query::term`; each one left out takes its default.
#[derive(Debug, Clone)]
pub struct ClauseOptions {
    pub fields: Option<Vec<String>>,
    pub boost: Option<Boost>,
    pub edit_distance: Option<usize>,
    pub use_pipeline: Option<bool>,
    pub wildcard: Option<u8>,
    pub presence: Option<u8>,
}

impl Default for ClauseOptions {
    fn default() -> (r: Self)
        ensures
            r.fields is None,
            r.boost is None,
            r.edit_distance is None,
            r.use_pipeline is None,
            r.wildcard is None,
            r.presence is None,
    {
        ClauseOptions { fields: None, boost: None, edit_distance: None, use_pipeline: None, wildcard: None, presence: None }
    }
}

/// The clause that options stand for, with an empty term.
pub open spec fn options_clause(o: Option<ClauseOptions>) -> ClauseModel {
    match o {
        None => default_clause(),
        Some(o) => ClauseModel {
            fields: match o.fields { Some(f) => strings_view(f@), None => Seq::empty() },
            boost: match o.boost { Some(b) => b.model(), None => boost_one() },
            edit_distance: o.edit_distance,
            use_pipeline: match o.use_pipeline { Some(u) => u, None => true },
            wildcard: match o.wildcard { Some(w) => w, None => WILDCARD_NONE },
            presence: match o.presence { Some(p) => p, None => PRESENCE_OPTIONAL },
            term: Seq::empty(),
        },
    }
}

impl ClauseOptions {
    fn to_clause(self) -> (r: Clause)
        ensures
            r.model() == options_clause(Some(self)),
    {
        let fields = match self.fields {
            Some(f) => f,
            None => Vec::new(),
        };
        let boost = match self.boost {
            Some(b) => b,
            None => Boost::one(),
        };
        let r = Clause {
            fields,
            boost,
            edit_distance: self.edit_distance,
            use_pipeline: match self.use_pipeline { Some(u) => u, None => true },
            wildcard: match self.wildcard { Some(w) => w, None => WILDCARD_NONE },
            presence: match self.presence { Some(p) => p, None => PRESENCE_OPTIONAL },
            term: String::new(),
        };
        proof {
            assert(r.model().fields =~= options_clause(Some(self)).fields);
        }
        r
    }
}

} // verus!
