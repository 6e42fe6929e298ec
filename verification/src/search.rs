use vstd::prelude::*;
use crate::text::{copy_strings, str_eq, strings_view};
use crate::set::{ElementSet, contains_string};
use crate::query::{PRESENCE_REQUIRED, PRESENCE_PROHIBITED};
use crate::token_set::{TokenSet, Clause, label_target};
use crate::token_set_pattern::pattern_matches;
use crate::token_set_fuzzy::{fuzzy_final, covers, law_wildcard_cover, law_wildcard_path};
use vstd::utf8::is_ascii_chars;

verus! {

// ---------------------------------------------------------------------------
// What the index holds for the clauses of a query.
// ---------------------------------------------------------------------------

/// The documents in which an expansion of a clause's term occurs, in one field.
pub struct FieldPostings {
    pub field: String,
    pub document_refs: Vec<String>,
}

/// One clause of a query with what the index holds for it. `terms` has an
/// entry for each term the clause searches, in order: `None` where the term
/// expands to no word of the index, otherwise the postings of its expansions,
/// one for each expansion and field of the clause in which it occurs.
pub struct ClauseLookup {
    pub presence: u8,
    pub fields: Vec<String>,
    pub terms: Vec<Option<Vec<FieldPostings>>>,
}

pub struct PostingsModel {
    pub field: Seq<char>,
    pub docs: Seq<Seq<char>>,
}

pub struct LookupModel {
    pub presence: u8,
    pub fields: Seq<Seq<char>>,
    pub terms: Seq<Option<Seq<PostingsModel>>>,
}

impl FieldPostings {
    pub open spec fn model(&self) -> PostingsModel {
        PostingsModel { field: self.field@, docs: strings_view(self.document_refs@) }
    }
}

pub open spec fn postings_model(v: Seq<FieldPostings>) -> Seq<PostingsModel> {
    v.map_values(|p: FieldPostings| p.model())
}

pub open spec fn term_model(t: Option<Vec<FieldPostings>>) -> Option<Seq<PostingsModel>> {
    match t {
        Some(v) => Some(postings_model(v@)),
        None => None,
    }
}

impl ClauseLookup {
    pub open spec fn model(&self) -> LookupModel {
        LookupModel {
            presence: self.presence,
            fields: strings_view(self.fields@),
            terms: self.terms@.map_values(|t: Option<Vec<FieldPostings>>| term_model(t)),
        }
    }
}

pub open spec fn lookups_model(v: Seq<ClauseLookup>) -> Seq<LookupModel> {
    v.map_values(|c: ClauseLookup| c.model())
}

// ---------------------------------------------------------------------------
// The words a term expands to.
// ---------------------------------------------------------------------------

/// Whether the term `t` of a clause matches `w`: with `d` edits allowed, when
/// one of the fuzzy paths of `t` covers `w`; otherwise as a pattern.
pub open spec fn term_matches(t: Seq<char>, edit_distance: Option<usize>, w: Seq<char>) -> bool {
    match edit_distance {
        Some(d) => exists|p: Seq<char>| #[trigger] fuzzy_final(t, d as nat, p) && covers(p, w),
        None => pattern_matches(t, w),
    }
}

/// The words of the index that a clause's term expands to: the set built
/// for the term, fuzzy when edits are allowed, intersected with the set of
/// the index's words. `wildcard` travels with the clause the set is built
/// from; the `*` characters of the term already say where it matches anything.
pub fn expand_term(index_set: &TokenSet, term: &str, edit_distance: Option<usize>, wildcard: u8) -> (r: Vec<String>)
    requires
        index_set.wf(),
        index_set.is_acyclic(),
        index_set.has_no_wildcards(),
        edit_distance is Some ==> is_ascii_chars(term@),
    ensures
        strings_view(r@).no_duplicates(),
        forall|w: Seq<char>|
            #[trigger] strings_view(r@).contains(w) <==> (w.len() > 0 && index_set.words().contains(w)
                && term_matches(term@, edit_distance, w)),
{
    let clause = Clause {
        term: term.to_owned(),
        edit_distance,
        boost: None,
        presence: None,
        wildcard: Some(wildcard),
        use_pipeline: None,
        fields: None,
    };
    let term_set = TokenSet::from_clause(&clause);
    let found = index_set.intersect(&term_set);
    let r = found.to_array();
    proof {
        assert(clause.term@ == term@);
        assert forall|w: Seq<char>| #[trigger] term_set.matches_word(w) == term_matches(term@, edit_distance, w) by {
            match edit_distance {
                Some(d) => {
                    if term_set.matches_word(w) {
                        law_wildcard_path(term_set, w);
                        let p = choose|p: Seq<char>| #[trigger] term_set.words().contains(p) && covers(p, w);
                        assert(fuzzy_final(term@, d as nat, p));
                    }
                    if term_matches(term@, edit_distance, w) {
                        let p = choose|p: Seq<char>| #[trigger] fuzzy_final(term@, d as nat, p) && covers(p, w);
                        assert(term_set.words().contains(p));
                        law_wildcard_cover(term_set, p, w);
                    }
                },
                None => {},
            }
        }
        assert forall|w: Seq<char>|
            #[trigger] strings_view(r@).contains(w) <==> (w.len() > 0 && index_set.words().contains(w)
                && term_matches(term@, edit_distance, w)) by {
            assert(strings_view(r@).contains(w) == found.words().contains(w));
            assert(term_set.matches_word(w) == term_matches(term@, edit_distance, w));
        }
    }
    r
}

// ---------------------------------------------------------------------------
// Which documents the clauses admit.
// ---------------------------------------------------------------------------

/// Some posting of `ps` is in field `f`.
pub open spec fn in_field(ps: Seq<PostingsModel>, f: Seq<char>) -> bool {
    exists|k: int| 0 <= k < ps.len() && (#[trigger] ps[k]).field == f
}

/// Whether the posting `q` is in field `f`, when a field is given.
pub open spec fn selects(f: Option<Seq<char>>, q: PostingsModel) -> bool {
    match f {
        Some(g) => q.field == g,
        None => true,
    }
}

/// The documents of the postings of `ps` in field `f`, or in any field when
/// none is given.
pub open spec fn selected_docs(ps: Seq<PostingsModel>, f: Option<Seq<char>>) -> Set<Seq<char>> {
    Set::new(|d: Seq<char>| exists|k: int| 0 <= k < ps.len() && selects(f, #[trigger] ps[k]) && ps[k].docs.contains(d))
}

/// The number of terms before the first that expands to nothing.
pub open spec fn gap_index(ts: Seq<Option<Seq<PostingsModel>>>) -> nat
    decreases ts.len(),
{
    if ts.len() == 0 {
        0
    } else if ts[0] is None {
        0
    } else {
        1 + gap_index(ts.drop_first())
    }
}

/// Some term expands to nothing.
pub open spec fn has_gap(ts: Seq<Option<Seq<PostingsModel>>>) -> bool {
    exists|j: int| 0 <= j < ts.len() && (#[trigger] ts[j]) is None
}

/// Some posting of the terms is in field `f`.
pub open spec fn seen_in_field(ts: Seq<Option<Seq<PostingsModel>>>, f: Seq<char>) -> bool {
    exists|j: int| 0 <= j < ts.len() && (#[trigger] ts[j]) is Some && in_field(ts[j]->0, f)
}

/// The documents of the postings of the terms in field `f`, or in any field
/// when none is given.
pub open spec fn terms_docs(ts: Seq<Option<Seq<PostingsModel>>>, f: Option<Seq<char>>) -> Set<Seq<char>> {
    Set::new(
        |d: Seq<char>|
            exists|j: int| 0 <= j < ts.len() && (#[trigger] ts[j]) is Some && selected_docs(ts[j]->0, f).contains(d),
    )
}

/// What a clause does to the documents that field `f` requires (`None`: it
/// requires nothing yet). Only a required clause acts. It reads its terms up
/// to the first that expands to nothing; a posting in `f` among them starts
/// the requirement from every document. A term that expands to nothing
/// leaves none in each field of the clause. Then each field of the clause
/// that requires something keeps only the documents of the postings read.
pub open spec fn clause_required(st: Option<Set<Seq<char>>>, c: LookupModel, f: Seq<char>) -> Option<
    Set<Seq<char>>,
> {
    if c.presence != PRESENCE_REQUIRED {
        st
    } else {
        let read = c.terms.take(gap_index(c.terms) as int);
        let st1 = if st is None && seen_in_field(read, f) {
            Some(Set::full())
        } else {
            st
        };
        let st2 = if has_gap(c.terms) && c.fields.contains(f) {
            Some(Set::empty())
        } else {
            st1
        };
        if c.fields.contains(f) && st2 is Some {
            Some(st2->0.intersect(terms_docs(read, None)))
        } else {
            st2
        }
    }
}

/// The documents that field `f` requires after the clauses `cs`, in order.
pub open spec fn required_after(cs: Seq<LookupModel>, f: Seq<char>) -> Option<Set<Seq<char>>>
    decreases cs.len(),
{
    if cs.len() == 0 {
        None
    } else {
        clause_required(required_after(cs.drop_last(), f), cs.last(), f)
    }
}

/// The documents that a prohibited clause has a posting for in field `f`.
pub open spec fn prohibited_in(cs: Seq<LookupModel>, f: Seq<char>) -> Set<Seq<char>> {
    Set::new(
        |d: Seq<char>|
            exists|i: int|
                0 <= i < cs.len() && (#[trigger] cs[i]).presence == PRESENCE_PROHIBITED && terms_docs(
                    cs[i].terms,
                    Some(f),
                ).contains(d),
    )
}

/// The documents that every field of the index admits: those in its
/// required documents where it has any.
pub open spec fn required_docs(fields: Seq<Seq<char>>, cs: Seq<LookupModel>) -> Set<Seq<char>> {
    Set::new(
        |d: Seq<char>|
            forall|p: int|
                0 <= p < fields.len() ==> match required_after(cs, #[trigger] fields[p]) {
                    Some(s) => s.contains(d),
                    None => true,
                },
    )
}

/// The documents that a prohibited clause has a posting for in a field of the index.
pub open spec fn excluded_docs(fields: Seq<Seq<char>>, cs: Seq<LookupModel>) -> Set<Seq<char>> {
    Set::new(|d: Seq<char>| exists|p: int| 0 <= p < fields.len() && prohibited_in(cs, #[trigger] fields[p]).contains(d))
}

// ---------------------------------------------------------------------------
// Reading the postings.
// ---------------------------------------------------------------------------

/// The characters of an optional string slice.
pub open spec fn opt_view(f: Option<&str>) -> Option<Seq<char>> {
    match f {
        Some(g) => Some(g@),
        None => None,
    }
}

proof fn lemma_selected_push(ps: Seq<PostingsModel>, q: PostingsModel, f: Option<Seq<char>>)
    ensures
        selected_docs(ps.push(q), f) == (if selects(f, q) {
            selected_docs(ps, f).union(q.docs.to_set())
        } else {
            selected_docs(ps, f)
        }),
{
    let ps2 = ps.push(q);
    assert forall|d: Seq<char>| #[trigger] selected_docs(ps2, f).contains(d) == (if selects(f, q) {
        selected_docs(ps, f).union(q.docs.to_set())
    } else {
        selected_docs(ps, f)
    }).contains(d) by {
        if selects(f, q) && q.docs.contains(d) {
            assert(ps2[ps.len() as int] == q);
        }
        if selected_docs(ps, f).contains(d) {
            let k = choose|k: int| 0 <= k < ps.len() && selects(f, #[trigger] ps[k]) && ps[k].docs.contains(d);
            assert(ps2[k] == ps[k]);
        }
        if selected_docs(ps2, f).contains(d) {
            let k = choose|k: int| 0 <= k < ps2.len() && selects(f, #[trigger] ps2[k]) && ps2[k].docs.contains(d);
            if k < ps.len() {
                assert(ps2[k] == ps[k]);
            }
        }
    }
    assert(selected_docs(ps2, f) =~= (if selects(f, q) {
        selected_docs(ps, f).union(q.docs.to_set())
    } else {
        selected_docs(ps, f)
    }));
}

proof fn lemma_postings_take(v: Seq<FieldPostings>, k: int)
    requires
        0 <= k < v.len(),
    ensures
        postings_model(v.take(k + 1)) == postings_model(v.take(k)).push(v[k].model()),
        postings_model(v)[k] == v[k].model(),
{
    assert(postings_model(v.take(k + 1)) =~= postings_model(v.take(k)).push(v[k].model()));
}

/// Whether a posting of `ps` is in field `f`.
fn postings_in_field(ps: &Vec<FieldPostings>, f: &str) -> (r: bool)
    ensures
        r == in_field(postings_model(ps@), f@),
{
    let ghost m = postings_model(ps@);
    let mut k: usize = 0;
    while k < ps.len()
        invariant
            0 <= k <= ps@.len(),
            m == postings_model(ps@),
            forall|q: int| 0 <= q < k ==> (#[trigger] m[q]).field != f@,
        decreases ps.len() - k,
    {
        if str_eq(ps[k].field.as_str(), f) {
            assert(m[k as int].field == f@);
            return true;
        }
        k = k + 1;
    }
    false
}

/// The documents of the postings of `ps` in field `f`, or in any field when
/// none is given.
fn postings_docs(ps: &Vec<FieldPostings>, f: Option<&str>) -> (r: ElementSet)
    ensures
        r.wf(),
        r.contents() == selected_docs(postings_model(ps@), opt_view(f)),
{
    let ghost m = postings_model(ps@);
    let ghost fo = opt_view(f);
    let mut acc = ElementSet::Empty;
    let mut k: usize = 0;
    while k < ps.len()
        invariant
            0 <= k <= ps@.len(),
            m == postings_model(ps@),
            fo == opt_view(f),
            acc.wf(),
            acc.contents() == selected_docs(m.take(k as int), fo),
        decreases ps.len() - k,
    {
        let wanted = match f {
            Some(g) => str_eq(ps[k].field.as_str(), g),
            None => true,
        };
        let ghost before = acc.contents();
        if wanted {
            let docs = ElementSet::new(copy_strings(&ps[k].document_refs));
            acc = acc.union(&docs);
        }
        proof {
            lemma_postings_take(ps@, k as int);
            assert(m.take(k + 1) == m.take(k as int).push(m[k as int]));
            lemma_selected_push(m.take(k as int), m[k as int], fo);
            assert(selects(fo, m[k as int]) == wanted);
            assert(acc.contents() =~= selected_docs(m.take(k + 1), fo));
        }
        k = k + 1;
    }
    proof {
        assert(m.take(m.len() as int) =~= m);
    }
    acc
}

proof fn lemma_terms_docs_push(ts: Seq<Option<Seq<PostingsModel>>>, t: Option<Seq<PostingsModel>>, f: Option<Seq<char>>)
    ensures
        terms_docs(ts.push(t), f) == (match t {
            Some(ps) => terms_docs(ts, f).union(selected_docs(ps, f)),
            None => terms_docs(ts, f),
        }),
        seen_in_field(ts.push(t), f->0) == (seen_in_field(ts, f->0) || (t is Some && in_field(t->0, f->0))),
{
    let ts2 = ts.push(t);
    let rhs = match t {
        Some(ps) => terms_docs(ts, f).union(selected_docs(ps, f)),
        None => terms_docs(ts, f),
    };
    assert forall|d: Seq<char>| #[trigger] terms_docs(ts2, f).contains(d) == rhs.contains(d) by {
        if t is Some && selected_docs(t->0, f).contains(d) {
            assert(ts2[ts.len() as int] == t);
        }
        if terms_docs(ts, f).contains(d) {
            let j = choose|j: int| 0 <= j < ts.len() && (#[trigger] ts[j]) is Some && selected_docs(ts[j]->0, f).contains(d);
            assert(ts2[j] == ts[j]);
        }
        if terms_docs(ts2, f).contains(d) {
            let j = choose|j: int| 0 <= j < ts2.len() && (#[trigger] ts2[j]) is Some && selected_docs(ts2[j]->0, f).contains(d);
            if j < ts.len() {
                assert(ts2[j] == ts[j]);
            }
        }
    }
    assert(terms_docs(ts2, f) =~= rhs);
    if t is Some && in_field(t->0, f->0) {
        assert(ts2[ts.len() as int] == t);
    }
    if seen_in_field(ts, f->0) {
        let j = choose|j: int| 0 <= j < ts.len() && (#[trigger] ts[j]) is Some && in_field(ts[j]->0, f->0);
        assert(ts2[j] == ts[j]);
    }
    if seen_in_field(ts2, f->0) {
        let j = choose|j: int| 0 <= j < ts2.len() && (#[trigger] ts2[j]) is Some && in_field(ts2[j]->0, f->0);
        if j < ts.len() {
            assert(ts2[j] == ts[j]);
        }
    }
}

proof fn lemma_gap_index(ts: Seq<Option<Seq<PostingsModel>>>, j: int)
    requires
        0 <= j <= ts.len(),
        forall|q: int| 0 <= q < j ==> (#[trigger] ts[q]) is Some,
        j == ts.len() || ts[j] is None,
    ensures
        gap_index(ts) == j,
        has_gap(ts) == (j < ts.len()),
    decreases j,
{
    if j > 0 {
        let t = ts.drop_first();
        assert forall|q: int| 0 <= q < j - 1 implies (#[trigger] t[q]) is Some by {
            assert(t[q] == ts[q + 1]);
        }
        if j < ts.len() {
            assert(t[j - 1] == ts[j]);
        }
        lemma_gap_index(t, j - 1);
        assert(ts[0] is Some);
    }
    if j == ts.len() {
        assert(!has_gap(ts));
    }
}

/// Where the terms of a clause stop: the first term that expands to nothing.
fn gap_of(terms: &Vec<Option<Vec<FieldPostings>>>) -> (r: usize)
    ensures
        r == gap_index(terms@.map_values(|t: Option<Vec<FieldPostings>>| term_model(t))),
        r <= terms@.len(),
        (r < terms@.len()) == has_gap(terms@.map_values(|t: Option<Vec<FieldPostings>>| term_model(t))),
{
    let ghost tm = terms@.map_values(|t: Option<Vec<FieldPostings>>| term_model(t));
    let mut j: usize = 0;
    while j < terms.len() && terms[j].is_some()
        invariant
            0 <= j <= terms@.len(),
            tm == terms@.map_values(|t: Option<Vec<FieldPostings>>| term_model(t)),
            forall|q: int| 0 <= q < j ==> (#[trigger] tm[q]) is Some,
        decreases terms.len() - j,
    {
        assert(tm[j as int] == term_model(terms@[j as int]));
        j = j + 1;
    }
    proof {
        if j < terms.len() {
            assert(tm[j as int] == term_model(terms@[j as int]));
        }
        lemma_gap_index(tm, j as int);
    }
    j
}

/// Whether a posting among the first `upto` terms is in field `f`.
fn seen_before(terms: &Vec<Option<Vec<FieldPostings>>>, upto: usize, f: &str) -> (r: bool)
    requires
        upto <= terms@.len(),
    ensures
        r == seen_in_field(terms@.map_values(|t: Option<Vec<FieldPostings>>| term_model(t)).take(upto as int), f@),
{
    let ghost tm = terms@.map_values(|t: Option<Vec<FieldPostings>>| term_model(t));
    let mut j: usize = 0;
    let mut seen = false;
    while j < upto
        invariant
            0 <= j <= upto <= terms@.len(),
            tm == terms@.map_values(|t: Option<Vec<FieldPostings>>| term_model(t)),
            seen == seen_in_field(tm.take(j as int), f@),
        decreases upto - j,
    {
        let here = match &terms[j] {
            Some(ps) => postings_in_field(ps, f),
            None => false,
        };
        proof {
            assert(tm[j as int] == term_model(terms@[j as int]));
            assert(tm.take(j + 1) == tm.take(j as int).push(tm[j as int]));
            lemma_terms_docs_push(tm.take(j as int), tm[j as int], Some(f@));
        }
        seen = seen || here;
        j = j + 1;
    }
    seen
}

/// The documents of the postings among the first `upto` terms, in field `f`
/// or in any field when none is given.
fn docs_before(terms: &Vec<Option<Vec<FieldPostings>>>, upto: usize, f: Option<&str>) -> (r: ElementSet)
    requires
        upto <= terms@.len(),
    ensures
        r.wf(),
        r.contents() == terms_docs(
            terms@.map_values(|t: Option<Vec<FieldPostings>>| term_model(t)).take(upto as int),
            opt_view(f),
        ),
{
    let ghost tm = terms@.map_values(|t: Option<Vec<FieldPostings>>| term_model(t));
    let mut j: usize = 0;
    let mut acc = ElementSet::Empty;
    proof {
        assert(terms_docs(tm.take(0), opt_view(f)) =~= Set::empty());
    }
    while j < upto
        invariant
            0 <= j <= upto <= terms@.len(),
            tm == terms@.map_values(|t: Option<Vec<FieldPostings>>| term_model(t)),
            acc.wf(),
            acc.contents() == terms_docs(tm.take(j as int), opt_view(f)),
        decreases upto - j,
    {
        proof {
            assert(tm[j as int] == term_model(terms@[j as int]));
            assert(tm.take(j + 1) == tm.take(j as int).push(tm[j as int]));
            lemma_terms_docs_push(tm.take(j as int), tm[j as int], opt_view(f));
        }
        match &terms[j] {
            Some(ps) => {
                let docs = postings_docs(ps, f);
                acc = acc.union(&docs);
            },
            None => {},
        }
        j = j + 1;
    }
    acc
}

/// The documents a set holds, if there is one.
pub open spec fn opt_contents(o: Option<ElementSet>) -> Option<Set<Seq<char>>> {
    match o {
        Some(s) => Some(s.contents()),
        None => None,
    }
}

pub open spec fn opt_wf(o: Option<ElementSet>) -> bool {
    match o {
        Some(s) => s.wf(),
        None => true,
    }
}

/// A set with the same strings.
fn copy_set(s: &ElementSet) -> (r: ElementSet)
    requires
        s.wf(),
    ensures
        r.wf(),
        r.contents() == s.contents(),
{
    let r = s.intersect(&ElementSet::Complete);
    assert(s.contents().intersect(Set::full()) =~= s.contents());
    r
}

/// What clause `c` does to the documents that field `f` requires; `gap` is
/// where its terms stop and `read` the documents of the postings before.
fn required_step(st: &Option<ElementSet>, c: &ClauseLookup, f: &str, gap: usize, read: &ElementSet) -> (r: Option<
    ElementSet,
>)
    requires
        opt_wf(*st),
        gap == gap_index(c.model().terms),
        gap <= c.terms@.len(),
        (gap < c.terms@.len()) == has_gap(c.model().terms),
        read.wf(),
        read.contents() == terms_docs(c.model().terms.take(gap as int), None),
    ensures
        opt_wf(r),
        opt_contents(r) == clause_required(opt_contents(*st), c.model(), f@),
{
    let ghost cm = c.model();
    assert(cm.terms == c.terms@.map_values(|t: Option<Vec<FieldPostings>>| term_model(t)));
    let st1: Option<ElementSet> = match st {
        Some(s) => Some(copy_set(s)),
        None => None,
    };
    if c.presence != PRESENCE_REQUIRED {
        return st1;
    }
    let in_fields = contains_string(&c.fields, f);
    let st1 = if st1.is_none() && seen_before(&c.terms, gap, f) {
        Some(ElementSet::Complete)
    } else {
        st1
    };
    let st2 = if gap < c.terms.len() && in_fields {
        Some(ElementSet::Empty)
    } else {
        st1
    };
    if in_fields {
        match st2 {
            Some(s) => Some(s.intersect(read)),
            None => None,
        }
    } else {
        st2
    }
}

/// What clause `c` does to the documents that field `f` excludes.
fn prohibited_step(acc: &ElementSet, c: &ClauseLookup, f: &str) -> (r: ElementSet)
    requires
        acc.wf(),
    ensures
        r.wf(),
        r.contents() == (if c.presence == PRESENCE_PROHIBITED {
            acc.contents().union(terms_docs(c.model().terms, Some(f@)))
        } else {
            acc.contents()
        }),
{
    let ghost tm = c.terms@.map_values(|t: Option<Vec<FieldPostings>>| term_model(t));
    if c.presence == PRESENCE_PROHIBITED {
        let docs = docs_before(&c.terms, c.terms.len(), Some(f));
        assert(tm.take(c.terms@.len() as int) =~= tm);
        acc.union(&docs)
    } else {
        copy_set(acc)
    }
}

proof fn lemma_after_take(cs: Seq<LookupModel>, i: int, f: Seq<char>)
    requires
        0 <= i < cs.len(),
    ensures
        required_after(cs.take(i + 1), f) == clause_required(required_after(cs.take(i), f), cs[i], f),
        prohibited_in(cs.take(i + 1), f) == (if cs[i].presence == PRESENCE_PROHIBITED {
            prohibited_in(cs.take(i), f).union(terms_docs(cs[i].terms, Some(f)))
        } else {
            prohibited_in(cs.take(i), f)
        }),
{
    let a = cs.take(i);
    let b = cs.take(i + 1);
    assert(b.drop_last() =~= a);
    assert(b.last() == cs[i]);
    let rhs = if cs[i].presence == PRESENCE_PROHIBITED {
        prohibited_in(a, f).union(terms_docs(cs[i].terms, Some(f)))
    } else {
        prohibited_in(a, f)
    };
    assert forall|d: Seq<char>| #[trigger] prohibited_in(b, f).contains(d) == rhs.contains(d) by {
        if prohibited_in(b, f).contains(d) {
            let q = choose|q: int|
                0 <= q < b.len() && (#[trigger] b[q]).presence == PRESENCE_PROHIBITED && terms_docs(b[q].terms, Some(f)).contains(d);
            if q < i {
                assert(a[q] == b[q]);
            }
        }
        if prohibited_in(a, f).contains(d) {
            let q = choose|q: int|
                0 <= q < a.len() && (#[trigger] a[q]).presence == PRESENCE_PROHIBITED && terms_docs(a[q].terms, Some(f)).contains(d);
            assert(b[q] == a[q]);
        }
        if cs[i].presence == PRESENCE_PROHIBITED && terms_docs(cs[i].terms, Some(f)).contains(d) {
            assert(b[i] == cs[i]);
        }
    }
    assert(prohibited_in(b, f) =~= rhs);
}

/// Which documents a query admits, by presence: a document is admitted when
/// each field of the index that requires documents requires it, and no
/// prohibited clause has a posting for it in a field of the index.
pub struct DocumentFilter {
    required: ElementSet,
    prohibited: ElementSet,
}

impl DocumentFilter {
    /// The documents that every field admits.
    pub closed spec fn required(&self) -> Set<Seq<char>> {
        self.required.contents()
    }

    /// The documents that some field excludes.
    pub closed spec fn prohibited(&self) -> Set<Seq<char>> {
        self.prohibited.contents()
    }

    pub open spec fn admits_doc(&self, d: Seq<char>) -> bool {
        self.required().contains(d) && !self.prohibited().contains(d)
    }

    /// The filter of the clauses of a query over an index with the given
    /// fields, from what the index holds for each clause.
    pub fn from_lookups(fields: &Vec<String>, clauses: &Vec<ClauseLookup>) -> (r: DocumentFilter)
        ensures
            r.required() == required_docs(strings_view(fields@), lookups_model(clauses@)),
            r.prohibited() == excluded_docs(strings_view(fields@), lookups_model(clauses@)),
    {
        let ghost fs = strings_view(fields@);
        let ghost cs = lookups_model(clauses@);
        let n = fields.len();
        let mut req: Vec<Option<ElementSet>> = Vec::new();
        let mut proh: Vec<ElementSet> = Vec::new();
        let mut p: usize = 0;
        while p < n
            invariant
                0 <= p <= n == fields@.len(),
                req@.len() == p,
                proh@.len() == p,
                forall|q: int| 0 <= q < p ==> (#[trigger] req@[q]) is None,
                forall|q: int| 0 <= q < p ==> (#[trigger] proh@[q]) is Empty,
            decreases n - p,
        {
            req.push(None);
            proh.push(ElementSet::Empty);
            p = p + 1;
        }
        proof {
            assert(cs.take(0) =~= Seq::<LookupModel>::empty());
            assert forall|q: int| 0 <= q < n implies prohibited_in(cs.take(0), #[trigger] fs[q]) =~= Set::empty() by {}
        }
        let mut i: usize = 0;
        while i < clauses.len()
            invariant
                0 <= i <= clauses@.len(),
                n == fields@.len(),
                fs == strings_view(fields@),
                cs == lookups_model(clauses@),
                req@.len() == n,
                proh@.len() == n,
                forall|q: int|
                    0 <= q < n ==> opt_wf(#[trigger] req@[q]) && opt_contents(req@[q]) == required_after(
                        cs.take(i as int),
                        fs[q],
                    ),
                forall|q: int|
                    0 <= q < n ==> (#[trigger] proh@[q]).wf() && proh@[q].contents() == prohibited_in(
                        cs.take(i as int),
                        fs[q],
                    ),
            decreases clauses.len() - i,
        {
            let c = &clauses[i];
            let gap = gap_of(&c.terms);
            let read = docs_before(&c.terms, gap, None);
            proof {
                assert(cs[i as int] == c.model());
                assert(c.model().terms == c.terms@.map_values(|t: Option<Vec<FieldPostings>>| term_model(t)));
            }
            let mut req2: Vec<Option<ElementSet>> = Vec::new();
            let mut proh2: Vec<ElementSet> = Vec::new();
            let mut p: usize = 0;
            while p < n
                invariant
                    0 <= p <= n == fields@.len(),
                    0 <= i < clauses@.len(),
                    c == clauses@[i as int],
                    fs == strings_view(fields@),
                    cs == lookups_model(clauses@),
                    cs[i as int] == c.model(),
                    gap == gap_index(c.model().terms),
                    gap <= c.terms@.len(),
                    (gap < c.terms@.len()) == has_gap(c.model().terms),
                    read.wf(),
                    read.contents() == terms_docs(c.model().terms.take(gap as int), None),
                    req@.len() == n,
                    proh@.len() == n,
                    req2@.len() == p,
                    proh2@.len() == p,
                    forall|q: int|
                        0 <= q < n ==> opt_wf(#[trigger] req@[q]) && opt_contents(req@[q]) == required_after(
                            cs.take(i as int),
                            fs[q],
                        ),
                    forall|q: int|
                        0 <= q < n ==> (#[trigger] proh@[q]).wf() && proh@[q].contents() == prohibited_in(
                            cs.take(i as int),
                            fs[q],
                        ),
                    forall|q: int|
                        0 <= q < p ==> opt_wf(#[trigger] req2@[q]) && opt_contents(req2@[q]) == required_after(
                            cs.take(i + 1),
                            fs[q],
                        ),
                    forall|q: int|
                        0 <= q < p ==> (#[trigger] proh2@[q]).wf() && proh2@[q].contents() == prohibited_in(
                            cs.take(i + 1),
                            fs[q],
                        ),
                decreases n - p,
            {
                let f = fields[p].as_str();
                let r1 = required_step(&req[p], c, f, gap, &read);
                let r2 = prohibited_step(&proh[p], c, f);
                proof {
                    assert(fs[p as int] == f@);
                    lemma_after_take(cs, i as int, f@);
                }
                req2.push(r1);
                proh2.push(r2);
                p = p + 1;
            }
            req = req2;
            proh = proh2;
            i = i + 1;
        }
        proof {
            assert(cs.take(cs.len() as int) =~= cs);
        }
        let mut all_req = ElementSet::Complete;
        let mut all_proh = ElementSet::Empty;
        let mut p: usize = 0;
        while p < n
            invariant
                0 <= p <= n == fields@.len(),
                fs == strings_view(fields@),
                cs == lookups_model(clauses@),
                req@.len() == n,
                proh@.len() == n,
                forall|q: int|
                    0 <= q < n ==> opt_wf(#[trigger] req@[q]) && opt_contents(req@[q]) == required_after(cs, fs[q]),
                forall|q: int|
                    0 <= q < n ==> (#[trigger] proh@[q]).wf() && proh@[q].contents() == prohibited_in(cs, fs[q]),
                all_req.wf(),
                all_proh.wf(),
                all_req.contents() == Set::new(
                    |d: Seq<char>|
                        forall|q: int|
                            0 <= q < p ==> match required_after(cs, #[trigger] fs[q]) {
                                Some(s) => s.contains(d),
                                None => true,
                            },
                ),
                all_proh.contents() == Set::new(
                    |d: Seq<char>| exists|q: int| 0 <= q < p && prohibited_in(cs, #[trigger] fs[q]).contains(d),
                ),
            decreases n - p,
        {
            let ghost before_req = all_req.contents();
            let ghost before_proh = all_proh.contents();
            match &req[p] {
                Some(s) => {
                    all_req = all_req.intersect(s);
                },
                None => {},
            }
            all_proh = all_proh.union(&proh[p]);
            proof {
                assert(opt_contents(req@[p as int]) == required_after(cs, fs[p as int]));
                assert(all_req.contents() =~= Set::new(
                    |d: Seq<char>|
                        forall|q: int|
                            0 <= q < p + 1 ==> match required_after(cs, #[trigger] fs[q]) {
                                Some(s) => s.contains(d),
                                None => true,
                            },
                )) by {
                    assert forall|d: Seq<char>| #[trigger] all_req.contents().contains(d) == (forall|q: int|
                        0 <= q < p + 1 ==> match required_after(cs, #[trigger] fs[q]) {
                            Some(s) => s.contains(d),
                            None => true,
                        }) by {
                        if all_req.contents().contains(d) {
                            assert(before_req.contains(d));
                        }
                    }
                }
                assert(all_proh.contents() =~= Set::new(
                    |d: Seq<char>| exists|q: int| 0 <= q < p + 1 && prohibited_in(cs, #[trigger] fs[q]).contains(d),
                )) by {
                    assert forall|d: Seq<char>| #[trigger] all_proh.contents().contains(d) == (exists|q: int|
                        0 <= q < p + 1 && prohibited_in(cs, #[trigger] fs[q]).contains(d)) by {
                        if all_proh.contents().contains(d) && !before_proh.contains(d) {
                            assert(prohibited_in(cs, fs[p as int]).contains(d));
                        }
                        if exists|q: int| 0 <= q < p + 1 && prohibited_in(cs, #[trigger] fs[q]).contains(d) {
                            let q = choose|q: int| 0 <= q < p + 1 && prohibited_in(cs, #[trigger] fs[q]).contains(d);
                            if q < p {
                                assert(before_proh.contains(d));
                            }
                        }
                    }
                }
            }
            p = p + 1;
        }
        proof {
            assert(all_req.contents() =~= required_docs(fs, cs));
            assert(all_proh.contents() =~= excluded_docs(fs, cs));
        }
        DocumentFilter { required: all_req, prohibited: all_proh }
    }

    /// Whether the filter admits the document `doc_ref`.
    pub fn admits(&self, doc_ref: &str) -> (r: bool)
        ensures
            r == self.admits_doc(doc_ref@),
    {
        self.required.contains(doc_ref) && !self.prohibited.contains(doc_ref)
    }
}

// ---------------------------------------------------------------------------
// Laws.
// ---------------------------------------------------------------------------

/// A requirement once made only narrows: after more clauses, field `f`
/// still requires documents, and only some of those it required.
proof fn lemma_required_narrows(cs: Seq<LookupModel>, from: int, to: int, f: Seq<char>)
    requires
        0 <= from <= to <= cs.len(),
        required_after(cs.take(from), f) is Some,
    ensures
        required_after(cs.take(to), f) is Some,
        required_after(cs.take(to), f)->0.subset_of(required_after(cs.take(from), f)->0),
    decreases to - from,
{
    if from < to {
        lemma_required_narrows(cs, from, to - 1, f);
        lemma_after_take(cs, to - 1, f);
        let c = cs[to - 1];
        let st = required_after(cs.take(to - 1), f);
        if c.presence == PRESENCE_REQUIRED && has_gap(c.terms) && c.fields.contains(f) {
            assert(Set::<Seq<char>>::empty().intersect(terms_docs(c.terms.take(gap_index(c.terms) as int), None)) =~= Set::empty());
        }
    }
}

/// A document that a prohibited clause has a posting for, in a field of the
/// index, is excluded.
pub proof fn law_prohibited_excluded(fields: Seq<Seq<char>>, cs: Seq<LookupModel>, i: int, j: int, k: int, d: Seq<char>)
    requires
        0 <= i < cs.len(),
        cs[i].presence == PRESENCE_PROHIBITED,
        0 <= j < cs[i].terms.len(),
        cs[i].terms[j] is Some,
        0 <= k < cs[i].terms[j]->0.len(),
        fields.contains(cs[i].terms[j]->0[k].field),
        cs[i].terms[j]->0[k].docs.contains(d),
    ensures
        excluded_docs(fields, cs).contains(d),
{
    let ps = cs[i].terms[j]->0;
    let f = ps[k].field;
    assert(selects(Some(f), ps[k]));
    assert(selected_docs(ps, Some(f)).contains(d));
    assert(terms_docs(cs[i].terms, Some(f)).contains(d));
    assert(prohibited_in(cs, f).contains(d));
    let p = choose|p: int| 0 <= p < fields.len() && fields[p] == f;
    assert(prohibited_in(cs, fields[p]).contains(d));
}

/// A required clause with a term that expands to no word of the index, and a
/// field of the index among its fields, leaves no document required.
pub proof fn law_required_unmatched(fields: Seq<Seq<char>>, cs: Seq<LookupModel>, i: int, j: int, f: Seq<char>, d: Seq<char>)
    requires
        0 <= i < cs.len(),
        cs[i].presence == PRESENCE_REQUIRED,
        0 <= j < cs[i].terms.len(),
        cs[i].terms[j] is None,
        cs[i].fields.contains(f),
        fields.contains(f),
    ensures
        !required_docs(fields, cs).contains(d),
{
    let c = cs[i];
    lemma_after_take(cs, i, f);
    assert(has_gap(c.terms));
    assert(Set::<Seq<char>>::empty().intersect(terms_docs(c.terms.take(gap_index(c.terms) as int), None)) =~= Set::empty());
    assert(required_after(cs.take(i + 1), f) == Some(Set::<Seq<char>>::empty()));
    lemma_required_narrows(cs, i + 1, cs.len() as int, f);
    assert(cs.take(cs.len() as int) =~= cs);
    let p = choose|p: int| 0 <= p < fields.len() && fields[p] == f;
    assert(!(match required_after(cs, fields[p]) {
        Some(s) => s.contains(d),
        None => true,
    }));
}

/// A required clause with a posting in one of its fields that is a field of
/// the index, among the terms it reads, requires every document to have a
/// posting among those terms.
pub proof fn law_required_restricts(fields: Seq<Seq<char>>, cs: Seq<LookupModel>, i: int, f: Seq<char>, d: Seq<char>)
    requires
        0 <= i < cs.len(),
        cs[i].presence == PRESENCE_REQUIRED,
        cs[i].fields.contains(f),
        fields.contains(f),
        seen_in_field(cs[i].terms.take(gap_index(cs[i].terms) as int), f),
        required_docs(fields, cs).contains(d),
    ensures
        terms_docs(cs[i].terms.take(gap_index(cs[i].terms) as int), None).contains(d),
{
    let c = cs[i];
    lemma_after_take(cs, i, f);
    assert(required_after(cs.take(i + 1), f) is Some);
    assert(required_after(cs.take(i + 1), f)->0.subset_of(terms_docs(c.terms.take(gap_index(c.terms) as int), None)));
    lemma_required_narrows(cs, i + 1, cs.len() as int, f);
    assert(cs.take(cs.len() as int) =~= cs);
    let p = choose|p: int| 0 <= p < fields.len() && fields[p] == f;
    assert(match required_after(cs, fields[p]) {
        Some(s) => s.contains(d),
        None => true,
    });
}

/// Without required clauses no field requires anything.
proof fn lemma_none_required(cs: Seq<LookupModel>, f: Seq<char>)
    requires
        forall|i: int| 0 <= i < cs.len() ==> (#[trigger] cs[i]).presence != PRESENCE_REQUIRED,
    ensures
        required_after(cs, f) is None,
    decreases cs.len(),
{
    if cs.len() > 0 {
        let t = cs.drop_last();
        assert forall|i: int| 0 <= i < t.len() implies (#[trigger] t[i]).presence != PRESENCE_REQUIRED by {
            assert(t[i] == cs[i]);
        }
        lemma_none_required(t, f);
        assert(cs.last() == cs[cs.len() - 1]);
    }
}

/// A query without required clauses requires no document: every document
/// that no prohibited clause excludes is admitted.
pub proof fn law_optional_only(fields: Seq<Seq<char>>, cs: Seq<LookupModel>, d: Seq<char>)
    requires
        forall|i: int| 0 <= i < cs.len() ==> (#[trigger] cs[i]).presence != PRESENCE_REQUIRED,
    ensures
        required_docs(fields, cs).contains(d),
{
    assert forall|p: int| 0 <= p < fields.len() implies match required_after(cs, #[trigger] fields[p]) {
        Some(s) => s.contains(d),
        None => true,
    } by {
        lemma_none_required(cs, fields[p]);
    }
}

} // verus!
