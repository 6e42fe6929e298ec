use vstd::prelude::*;
use crate::text::{copy_strings, str_eq, strings_view};
use crate::query::{Clause, ClauseModel, Query};
use crate::pipeline::{Pipeline, PipelineFunction, run_functions};
use crate::token::TokenModel;
use crate::search::{
    FieldPostings, PostingsModel, ClauseLookup, LookupModel, DocumentFilter, expand_term, in_field, selected_docs,
    term_matches, term_model, lookups_model, required_docs, excluded_docs,
};
use crate::token_set::TokenSet;
use crate::match_data::MatchData;
use crate::results::{MatchModel, matches_map, matches_wf, with_matches};
use vstd::utf8::is_ascii_chars;

verus! {

// ---------------------------------------------------------------------------
// The index: for each word, its postings by field.
// ---------------------------------------------------------------------------

/// What the index holds for one word: its position among the index's terms,
/// and for each field in which it occurs, the documents.
pub struct Posting {
    pub index: usize,
    pub fields: Vec<FieldPostings>,
}

/// The postings of the index's words.
pub struct InvertedIndex {
    pub entries: Vec<(String, Posting)>,
}

impl Posting {
    /// No field occurs twice.
    pub open spec fn wf(&self) -> bool {
        forall|k: int, l: int|
            0 <= k < l < self.fields@.len() ==> (#[trigger] self.fields@[k]).field@ != (#[trigger] self.fields@[l]).field@
    }
}

impl InvertedIndex {
    /// No word occurs twice, and each posting is well formed.
    pub open spec fn wf(&self) -> bool {
        &&& forall|i: int, j: int|
            0 <= i < j < self.entries@.len() ==> (#[trigger] self.entries@[i]).0@ != (#[trigger] self.entries@[j]).0@
        &&& forall|i: int| 0 <= i < self.entries@.len() ==> (#[trigger] self.entries@[i]).1.wf()
    }

    /// Each word's posting holds the word's position among the entries, the
    /// order in which the words first came.
    pub open spec fn is_numbered(&self) -> bool {
        forall|i: int| 0 <= i < self.entries@.len() ==> (#[trigger] self.entries@[i]).1.index == i
    }

    /// The word `w` has a posting in field `f`.
    pub open spec fn has_field(&self, w: Seq<char>, f: Seq<char>) -> bool {
        exists|i: int, k: int|
            0 <= i < self.entries@.len() && self.entries@[i].0@ == w && 0 <= k < self.entries@[i].1.fields@.len()
                && (#[trigger] self.entries@[i].1.fields@[k]).field@ == f
    }

    /// The word `w` has a posting in field `f` that holds document `d`.
    pub open spec fn has_doc(&self, w: Seq<char>, f: Seq<char>, d: Seq<char>) -> bool {
        exists|i: int, k: int|
            0 <= i < self.entries@.len() && self.entries@[i].0@ == w && 0 <= k < self.entries@[i].1.fields@.len()
                && (#[trigger] self.entries@[i].1.fields@[k]).field@ == f && strings_view(
                self.entries@[i].1.fields@[k].document_refs@,
            ).contains(d)
    }

    /// The entry of word `w`, if there is one.
    pub fn find_entry(&self, w: &str) -> (r: Option<usize>)
        requires
            self.wf(),
        ensures
            r matches Some(i) ==> i < self.entries@.len() && self.entries@[i as int].0@ == w@,
            r is None ==> forall|i: int| 0 <= i < self.entries@.len() ==> (#[trigger] self.entries@[i]).0@ != w@,
    {
        let mut i: usize = 0;
        while i < self.entries.len()
            invariant
                0 <= i <= self.entries@.len(),
                forall|j: int| 0 <= j < i ==> (#[trigger] self.entries@[j]).0@ != w@,
            decreases self.entries.len() - i,
        {
            if str_eq(self.entries[i].0.as_str(), w) {
                return Some(i);
            }
            i = i + 1;
        }
        None
    }
}

/// The postings of field `f` in `p`, if there are any.
pub(crate) fn find_field(p: &Posting, f: &str) -> (r: Option<usize>)
    ensures
        r matches Some(k) ==> k < p.fields@.len() && p.fields@[k as int].field@ == f@,
        r is None ==> forall|k: int| 0 <= k < p.fields@.len() ==> (#[trigger] p.fields@[k]).field@ != f@,
{
    let mut k: usize = 0;
    while k < p.fields.len()
        invariant
            0 <= k <= p.fields@.len(),
            forall|j: int| 0 <= j < k ==> (#[trigger] p.fields@[j]).field@ != f@,
        decreases p.fields.len() - k,
    {
        if str_eq(p.fields[k].field.as_str(), f) {
            return Some(k);
        }
        k = k + 1;
    }
    None
}

// ---------------------------------------------------------------------------
// The postings of a clause's term.
// ---------------------------------------------------------------------------

/// The entry of word `w`.
pub open spec fn entry_of(ix: InvertedIndex, w: Seq<char>) -> Option<int> {
    if exists|i: int| 0 <= i < ix.entries@.len() && (#[trigger] ix.entries@[i]).0@ == w {
        Some(choose|i: int| 0 <= i < ix.entries@.len() && (#[trigger] ix.entries@[i]).0@ == w)
    } else {
        None
    }
}

/// The postings of field `f` in `p`.
pub open spec fn field_of(p: Posting, f: Seq<char>) -> Option<int> {
    if exists|k: int| 0 <= k < p.fields@.len() && (#[trigger] p.fields@[k]).field@ == f {
        Some(choose|k: int| 0 <= k < p.fields@.len() && (#[trigger] p.fields@[k]).field@ == f)
    } else {
        None
    }
}

/// What the index holds for word `w` in field `f`: nothing, or that field
/// with its documents.
pub open spec fn cell(ix: InvertedIndex, w: Seq<char>, f: Seq<char>) -> Seq<PostingsModel> {
    match entry_of(ix, w) {
        Some(i) => match field_of(ix.entries@[i].1, f) {
            Some(k) => seq![PostingsModel { field: f, docs: strings_view(ix.entries@[i].1.fields@[k].document_refs@) }],
            None => Seq::empty(),
        },
        None => Seq::empty(),
    }
}

/// What the index holds for word `w` in each of the fields `fs`, in order.
pub open spec fn row(ix: InvertedIndex, w: Seq<char>, fs: Seq<Seq<char>>) -> Seq<PostingsModel>
    decreases fs.len(),
{
    if fs.len() == 0 {
        Seq::empty()
    } else {
        row(ix, w, fs.drop_last()) + cell(ix, w, fs.last())
    }
}

/// What the index holds for each of the words `ws` in each of the fields `fs`.
pub open spec fn collected(ix: InvertedIndex, ws: Seq<Seq<char>>, fs: Seq<Seq<char>>) -> Seq<PostingsModel>
    decreases ws.len(),
{
    if ws.len() == 0 {
        Seq::empty()
    } else {
        collected(ix, ws.drop_last(), fs) + row(ix, ws.last(), fs)
    }
}

proof fn lemma_concat(a: Seq<PostingsModel>, b: Seq<PostingsModel>, f: Seq<char>, o: Option<Seq<char>>)
    ensures
        in_field(a + b, f) == (in_field(a, f) || in_field(b, f)),
        selected_docs(a + b, o) == selected_docs(a, o).union(selected_docs(b, o)),
{
    let c = a + b;
    if in_field(c, f) {
        let k = choose|k: int| 0 <= k < c.len() && (#[trigger] c[k]).field == f;
        if k < a.len() {
            assert(c[k] == a[k]);
        } else {
            assert(c[k] == b[k - a.len()]);
        }
    }
    if in_field(a, f) {
        let k = choose|k: int| 0 <= k < a.len() && (#[trigger] a[k]).field == f;
        assert(c[k] == a[k]);
    }
    if in_field(b, f) {
        let k = choose|k: int| 0 <= k < b.len() && (#[trigger] b[k]).field == f;
        assert(c[k + a.len()] == b[k]);
    }
    assert forall|d: Seq<char>| #[trigger] selected_docs(c, o).contains(d) == selected_docs(a, o).union(selected_docs(b, o)).contains(d) by {
        if selected_docs(c, o).contains(d) {
            let k = choose|k: int| 0 <= k < c.len() && crate::search::selects(o, #[trigger] c[k]) && c[k].docs.contains(d);
            if k < a.len() {
                assert(c[k] == a[k]);
            } else {
                assert(c[k] == b[k - a.len()]);
            }
        }
        if selected_docs(a, o).contains(d) {
            let k = choose|k: int| 0 <= k < a.len() && crate::search::selects(o, #[trigger] a[k]) && a[k].docs.contains(d);
            assert(c[k] == a[k]);
        }
        if selected_docs(b, o).contains(d) {
            let k = choose|k: int| 0 <= k < b.len() && crate::search::selects(o, #[trigger] b[k]) && b[k].docs.contains(d);
            assert(c[k + a.len()] == b[k]);
        }
    }
    assert(selected_docs(c, o) =~= selected_docs(a, o).union(selected_docs(b, o)));
}

proof fn lemma_cell(ix: InvertedIndex, w: Seq<char>, g: Seq<char>, f: Seq<char>, d: Seq<char>)
    requires
        ix.wf(),
    ensures
        in_field(cell(ix, w, g), f) == (g == f && ix.has_field(w, f)),
        selected_docs(cell(ix, w, g), Some(f)).contains(d) == (g == f && ix.has_doc(w, f, d)),
        selected_docs(cell(ix, w, g), None).contains(d) == ix.has_doc(w, g, d),
{
    let c = cell(ix, w, g);
    if ix.has_field(w, g) || ix.has_doc(w, g, d) {
        let (i, k) = if ix.has_field(w, g) {
            choose|i: int, k: int|
                0 <= i < ix.entries@.len() && ix.entries@[i].0@ == w && 0 <= k < ix.entries@[i].1.fields@.len()
                    && (#[trigger] ix.entries@[i].1.fields@[k]).field@ == g
        } else {
            choose|i: int, k: int|
                0 <= i < ix.entries@.len() && ix.entries@[i].0@ == w && 0 <= k < ix.entries@[i].1.fields@.len()
                    && (#[trigger] ix.entries@[i].1.fields@[k]).field@ == g && strings_view(
                    ix.entries@[i].1.fields@[k].document_refs@,
                ).contains(d)
        };
        assert(ix.entries@[i].0@ == w);
        let i2 = entry_of(ix, w)->0;
        if i2 != i {
            if i2 < i {
                assert(ix.entries@[i2].0@ != ix.entries@[i].0@);
            } else {
                assert(ix.entries@[i].0@ != ix.entries@[i2].0@);
            }
        }
        let p = ix.entries@[i].1;
        assert(p.wf());
        assert(p.fields@[k].field@ == g);
        let k2 = field_of(p, g)->0;
        if k2 != k {
            if k2 < k {
                assert(p.fields@[k2].field@ != p.fields@[k].field@);
            } else {
                assert(p.fields@[k].field@ != p.fields@[k2].field@);
            }
        }
        assert(c == seq![PostingsModel { field: g, docs: strings_view(p.fields@[k].document_refs@) }]);
        assert(c[0].field == g);
        assert(ix.has_field(w, g));
        if g == f {
            assert(in_field(c, f));
        }
        if strings_view(p.fields@[k].document_refs@).contains(d) {
            assert(crate::search::selects(None, c[0]));
            assert(selected_docs(c, None).contains(d));
            if g == f {
                assert(crate::search::selects(Some(f), c[0]));
                assert(selected_docs(c, Some(f)).contains(d));
            }
        }
        if selected_docs(c, None).contains(d) {
            assert(ix.has_doc(w, g, d));
        }
    } else {
        if entry_of(ix, w) is Some {
            let i = entry_of(ix, w)->0;
            let p = ix.entries@[i].1;
            if field_of(p, g) is Some {
                let k = field_of(p, g)->0;
                assert(ix.has_field(w, g));
            }
        }
        assert(c.len() == 0);
    }
}

proof fn lemma_row(ix: InvertedIndex, w: Seq<char>, fs: Seq<Seq<char>>, f: Seq<char>, d: Seq<char>)
    requires
        ix.wf(),
    ensures
        in_field(row(ix, w, fs), f) == (fs.contains(f) && ix.has_field(w, f)),
        selected_docs(row(ix, w, fs), Some(f)).contains(d) == (fs.contains(f) && ix.has_doc(w, f, d)),
        selected_docs(row(ix, w, fs), None).contains(d) == (exists|g: Seq<char>| fs.contains(g) && #[trigger] ix.has_doc(w, g, d)),
    decreases fs.len(),
{
    if fs.len() > 0 {
        let t = fs.drop_last();
        let g = fs.last();
        lemma_row(ix, w, t, f, d);
        lemma_cell(ix, w, g, f, d);
        lemma_concat(row(ix, w, t), cell(ix, w, g), f, Some(f));
        lemma_concat(row(ix, w, t), cell(ix, w, g), f, None);
        assert(fs.contains(f) == (t.contains(f) || g == f)) by {
            if fs.contains(f) {
                let j = choose|j: int| 0 <= j < fs.len() && fs[j] == f;
                if j < t.len() {
                    assert(t[j] == f);
                }
            }
            if t.contains(f) {
                let j = choose|j: int| 0 <= j < t.len() && t[j] == f;
                assert(fs[j] == f);
            }
            if g == f {
                assert(fs[fs.len() - 1] == f);
            }
        }
        if exists|h: Seq<char>| fs.contains(h) && #[trigger] ix.has_doc(w, h, d) {
            let h = choose|h: Seq<char>| fs.contains(h) && #[trigger] ix.has_doc(w, h, d);
            let j = choose|j: int| 0 <= j < fs.len() && fs[j] == h;
            if j < t.len() {
                assert(t[j] == h);
                assert(t.contains(h));
            }
        }
        if exists|h: Seq<char>| t.contains(h) && #[trigger] ix.has_doc(w, h, d) {
            let h = choose|h: Seq<char>| t.contains(h) && #[trigger] ix.has_doc(w, h, d);
            let j = choose|j: int| 0 <= j < t.len() && t[j] == h;
            assert(fs[j] == h);
        }
        if ix.has_doc(w, g, d) {
            assert(fs[fs.len() - 1] == g);
            assert(fs.contains(g));
        }
    }
}

/// What the loops collect, read as sets: a field among `fs` in which some word
/// of `ws` has postings, and the documents of those postings.
proof fn lemma_collected(ix: InvertedIndex, ws: Seq<Seq<char>>, fs: Seq<Seq<char>>, f: Seq<char>, d: Seq<char>)
    requires
        ix.wf(),
    ensures
        in_field(collected(ix, ws, fs), f) == (fs.contains(f) && exists|a: int| 0 <= a < ws.len() && ix.has_field(#[trigger] ws[a], f)),
        selected_docs(collected(ix, ws, fs), Some(f)).contains(d) == (fs.contains(f) && exists|a: int|
            0 <= a < ws.len() && ix.has_doc(#[trigger] ws[a], f, d)),
        selected_docs(collected(ix, ws, fs), None).contains(d) == (exists|a: int, g: Seq<char>|
            0 <= a < ws.len() && fs.contains(g) && #[trigger] ix.has_doc(ws[a], g, d)),
    decreases ws.len(),
{
    if ws.len() > 0 {
        let t = ws.drop_last();
        let w = ws.last();
        lemma_collected(ix, t, fs, f, d);
        lemma_row(ix, w, fs, f, d);
        lemma_concat(collected(ix, t, fs), row(ix, w, fs), f, Some(f));
        lemma_concat(collected(ix, t, fs), row(ix, w, fs), f, None);
        assert(ws[ws.len() - 1] == w);
        if exists|a: int| 0 <= a < ws.len() && ix.has_field(#[trigger] ws[a], f) {
            let a = choose|a: int| 0 <= a < ws.len() && ix.has_field(#[trigger] ws[a], f);
            if a < t.len() {
                assert(t[a] == ws[a]);
            }
        }
        if exists|a: int| 0 <= a < t.len() && ix.has_field(#[trigger] t[a], f) {
            let a = choose|a: int| 0 <= a < t.len() && ix.has_field(#[trigger] t[a], f);
            assert(ws[a] == t[a]);
        }
        if exists|a: int| 0 <= a < ws.len() && ix.has_doc(#[trigger] ws[a], f, d) {
            let a = choose|a: int| 0 <= a < ws.len() && ix.has_doc(#[trigger] ws[a], f, d);
            if a < t.len() {
                assert(t[a] == ws[a]);
            }
        }
        if exists|a: int| 0 <= a < t.len() && ix.has_doc(#[trigger] t[a], f, d) {
            let a = choose|a: int| 0 <= a < t.len() && ix.has_doc(#[trigger] t[a], f, d);
            assert(ws[a] == t[a]);
        }
        if exists|a: int, g: Seq<char>| 0 <= a < ws.len() && fs.contains(g) && #[trigger] ix.has_doc(ws[a], g, d) {
            let (a, g) = choose|a: int, g: Seq<char>| 0 <= a < ws.len() && fs.contains(g) && #[trigger] ix.has_doc(ws[a], g, d);
            if a < t.len() {
                assert(t[a] == ws[a]);
            } else {
                assert(exists|h: Seq<char>| fs.contains(h) && #[trigger] ix.has_doc(w, h, d));
            }
        }
        if exists|a: int, g: Seq<char>| 0 <= a < t.len() && fs.contains(g) && #[trigger] ix.has_doc(t[a], g, d) {
            let (a, g) = choose|a: int, g: Seq<char>| 0 <= a < t.len() && fs.contains(g) && #[trigger] ix.has_doc(t[a], g, d);
            assert(ws[a] == t[a]);
        }
        if exists|h: Seq<char>| fs.contains(h) && #[trigger] ix.has_doc(w, h, d) {
            let h = choose|h: Seq<char>| fs.contains(h) && #[trigger] ix.has_doc(w, h, d);
            assert(ix.has_doc(ws[ws.len() - 1], h, d));
        }
    }
}

/// Whether `w` is among the words that term `t` expands to in `set`.
pub open spec fn expands(set: TokenSet, t: Seq<char>, ed: Option<usize>, w: Seq<char>) -> bool {
    w.len() > 0 && set.words().contains(w) && term_matches(t, ed, w)
}

/// What a clause's lookup holds for term `t`: `None` exactly where `t`
/// expands to no word of `set`; otherwise postings whose fields are the
/// clause's fields `fs` in which an expansion has postings in the index,
/// with the documents of those postings.
pub open spec fn term_fits(
    ix: InvertedIndex,
    set: TokenSet,
    t: Seq<char>,
    fs: Seq<Seq<char>>,
    ed: Option<usize>,
    r: Option<Seq<PostingsModel>>,
) -> bool {
    &&& r is None <==> !exists|w: Seq<char>| #[trigger] expands(set, t, ed, w)
    &&& r is Some ==> forall|f: Seq<char>|
        #[trigger] in_field(r->0, f) == (fs.contains(f) && exists|w: Seq<char>| expands(set, t, ed, w) && #[trigger] ix.has_field(w, f))
    &&& r is Some ==> forall|f: Seq<char>, d: Seq<char>|
        #[trigger] selected_docs(r->0, Some(f)).contains(d) == (fs.contains(f) && exists|w: Seq<char>|
            expands(set, t, ed, w) && #[trigger] ix.has_doc(w, f, d))
    &&& r is Some ==> forall|d: Seq<char>|
        #[trigger] selected_docs(r->0, None).contains(d) == (exists|w: Seq<char>, g: Seq<char>|
            expands(set, t, ed, w) && fs.contains(g) && #[trigger] ix.has_doc(w, g, d))
}

proof fn lemma_entry_of(ix: InvertedIndex, w: Seq<char>, i: int)
    requires
        ix.wf(),
        0 <= i < ix.entries@.len(),
        ix.entries@[i].0@ == w,
    ensures
        entry_of(ix, w) == Some(i),
{
    let j = entry_of(ix, w)->0;
    if j < i {
        assert(ix.entries@[j].0@ != ix.entries@[i].0@);
    } else if i < j {
        assert(ix.entries@[i].0@ != ix.entries@[j].0@);
    }
}

proof fn lemma_field_of(p: Posting, f: Seq<char>, k: int)
    requires
        p.wf(),
        0 <= k < p.fields@.len(),
        p.fields@[k].field@ == f,
    ensures
        field_of(p, f) == Some(k),
{
    let j = field_of(p, f)->0;
    if j < k {
        assert(p.fields@[j].field@ != p.fields@[k].field@);
    } else if k < j {
        assert(p.fields@[k].field@ != p.fields@[j].field@);
    }
}

impl InvertedIndex {
    /// What the index holds for the term `term` of a clause searched in
    /// `fields`: `None` where it expands to no word of `set`; otherwise, for
    /// each expansion and each of the fields in which it has postings, that
    /// field and the documents.
    pub fn term_lookup(
        &self,
        set: &TokenSet,
        term: &str,
        fields: &Vec<String>,
        edit_distance: Option<usize>,
        wildcard: u8,
    ) -> (r: Option<Vec<FieldPostings>>)
        requires
            self.wf(),
            set.wf(),
            set.is_acyclic(),
            set.has_no_wildcards(),
            edit_distance is Some ==> is_ascii_chars(term@),
        ensures
            term_fits(*self, *set, term@, strings_view(fields@), edit_distance, term_model(r)),
    {
        let exp = expand_term(set, term, edit_distance, wildcard);
        let ghost ws = strings_view(exp@);
        let ghost fs = strings_view(fields@);
        if exp.len() == 0 {
            proof {
                assert forall|w: Seq<char>| !#[trigger] expands(*set, term@, edit_distance, w) by {
                    if expands(*set, term@, edit_distance, w) {
                        assert(ws.contains(w));
                    }
                }
            }
            return None;
        }
        let mut ps: Vec<FieldPostings> = Vec::new();
        let mut a: usize = 0;
        proof {
            assert(crate::search::postings_model(ps@) =~= collected(*self, ws.take(0), fs));
        }
        while a < exp.len()
            invariant
                self.wf(),
                ws == strings_view(exp@),
                fs == strings_view(fields@),
                0 <= a <= exp@.len(),
                crate::search::postings_model(ps@) == collected(*self, ws.take(a as int), fs),
            decreases exp.len() - a,
        {
            let entry = self.find_entry(exp[a].as_str());
            let ghost before = crate::search::postings_model(ps@);
            let ghost w = ws[a as int];
            proof {
                assert(w == exp@[a as int]@);
                match entry {
                    Some(i) => lemma_entry_of(*self, w, i as int),
                    None => {
                        assert(!exists|i: int| 0 <= i < self.entries@.len() && (#[trigger] self.entries@[i]).0@ == w);
                    },
                }
                assert(before + row(*self, w, fs.take(0)) =~= before);
            }
            let mut b: usize = 0;
            while b < fields.len()
                invariant
                    self.wf(),
                    fs == strings_view(fields@),
                    0 <= b <= fields@.len(),
                    entry matches Some(i) ==> entry_of(*self, w) == Some(i as int) && i < self.entries@.len(),
                    entry is None ==> entry_of(*self, w) is None,
                    crate::search::postings_model(ps@) == before + row(*self, w, fs.take(b as int)),
                decreases fields.len() - b,
            {
                let ghost mid = crate::search::postings_model(ps@);
                let ghost f = fs[b as int];
                proof {
                    assert(f == fields@[b as int]@);
                    assert(fs.take(b + 1).drop_last() =~= fs.take(b as int));
                    assert(fs.take(b + 1).last() == f);
                }
                match entry {
                    Some(i) => {
                        let p = &self.entries[i].1;
                        match find_field(p, fields[b].as_str()) {
                            Some(k) => {
                                proof {
                                    assert(p.wf());
                                    lemma_field_of(*p, f, k as int);
                                }
                                let fp = FieldPostings {
                                    field: fields[b].clone(),
                                    document_refs: copy_strings(&p.fields[k].document_refs),
                                };
                                ps.push(fp);
                                proof {
                                    assert(crate::search::postings_model(ps@) =~= mid.push(fp.model()));
                                    assert(cell(*self, w, f) == seq![fp.model()]);
                                    assert(before + row(*self, w, fs.take(b + 1)) =~= mid + seq![fp.model()]);
                                }
                            },
                            None => {
                                proof {
                                    assert(!exists|k: int| 0 <= k < p.fields@.len() && (#[trigger] p.fields@[k]).field@ == f);
                                    assert(cell(*self, w, f) =~= Seq::<PostingsModel>::empty());
                                    assert(before + row(*self, w, fs.take(b + 1)) =~= mid);
                                }
                            },
                        }
                    },
                    None => {
                        proof {
                            assert(cell(*self, w, f) =~= Seq::<PostingsModel>::empty());
                            assert(before + row(*self, w, fs.take(b + 1)) =~= mid);
                        }
                    },
                }
                b = b + 1;
            }
            proof {
                assert(fs.take(fs.len() as int) =~= fs);
                assert(ws.take(a + 1).drop_last() =~= ws.take(a as int));
                assert(ws.take(a + 1).last() == w);
            }
            a = a + 1;
        }
        proof {
            assert(ws.take(ws.len() as int) =~= ws);
            let r = crate::search::postings_model(ps@);
            assert forall|f: Seq<char>|
                #[trigger] in_field(r, f) == (fs.contains(f) && exists|w: Seq<char>|
                    expands(*set, term@, edit_distance, w) && #[trigger] self.has_field(w, f)) by {
                lemma_collected(*self, ws, fs, f, Seq::empty());
                if exists|q: int| 0 <= q < ws.len() && self.has_field(#[trigger] ws[q], f) {
                    let q = choose|q: int| 0 <= q < ws.len() && self.has_field(#[trigger] ws[q], f);
                    assert(ws.contains(ws[q]));
                    assert(expands(*set, term@, edit_distance, ws[q]));
                }
                if exists|w: Seq<char>| expands(*set, term@, edit_distance, w) && #[trigger] self.has_field(w, f) {
                    let w = choose|w: Seq<char>| expands(*set, term@, edit_distance, w) && #[trigger] self.has_field(w, f);
                    assert(ws.contains(w));
                    let q = choose|q: int| 0 <= q < ws.len() && ws[q] == w;
                    assert(self.has_field(ws[q], f));
                }
            }
            assert forall|f: Seq<char>, d: Seq<char>|
                #[trigger] selected_docs(r, Some(f)).contains(d) == (fs.contains(f) && exists|w: Seq<char>|
                    expands(*set, term@, edit_distance, w) && #[trigger] self.has_doc(w, f, d)) by {
                lemma_collected(*self, ws, fs, f, d);
                if exists|q: int| 0 <= q < ws.len() && self.has_doc(#[trigger] ws[q], f, d) {
                    let q = choose|q: int| 0 <= q < ws.len() && self.has_doc(#[trigger] ws[q], f, d);
                    assert(ws.contains(ws[q]));
                    assert(expands(*set, term@, edit_distance, ws[q]));
                }
                if exists|w: Seq<char>| expands(*set, term@, edit_distance, w) && #[trigger] self.has_doc(w, f, d) {
                    let w = choose|w: Seq<char>| expands(*set, term@, edit_distance, w) && #[trigger] self.has_doc(w, f, d);
                    assert(ws.contains(w));
                    let q = choose|q: int| 0 <= q < ws.len() && ws[q] == w;
                    assert(self.has_doc(ws[q], f, d));
                }
            }
            assert forall|d: Seq<char>|
                #[trigger] selected_docs(r, None).contains(d) == (exists|w: Seq<char>, g: Seq<char>|
                    expands(*set, term@, edit_distance, w) && fs.contains(g) && #[trigger] self.has_doc(w, g, d)) by {
                lemma_collected(*self, ws, fs, Seq::empty(), d);
                if exists|q: int, g: Seq<char>| 0 <= q < ws.len() && fs.contains(g) && #[trigger] self.has_doc(ws[q], g, d) {
                    let (q, g) = choose|q: int, g: Seq<char>| 0 <= q < ws.len() && fs.contains(g) && #[trigger] self.has_doc(ws[q], g, d);
                    assert(ws.contains(ws[q]));
                    assert(expands(*set, term@, edit_distance, ws[q]));
                }
                if exists|w: Seq<char>, g: Seq<char>| expands(*set, term@, edit_distance, w) && fs.contains(g) && #[trigger] self.has_doc(w, g, d) {
                    let (w, g) = choose|w: Seq<char>, g: Seq<char>| expands(*set, term@, edit_distance, w) && fs.contains(g) && #[trigger] self.has_doc(w, g, d);
                    assert(ws.contains(w));
                    let q = choose|q: int| 0 <= q < ws.len() && ws[q] == w;
                    assert(self.has_doc(ws[q], g, d));
                }
            }
            assert(ws.contains(ws[0]));
            assert(expands(*set, term@, edit_distance, ws[0]));
        }
        Some(ps)
    }
}

/// The terms a clause searches: what the pipeline makes of its term where
/// the clause uses the pipeline, otherwise the term itself.
pub open spec fn clause_terms(fns: Seq<PipelineFunction>, c: ClauseModel) -> Seq<Seq<char>> {
    if c.use_pipeline {
        run_functions(fns, seq![TokenModel { term: c.term, metadata: Seq::empty() }]).map_values(
            |t: TokenModel| t.term,
        )
    } else {
        seq![c.term]
    }
}

/// The lookup `l` of clause `c` whose terms are `ts`: the clause's presence
/// and fields, and for each term what `term_fits` says.
pub open spec fn lookup_fits(ix: InvertedIndex, set: TokenSet, c: ClauseModel, ts: Seq<Seq<char>>, l: LookupModel) -> bool {
    &&& l.presence == c.presence
    &&& l.fields == c.fields
    &&& l.terms.len() == ts.len()
    &&& forall|j: int| 0 <= j < ts.len() ==> #[trigger] term_fits(ix, set, ts[j], c.fields, c.edit_distance, l.terms[j])
}

/// Every term is ASCII where the clause allows edits.
pub open spec fn fuzzy_terms_ascii(c: ClauseModel, ts: Seq<Seq<char>>) -> bool {
    c.edit_distance is Some ==> forall|j: int| 0 <= j < ts.len() ==> is_ascii_chars(#[trigger] ts[j])
}

impl InvertedIndex {
    /// What the index holds for a clause whose terms are `terms`.
    pub fn clause_lookup(&self, set: &TokenSet, clause: &Clause, terms: &Vec<String>) -> (r: ClauseLookup)
        requires
            self.wf(),
            set.wf(),
            set.is_acyclic(),
            set.has_no_wildcards(),
            fuzzy_terms_ascii(clause.model(), strings_view(terms@)),
        ensures
            lookup_fits(*self, *set, clause.model(), strings_view(terms@), r.model()),
    {
        let ghost ts = strings_view(terms@);
        let mut out: Vec<Option<Vec<FieldPostings>>> = Vec::new();
        let mut j: usize = 0;
        while j < terms.len()
            invariant
                self.wf(),
                set.wf(),
                set.is_acyclic(),
                set.has_no_wildcards(),
                ts == strings_view(terms@),
                fuzzy_terms_ascii(clause.model(), ts),
                0 <= j <= terms@.len(),
                out@.len() == j,
                forall|q: int|
                    0 <= q < j ==> #[trigger] term_fits(
                        *self,
                        *set,
                        ts[q],
                        strings_view(clause.fields@),
                        clause.edit_distance,
                        term_model(out@[q]),
                    ),
            decreases terms.len() - j,
        {
            proof {
                assert(ts[j as int] == terms@[j as int]@);
            }
            let t = self.term_lookup(set, terms[j].as_str(), &clause.fields, clause.edit_distance, clause.wildcard);
            out.push(t);
            j = j + 1;
        }
        let r = ClauseLookup { presence: clause.presence, fields: copy_strings(&clause.fields), terms: out };
        proof {
            let tm = r.terms@.map_values(|t: Option<Vec<FieldPostings>>| term_model(t));
            assert forall|q: int| 0 <= q < ts.len() implies #[trigger] term_fits(
                *self,
                *set,
                ts[q],
                clause.model().fields,
                clause.model().edit_distance,
                r.model().terms[q],
            ) by {
                assert(r.model().terms[q] == term_model(out@[q]));
            }
        }
        r
    }

    /// What the index holds for each clause of a query, each clause's terms
    /// being what `pipeline` makes of its term where the clause uses the
    /// pipeline, otherwise the term itself.
    pub fn lookup_query(&self, set: &TokenSet, pipeline: &Pipeline, query: &Query) -> (r: Vec<ClauseLookup>)
        requires
            self.wf(),
            set.wf(),
            set.is_acyclic(),
            set.has_no_wildcards(),
            forall|i: int|
                0 <= i < query.clauses@.len() ==> #[trigger] fuzzy_terms_ascii(
                    query.clauses@[i].model(),
                    clause_terms(pipeline.functions(), query.clauses@[i].model()),
                ),
        ensures
            r@.len() == query.clauses@.len(),
            forall|i: int|
                0 <= i < query.clauses@.len() ==> #[trigger] lookup_fits(
                    *self,
                    *set,
                    query.clauses@[i].model(),
                    clause_terms(pipeline.functions(), query.clauses@[i].model()),
                    r@[i].model(),
                ),
    {
        let mut out: Vec<ClauseLookup> = Vec::new();
        let mut i: usize = 0;
        while i < query.clauses.len()
            invariant
                self.wf(),
                set.wf(),
                set.is_acyclic(),
                set.has_no_wildcards(),
                forall|k: int|
                    0 <= k < query.clauses@.len() ==> #[trigger] fuzzy_terms_ascii(
                        query.clauses@[k].model(),
                        clause_terms(pipeline.functions(), query.clauses@[k].model()),
                    ),
                0 <= i <= query.clauses@.len(),
                out@.len() == i,
                forall|k: int|
                    0 <= k < i ==> #[trigger] lookup_fits(
                        *self,
                        *set,
                        query.clauses@[k].model(),
                        clause_terms(pipeline.functions(), query.clauses@[k].model()),
                        out@[k].model(),
                    ),
            decreases query.clauses.len() - i,
        {
            let c = &query.clauses[i];
            let terms: Vec<String> = if c.use_pipeline {
                pipeline.run_string(c.term.as_str())
            } else {
                let mut v: Vec<String> = Vec::new();
                v.push(c.term.clone());
                proof {
                    assert(strings_view(v@) =~= seq![c.term@]);
                }
                v
            };
            proof {
                assert(strings_view(terms@) == clause_terms(pipeline.functions(), c.model()));
                assert(fuzzy_terms_ascii(query.clauses@[i as int].model(), clause_terms(pipeline.functions(), query.clauses@[i as int].model())));
            }
            let l = self.clause_lookup(set, c, &terms);
            out.push(l);
            proof {
                assert forall|k: int|
                    0 <= k < i + 1 implies #[trigger] lookup_fits(
                        *self,
                        *set,
                        query.clauses@[k].model(),
                        clause_terms(pipeline.functions(), query.clauses@[k].model()),
                        out@[k].model(),
                    ) by {

                }
            }
            i = i + 1;
        }
        out
    }
}

impl InvertedIndex {
    /// Which documents a query admits over this index, whose fields are
    /// `fields`, together with what the index holds for each clause.
    pub fn query_filter(&self, set: &TokenSet, pipeline: &Pipeline, fields: &Vec<String>, query: &Query) -> (r: (
        Vec<ClauseLookup>,
        DocumentFilter,
    ))
        requires
            self.wf(),
            set.wf(),
            set.is_acyclic(),
            set.has_no_wildcards(),
            forall|i: int|
                0 <= i < query.clauses@.len() ==> #[trigger] fuzzy_terms_ascii(
                    query.clauses@[i].model(),
                    clause_terms(pipeline.functions(), query.clauses@[i].model()),
                ),
        ensures
            r.0@.len() == query.clauses@.len(),
            forall|i: int|
                0 <= i < query.clauses@.len() ==> #[trigger] lookup_fits(
                    *self,
                    *set,
                    query.clauses@[i].model(),
                    clause_terms(pipeline.functions(), query.clauses@[i].model()),
                    r.0@[i].model(),
                ),
            r.1.required() == required_docs(strings_view(fields@), lookups_model(r.0@)),
            r.1.prohibited() == excluded_docs(strings_view(fields@), lookups_model(r.0@)),
    {
        let lookups = self.lookup_query(set, pipeline, query);
        let filter = DocumentFilter::from_lookups(fields, &lookups);
        (lookups, filter)
    }
}

/// Some field posting of `p` is in field `f`.
pub open spec fn posting_has_field(p: Posting, f: Seq<char>) -> bool {
    exists|k: int| 0 <= k < p.fields@.len() && (#[trigger] p.fields@[k]).field@ == f
}

/// Some field posting of `p` in field `f` holds document `d`.
pub open spec fn posting_has_doc(p: Posting, f: Seq<char>, d: Seq<char>) -> bool {
    exists|k: int|
        0 <= k < p.fields@.len() && (#[trigger] p.fields@[k]).field@ == f && strings_view(p.fields@[k].document_refs@).contains(d)
}

/// Replacing the posting of entry `i`, the word of `term`, by one that holds
/// one field and document more.
proof fn lemma_replace_posting(
    old_ix: InvertedIndex,
    ix: InvertedIndex,
    i: int,
    term: Seq<char>,
    field: Seq<char>,
    doc: Seq<char>,
)
    requires
        old_ix.wf(),
        0 <= i < old_ix.entries@.len(),
        old_ix.entries@[i].0@ == term,
        ix.entries@.len() == old_ix.entries@.len(),
        ix.entries@[i].0@ == term,
        forall|j: int| 0 <= j < ix.entries@.len() && j != i ==> #[trigger] ix.entries@[j] == old_ix.entries@[j],
        ix.entries@[i].1.wf(),
        forall|f: Seq<char>|
            #[trigger] posting_has_field(ix.entries@[i].1, f) == (posting_has_field(old_ix.entries@[i].1, f) || f == field),
        forall|f: Seq<char>, d: Seq<char>|
            #[trigger] posting_has_doc(ix.entries@[i].1, f, d) == (posting_has_doc(old_ix.entries@[i].1, f, d) || (f
                == field && d == doc)),
    ensures
        ix.wf(),
        forall|w: Seq<char>, f: Seq<char>|
            #[trigger] ix.has_field(w, f) == (old_ix.has_field(w, f) || (w == term && f == field)),
        forall|w: Seq<char>, f: Seq<char>, d: Seq<char>|
            #[trigger] ix.has_doc(w, f, d) == (old_ix.has_doc(w, f, d) || (w == term && f == field && d == doc)),
{
    let np = ix.entries@[i].1;
    let op = old_ix.entries@[i].1;
    assert forall|a: int, b: int|
        0 <= a < b < ix.entries@.len() implies (#[trigger] ix.entries@[a]).0@ != (#[trigger] ix.entries@[b]).0@ by {
        assert(old_ix.entries@[a].0@ != old_ix.entries@[b].0@);
    }
    assert forall|j: int| 0 <= j < ix.entries@.len() implies (#[trigger] ix.entries@[j]).1.wf() by {
        if j != i {
            assert(old_ix.entries@[j].1.wf());
        }
    }
    assert forall|w: Seq<char>, f: Seq<char>|
        #[trigger] ix.has_field(w, f) == (old_ix.has_field(w, f) || (w == term && f == field)) by {
        if ix.has_field(w, f) {
            let (j, k) = choose|j: int, k: int|
                0 <= j < ix.entries@.len() && ix.entries@[j].0@ == w && 0 <= k < ix.entries@[j].1.fields@.len()
                    && (#[trigger] ix.entries@[j].1.fields@[k]).field@ == f;
            if j == i {
                assert(posting_has_field(np, f));
                if posting_has_field(op, f) {
                    let k2 = choose|k2: int| 0 <= k2 < op.fields@.len() && (#[trigger] op.fields@[k2]).field@ == f;
                    assert(old_ix.entries@[i].1.fields@[k2].field@ == f);
                }
            } else {
                assert(old_ix.entries@[j].1.fields@[k].field@ == f);
            }
        }
        if old_ix.has_field(w, f) {
            let (j, k) = choose|j: int, k: int|
                0 <= j < old_ix.entries@.len() && old_ix.entries@[j].0@ == w && 0 <= k < old_ix.entries@[j].1.fields@.len()
                    && (#[trigger] old_ix.entries@[j].1.fields@[k]).field@ == f;
            if j == i {
                assert(posting_has_field(op, f));
                assert(posting_has_field(np, f));
                let k2 = choose|k2: int| 0 <= k2 < np.fields@.len() && (#[trigger] np.fields@[k2]).field@ == f;
                assert(ix.entries@[i].1.fields@[k2].field@ == f);
            } else {
                assert(ix.entries@[j].1.fields@[k].field@ == f);
            }
        }
        if w == term && f == field {
            assert(posting_has_field(np, f));
            let k2 = choose|k2: int| 0 <= k2 < np.fields@.len() && (#[trigger] np.fields@[k2]).field@ == f;
            assert(ix.entries@[i].1.fields@[k2].field@ == f);
        }
    }
    assert forall|w: Seq<char>, f: Seq<char>, d: Seq<char>|
        #[trigger] ix.has_doc(w, f, d) == (old_ix.has_doc(w, f, d) || (w == term && f == field && d == doc)) by {
        if ix.has_doc(w, f, d) {
            let (j, k) = choose|j: int, k: int|
                0 <= j < ix.entries@.len() && ix.entries@[j].0@ == w && 0 <= k < ix.entries@[j].1.fields@.len()
                    && (#[trigger] ix.entries@[j].1.fields@[k]).field@ == f && strings_view(
                    ix.entries@[j].1.fields@[k].document_refs@,
                ).contains(d);
            if j == i {
                assert(posting_has_doc(np, f, d));
                if posting_has_doc(op, f, d) {
                    let k2 = choose|k2: int|
                        0 <= k2 < op.fields@.len() && (#[trigger] op.fields@[k2]).field@ == f && strings_view(
                            op.fields@[k2].document_refs@,
                        ).contains(d);
                    assert(old_ix.entries@[i].1.fields@[k2].field@ == f);
                }
            } else {
                assert(old_ix.entries@[j].1.fields@[k].field@ == f);
            }
        }
        if old_ix.has_doc(w, f, d) {
            let (j, k) = choose|j: int, k: int|
                0 <= j < old_ix.entries@.len() && old_ix.entries@[j].0@ == w && 0 <= k < old_ix.entries@[j].1.fields@.len()
                    && (#[trigger] old_ix.entries@[j].1.fields@[k]).field@ == f && strings_view(
                    old_ix.entries@[j].1.fields@[k].document_refs@,
                ).contains(d);
            if j == i {
                assert(posting_has_doc(op, f, d));
                assert(posting_has_doc(np, f, d));
                let k2 = choose|k2: int|
                    0 <= k2 < np.fields@.len() && (#[trigger] np.fields@[k2]).field@ == f && strings_view(
                        np.fields@[k2].document_refs@,
                    ).contains(d);
                assert(ix.entries@[i].1.fields@[k2].field@ == f);
            } else {
                assert(ix.entries@[j].1.fields@[k].field@ == f);
            }
        }
        if w == term && f == field && d == doc {
            assert(posting_has_doc(np, f, d));
            let k2 = choose|k2: int|
                0 <= k2 < np.fields@.len() && (#[trigger] np.fields@[k2]).field@ == f && strings_view(
                    np.fields@[k2].document_refs@,
                ).contains(d);
            assert(ix.entries@[i].1.fields@[k2].field@ == f);
        }
    }
}

fn copy_field_postings(fp: &FieldPostings) -> (r: FieldPostings)
    ensures
        r.field@ == fp.field@,
        strings_view(r.document_refs@) == strings_view(fp.document_refs@),
{
    FieldPostings { field: fp.field.clone(), document_refs: copy_strings(&fp.document_refs) }
}

fn copy_posting(p: &Posting) -> (r: Posting)
    ensures
        r.index == p.index,
        r.fields@.len() == p.fields@.len(),
        forall|k: int|
            0 <= k < p.fields@.len() ==> (#[trigger] r.fields@[k]).field@ == p.fields@[k].field@ && strings_view(
                r.fields@[k].document_refs@,
            ) == strings_view(p.fields@[k].document_refs@),
{
    let mut fields: Vec<FieldPostings> = Vec::new();
    let mut k: usize = 0;
    while k < p.fields.len()
        invariant
            0 <= k <= p.fields@.len(),
            fields@.len() == k,
            forall|j: int|
                0 <= j < k ==> (#[trigger] fields@[j]).field@ == p.fields@[j].field@ && strings_view(
                    fields@[j].document_refs@,
                ) == strings_view(p.fields@[j].document_refs@),
        decreases p.fields.len() - k,
    {
        fields.push(copy_field_postings(&p.fields[k]));
        k = k + 1;
    }
    Posting { index: p.index, fields }
}

fn one_doc(field: &str, doc: &str) -> (r: FieldPostings)
    ensures
        r.field@ == field@,
        strings_view(r.document_refs@) == seq![doc@],
{
    let mut docs: Vec<String> = Vec::new();
    docs.push(doc.to_owned());
    proof {
        assert(strings_view(docs@) =~= seq![doc@]);
    }
    FieldPostings { field: field.to_owned(), document_refs: docs }
}

impl InvertedIndex {
    /// An index without words.
    pub fn new() -> (r: InvertedIndex)
        ensures
            r.wf(),
            r.is_numbered(),
            r.entries@.len() == 0,
    {
        InvertedIndex { entries: Vec::new() }
    }

    /// Records that `term` occurs in field `field` of document `doc`.
    pub fn add_posting(&mut self, term: &str, field: &str, doc: &str)
        requires
            old(self).wf(),
        ensures
            final(self).wf(),
            forall|w: Seq<char>, f: Seq<char>|
                #[trigger] final(self).has_field(w, f) == (old(self).has_field(w, f) || (w == term@ && f == field@)),
            forall|w: Seq<char>, f: Seq<char>, d: Seq<char>|
                #[trigger] final(self).has_doc(w, f, d) == (old(self).has_doc(w, f, d) || (w == term@ && f == field@
                    && d == doc@)),
            forall|i: int|
                0 <= i < old(self).entries@.len() ==> (#[trigger] final(self).entries@[i]).0@ == old(self).entries@[i].0@
                    && final(self).entries@[i].1.index == old(self).entries@[i].1.index,
            entry_of(*old(self), term@) is Some ==> final(self).entries@.len() == old(self).entries@.len(),
            entry_of(*old(self), term@) is None ==> final(self).entries@.len() == old(self).entries@.len() + 1
                && final(self).entries@[old(self).entries@.len() as int].0@ == term@
                && final(self).entries@[old(self).entries@.len() as int].1.index == old(self).entries@.len(),
            old(self).is_numbered() ==> final(self).is_numbered(),
    {
        let ghost old_ix = *self;
        match self.find_entry(term) {
            None => {
                let mut fields: Vec<FieldPostings> = Vec::new();
                let fp = one_doc(field, doc);
                fields.push(fp);
                let p = Posting { index: self.entries.len(), fields };
                self.entries.push((term.to_owned(), p));
                proof {
                    let n = old_ix.entries@.len() as int;
                    assert(self.entries@[n].0@ == term@);
                    assert(self.entries@[n].1.fields@[0] == fp);
                    assert forall|i: int| 0 <= i < n implies #[trigger] self.entries@[i] == old_ix.entries@[i] by {}
                    assert forall|w: Seq<char>, f: Seq<char>|
                        #[trigger] self.has_field(w, f) == (old_ix.has_field(w, f) || (w == term@ && f == field@)) by {
                        if self.has_field(w, f) {
                            let (i, k) = choose|i: int, k: int|
                                0 <= i < self.entries@.len() && self.entries@[i].0@ == w && 0 <= k
                                    < self.entries@[i].1.fields@.len() && (#[trigger] self.entries@[i].1.fields@[k]).field@ == f;
                            if i < n {
                                assert(old_ix.entries@[i].1.fields@[k].field@ == f);
                            }
                        }
                        if old_ix.has_field(w, f) {
                            let (i, k) = choose|i: int, k: int|
                                0 <= i < old_ix.entries@.len() && old_ix.entries@[i].0@ == w && 0 <= k
                                    < old_ix.entries@[i].1.fields@.len() && (#[trigger] old_ix.entries@[i].1.fields@[k]).field@ == f;
                            assert(self.entries@[i].1.fields@[k].field@ == f);
                        }
                        if w == term@ && f == field@ {
                            assert(self.entries@[n].1.fields@[0].field@ == f);
                        }
                    }
                    assert forall|w: Seq<char>, f: Seq<char>, d: Seq<char>|
                        #[trigger] self.has_doc(w, f, d) == (old_ix.has_doc(w, f, d) || (w == term@ && f == field@
                            && d == doc@)) by {
                        if self.has_doc(w, f, d) {
                            let (i, k) = choose|i: int, k: int|
                                0 <= i < self.entries@.len() && self.entries@[i].0@ == w && 0 <= k
                                    < self.entries@[i].1.fields@.len() && (#[trigger] self.entries@[i].1.fields@[k]).field@ == f
                                    && strings_view(self.entries@[i].1.fields@[k].document_refs@).contains(d);
                            if i < n {
                                assert(old_ix.entries@[i].1.fields@[k].field@ == f);
                            } else {
                                assert(strings_view(fp.document_refs@) == seq![doc@]);
                            }
                        }
                        if old_ix.has_doc(w, f, d) {
                            let (i, k) = choose|i: int, k: int|
                                0 <= i < old_ix.entries@.len() && old_ix.entries@[i].0@ == w && 0 <= k
                                    < old_ix.entries@[i].1.fields@.len() && (#[trigger] old_ix.entries@[i].1.fields@[k]).field@ == f
                                    && strings_view(old_ix.entries@[i].1.fields@[k].document_refs@).contains(d);
                            assert(self.entries@[i].1.fields@[k].field@ == f);
                        }
                        if w == term@ && f == field@ && d == doc@ {
                            assert(self.entries@[n].1.fields@[0].field@ == f);
                            assert(strings_view(self.entries@[n].1.fields@[0].document_refs@)[0] == doc@);
                        }
                    }
                    assert forall|i: int, j: int|
                        0 <= i < j < self.entries@.len() implies (#[trigger] self.entries@[i]).0@ != (
                        #[trigger] self.entries@[j]).0@ by {
                        if j == n {
                            assert(old_ix.entries@[i].0@ != term@);
                        }
                    }
                    assert(self.entries@[n].1.wf());
                }
            },
            Some(i) => {
                let mut p = copy_posting(&self.entries[i].1);
                let ghost op = self.entries@[i as int].1;
                let ghost cp = p;
                let key = self.entries[i].0.clone();
                proof {
                    assert(op.wf());
                }
                match find_field(&p, field) {
                    None => {
                        let fp = one_doc(field, doc);
                        p.fields.push(fp);
                        proof {
                            let n = cp.fields@.len() as int;
                            assert(p.fields@[n] == fp);
                            assert forall|j: int| 0 <= j < n implies #[trigger] p.fields@[j] == cp.fields@[j] by {}
                            assert forall|f: Seq<char>| #[trigger] posting_has_field(p, f) == (posting_has_field(op, f) || f == field@) by {
                                if posting_has_field(p, f) {
                                    let k = choose|k: int| 0 <= k < p.fields@.len() && (#[trigger] p.fields@[k]).field@ == f;
                                    if k < n {
                                        assert(op.fields@[k].field@ == f);
                                    }
                                }
                                if posting_has_field(op, f) {
                                    let k = choose|k: int| 0 <= k < op.fields@.len() && (#[trigger] op.fields@[k]).field@ == f;
                                    assert(p.fields@[k].field@ == f);
                                }
                                if f == field@ {
                                    assert(p.fields@[n].field@ == f);
                                }
                            }
                            assert forall|f: Seq<char>, d: Seq<char>|
                                #[trigger] posting_has_doc(p, f, d) == (posting_has_doc(op, f, d) || (f == field@ && d == doc@)) by {
                                if posting_has_doc(p, f, d) {
                                    let k = choose|k: int|
                                        0 <= k < p.fields@.len() && (#[trigger] p.fields@[k]).field@ == f && strings_view(
                                            p.fields@[k].document_refs@,
                                        ).contains(d);
                                    if k < n {
                                        assert(op.fields@[k].field@ == f);
                                        assert(strings_view(op.fields@[k].document_refs@).contains(d));
                                    } else {
                                        assert(strings_view(fp.document_refs@) == seq![doc@]);
                                    }
                                }
                                if posting_has_doc(op, f, d) {
                                    let k = choose|k: int|
                                        0 <= k < op.fields@.len() && (#[trigger] op.fields@[k]).field@ == f && strings_view(
                                            op.fields@[k].document_refs@,
                                        ).contains(d);
                                    assert(p.fields@[k].field@ == f);
                                    assert(strings_view(p.fields@[k].document_refs@).contains(d));
                                }
                                if f == field@ && d == doc@ {
                                    assert(p.fields@[n].field@ == f);
                                    assert(strings_view(p.fields@[n].document_refs@)[0] == doc@);
                                }
                            }
                            assert forall|a: int, b: int|
                                0 <= a < b < p.fields@.len() implies (#[trigger] p.fields@[a]).field@ != (
                                #[trigger] p.fields@[b]).field@ by {
                                if b == n {
                                    assert(cp.fields@[a].field@ != field@);
                                    assert(op.fields@[a].field@ != field@);
                                } else {
                                    assert(op.fields@[a].field@ != op.fields@[b].field@);
                                }
                            }
                        }
                    },
                    Some(k) => {
                        let mut fp = copy_field_postings(&p.fields[k]);
                        let ghost before = fp.document_refs@;
                        fp.document_refs.push(doc.to_owned());
                        proof {
                            assert(strings_view(fp.document_refs@) =~= strings_view(before).push(doc@));
                        }
                        p.fields.set(k, fp);
                        proof {
                            let k = k as int;
                            assert forall|j: int| 0 <= j < cp.fields@.len() && j != k implies #[trigger] p.fields@[j] == cp.fields@[j] by {}
                            assert forall|f: Seq<char>| #[trigger] posting_has_field(p, f) == (posting_has_field(op, f) || f == field@) by {
                                if posting_has_field(p, f) {
                                    let j = choose|j: int| 0 <= j < p.fields@.len() && (#[trigger] p.fields@[j]).field@ == f;
                                    assert(op.fields@[j].field@ == f);
                                }
                                if posting_has_field(op, f) {
                                    let j = choose|j: int| 0 <= j < op.fields@.len() && (#[trigger] op.fields@[j]).field@ == f;
                                    assert(p.fields@[j].field@ == f);
                                }
                                if f == field@ {
                                    assert(p.fields@[k].field@ == f);
                                    assert(op.fields@[k].field@ == f);
                                }
                            }
                            assert forall|f: Seq<char>, d: Seq<char>|
                                #[trigger] posting_has_doc(p, f, d) == (posting_has_doc(op, f, d) || (f == field@ && d == doc@)) by {
                                if posting_has_doc(p, f, d) {
                                    let j = choose|j: int|
                                        0 <= j < p.fields@.len() && (#[trigger] p.fields@[j]).field@ == f && strings_view(
                                            p.fields@[j].document_refs@,
                                        ).contains(d);
                                    assert(op.fields@[j].field@ == f);
                                    if j == k && d != doc@ {
                                        let m = choose|m: int| 0 <= m < strings_view(p.fields@[k].document_refs@).len() && strings_view(p.fields@[k].document_refs@)[m] == d;
                                        assert(strings_view(before)[m] == d);
                                        assert(strings_view(op.fields@[k].document_refs@).contains(d));
                                    }
                                }
                                if posting_has_doc(op, f, d) {
                                    let j = choose|j: int|
                                        0 <= j < op.fields@.len() && (#[trigger] op.fields@[j]).field@ == f && strings_view(
                                            op.fields@[j].document_refs@,
                                        ).contains(d);
                                    assert(p.fields@[j].field@ == f);
                                    if j == k {
                                        let m = choose|m: int| 0 <= m < strings_view(before).len() && strings_view(before)[m] == d;
                                        assert(strings_view(p.fields@[k].document_refs@)[m] == d);
                                    }
                                }
                                if f == field@ && d == doc@ {
                                    assert(p.fields@[k].field@ == f);
                                    assert(strings_view(p.fields@[k].document_refs@)[strings_view(before).len() as int] == doc@);
                                }
                            }
                            assert forall|a: int, b: int|
                                0 <= a < b < p.fields@.len() implies (#[trigger] p.fields@[a]).field@ != (
                                #[trigger] p.fields@[b]).field@ by {
                                assert(op.fields@[a].field@ != op.fields@[b].field@);
                            }
                        }
                    },
                }
                self.entries.set(i, (key, p));
                proof {
                    lemma_replace_posting(old_ix, *self, i as int, term@, field@, doc@);
                    assert(old_ix.entries@[i as int].0@ == term@);
                }
            },
        }
    }
}


// ---------------------------------------------------------------------------
// Gathering the match data of the postings of expanded terms.
// ---------------------------------------------------------------------------

/// The documents of word `w` in field `f`.
pub open spec fn posting_docs(ix: InvertedIndex, w: Seq<char>, f: Seq<char>) -> Seq<Seq<char>> {
    let c = cell(ix, w, f);
    if c.len() > 0 {
        c[0].docs
    } else {
        Seq::empty()
    }
}

/// `m` with the matches of word `w` recorded for its documents in each of the
/// fields `fs`, in order.
pub open spec fn with_field_matches(
    m: Map<Seq<char>, MatchModel>,
    ix: InvertedIndex,
    w: Seq<char>,
    fs: Seq<Seq<char>>,
) -> Map<Seq<char>, MatchModel>
    decreases fs.len(),
{
    if fs.len() == 0 {
        m
    } else {
        with_matches(with_field_matches(m, ix, w, fs.drop_last()), w, fs.last(), posting_docs(ix, w, fs.last()))
    }
}

/// `m` with the matches of each of the words `ws`, in order, recorded in
/// each of the fields `fs`.
pub open spec fn with_term_matches(
    m: Map<Seq<char>, MatchModel>,
    ix: InvertedIndex,
    ws: Seq<Seq<char>>,
    fs: Seq<Seq<char>>,
) -> Map<Seq<char>, MatchModel>
    decreases ws.len(),
{
    if ws.len() == 0 {
        m
    } else {
        with_field_matches(with_term_matches(m, ix, ws.drop_last(), fs), ix, ws.last(), fs)
    }
}

impl InvertedIndex {
    /// Records the matches of the words `words` (a term's expansions) searched
    /// in `fields`: for each word and field in which it has postings, a match
    /// of the word in that field under the field reference of each document.
    pub fn gather_matches(&self, words: &Vec<String>, fields: &Vec<String>, acc: &mut Vec<(String, MatchData)>)
        requires
            self.wf(),
            matches_wf(old(acc)@),
        ensures
            matches_wf(final(acc)@),
            matches_map(final(acc)@) == with_term_matches(
                matches_map(old(acc)@),
                *self,
                strings_view(words@),
                strings_view(fields@),
            ),
    {
        let ghost ws = strings_view(words@);
        let ghost fs = strings_view(fields@);
        let ghost m0 = matches_map(acc@);
        let mut i: usize = 0;
        proof {
            assert(ws.take(0) =~= Seq::<Seq<char>>::empty());
        }
        while i < words.len()
            invariant
                self.wf(),
                ws == strings_view(words@),
                fs == strings_view(fields@),
                0 <= i <= ws.len(),
                matches_wf(acc@),
                matches_map(acc@) == with_term_matches(m0, *self, ws.take(i as int), fs),
            decreases words.len() - i,
        {
            let ghost mi = matches_map(acc@);
            let ghost w = ws[i as int];
            proof {
                assert(ws.take(i + 1).drop_last() =~= ws.take(i as int));
                assert(ws.take(i + 1).last() == w);
                assert(words@[i as int]@ == w);
                assert(fs.take(0) =~= Seq::<Seq<char>>::empty());
            }
            let found = self.find_entry(words[i].as_str());
            let mut j: usize = 0;
            while j < fields.len()
                invariant
                    self.wf(),
                    fs == strings_view(fields@),
                    i < words@.len(),
                    w == words@[i as int]@,
                    0 <= j <= fs.len(),
                    found matches Some(e) ==> e < self.entries@.len() && self.entries@[e as int].0@ == w,
                    found is None ==> forall|e: int| 0 <= e < self.entries@.len() ==> (#[trigger] self.entries@[e]).0@ != w,
                    matches_wf(acc@),
                    matches_map(acc@) == with_field_matches(mi, *self, w, fs.take(j as int)),
                decreases fields.len() - j,
            {
                let ghost f = fs[j as int];
                proof {
                    assert(fs.take(j + 1).drop_last() =~= fs.take(j as int));
                    assert(fs.take(j + 1).last() == f);
                    assert(fields@[j as int]@ == f);
                }
                match found {
                    Some(e) => {
                        proof {
                            lemma_entry_of(*self, w, e as int);
                            assert(self.entries@[e as int].1.wf());
                        }
                        match find_field(&self.entries[e].1, fields[j].as_str()) {
                            Some(k) => {
                                proof {
                                    lemma_field_of(self.entries@[e as int].1, f, k as int);
                                    assert(posting_docs(*self, w, f) == strings_view(
                                        self.entries@[e as int].1.fields@[k as int].document_refs@,
                                    ));
                                }
                                crate::results::add_matches(
                                    acc,
                                    words[i].as_str(),
                                    fields[j].as_str(),
                                    &self.entries[e].1.fields[k].document_refs,
                                );
                            },
                            None => {
                                proof {
                                    assert(field_of(self.entries@[e as int].1, f) is None);
                                    assert(posting_docs(*self, w, f) =~= Seq::<Seq<char>>::empty());
                                }
                            },
                        }
                    },
                    None => {
                        proof {
                            assert(entry_of(*self, w) is None);
                            assert(posting_docs(*self, w, f) =~= Seq::<Seq<char>>::empty());
                        }
                    },
                }
                j = j + 1;
            }
            proof {
                assert(fs.take(fs.len() as int) =~= fs);
            }
            i = i + 1;
        }
        proof {
            assert(ws.take(ws.len() as int) =~= ws);
        }
    }
}

} // verus!
