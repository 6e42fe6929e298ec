use vstd::prelude::*;
use crate::text::{strings_view, chars_of};
use crate::set::contains_string;
use crate::document::Field;
use crate::field_ref::FieldRef;
use crate::pipeline::{Pipeline, PipelineFunction, run_functions};
use crate::token::{Tokens, TokenModel, text_tokens, token_models};
use crate::inverted_index::InvertedIndex;

verus! {

/// The terms that the pipeline functions `fns` make of a field's text.
pub open spec fn field_terms(fns: Seq<PipelineFunction>, text: Seq<char>) -> Seq<Seq<char>> {
    run_functions(fns, text_tokens(text)).map_values(|t: TokenModel| t.term)
}

/// The names and texts of a document's fields.
pub open spec fn fields_model(v: Seq<Field>) -> Seq<(Seq<char>, Seq<char>)> {
    v.map_values(|f: Field| (f.name@, f.text@))
}

/// The document and field of each field ref.
pub open spec fn refs_model(v: Seq<FieldRef>) -> Seq<(Seq<char>, Seq<char>)> {
    v.map_values(|r: FieldRef| (r.document_ref@, r.field_name@))
}

/// The field names `names` with each of `fs` that is not among them yet
/// added at the end, in order.
pub open spec fn add_names(names: Seq<Seq<char>>, fs: Seq<Seq<char>>) -> Seq<Seq<char>>
    decreases fs.len(),
{
    if fs.len() == 0 {
        names
    } else {
        let n = add_names(names, fs.drop_last());
        if n.contains(fs.last()) {
            n
        } else {
            n.push(fs.last())
        }
    }
}

/// One of the first `upto` fields is named `f` and its text gives the term `w`.
pub open spec fn posts(fns: Seq<PipelineFunction>, fs: Seq<(Seq<char>, Seq<char>)>, upto: int, w: Seq<char>, f: Seq<char>) -> bool {
    exists|k: int| 0 <= k < upto && (#[trigger] fs[k]).0 == f && field_terms(fns, fs[k].1).contains(w)
}

/// Builds an index from documents: the fields seen, the documents added,
/// each field of each document with the number of its tokens, and the
/// postings of the terms the pipeline makes of each field's text.
pub struct Builder {
    pub fields: Vec<String>,
    pub pipeline: Pipeline,
    pub inverted_index: InvertedIndex,
    pub document_refs: Vec<String>,
    pub field_refs: Vec<FieldRef>,
    pub field_lengths: Vec<usize>,
    /// For each field ref, the terms of its text in order: a term's
    /// frequency in that field is the number of times it occurs here.
    pub field_terms: Vec<Vec<String>>,
}

/// The terms recorded for each field ref.
pub open spec fn terms_model(v: Seq<Vec<String>>) -> Seq<Seq<Seq<char>>> {
    v.map_values(|t: Vec<String>| strings_view(t@))
}

impl Builder {
    /// Each field ref has its length, and the index is well formed.
    pub open spec fn wf(&self) -> bool {
        &&& self.inverted_index.wf()
        &&& self.inverted_index.is_numbered()
        &&& self.field_refs@.len() == self.field_lengths@.len()
        &&& self.field_refs@.len() == self.field_terms@.len()
    }

    /// A builder without documents, with the given pipeline.
    pub fn new(pipeline: Pipeline) -> (r: Builder)
        ensures
            r.wf(),
            r.fields@.len() == 0,
            r.document_refs@.len() == 0,
            r.field_refs@.len() == 0,
            r.inverted_index.entries@.len() == 0,
            r.pipeline == pipeline,
    {
        Builder {
            fields: Vec::new(),
            pipeline,
            inverted_index: InvertedIndex::new(),
            document_refs: Vec::new(),
            field_refs: Vec::new(),
            field_lengths: Vec::new(),
            field_terms: Vec::new(),
        }
    }

    /// Adds the document `doc_ref` with its fields. A document without a
    /// reference, or with one already added, is an error: it is refused with
    /// the message for that case, and nothing changes.
    pub fn add(&mut self, doc_ref: &str, doc_fields: &Vec<Field>) -> (r: Result<(), String>)
        requires
            old(self).wf(),
        ensures
            final(self).wf(),
            doc_ref@.len() == 0 ==> r is Err && r->Err_0@ == "cannot add a document without a 'ref' field to the index"@
                && *final(self) == *old(self),
            doc_ref@.len() > 0 && strings_view(old(self).document_refs@).contains(doc_ref@) ==> r is Err && r->Err_0@
                == "cannot add a document with a duplicate ref '"@ + doc_ref@ + "'"@ && *final(self) == *old(self),
            r is Ok <==> doc_ref@.len() > 0 && !strings_view(old(self).document_refs@).contains(doc_ref@),
            r is Ok ==> {
                let fs = fields_model(doc_fields@);
                let fns = old(self).pipeline.functions();
                &&& final(self).pipeline == old(self).pipeline
                &&& strings_view(final(self).document_refs@) == strings_view(old(self).document_refs@).push(doc_ref@)
                &&& strings_view(final(self).fields@) == add_names(
                    strings_view(old(self).fields@),
                    fs.map_values(|p: (Seq<char>, Seq<char>)| p.0),
                )
                &&& refs_model(final(self).field_refs@) == refs_model(old(self).field_refs@) + fs.map_values(
                    |p: (Seq<char>, Seq<char>)| (doc_ref@, p.0),
                )
                &&& final(self).field_lengths@ == old(self).field_lengths@ + fs.map_values(
                    |p: (Seq<char>, Seq<char>)| text_tokens(p.1).len() as usize,
                )
                &&& terms_model(final(self).field_terms@) == terms_model(old(self).field_terms@) + fs.map_values(
                    |p: (Seq<char>, Seq<char>)| field_terms(fns, p.1),
                )
                &&& forall|w: Seq<char>, f: Seq<char>|
                    #[trigger] final(self).inverted_index.has_field(w, f) == (old(self).inverted_index.has_field(w, f)
                        || posts(fns, fs, fs.len() as int, w, f))
                &&& forall|w: Seq<char>, f: Seq<char>, d: Seq<char>|
                    #[trigger] final(self).inverted_index.has_doc(w, f, d) == (old(self).inverted_index.has_doc(w, f, d)
                        || (d == doc_ref@ && posts(fns, fs, fs.len() as int, w, f)))
            },
    {
        if chars_of(doc_ref).len() == 0 {
            proof {
                reveal_strlit("cannot add a document without a 'ref' field to the index");
            }
            return Err("cannot add a document without a 'ref' field to the index".to_owned());
        }
        if contains_string(&self.document_refs, doc_ref) {
            let mut m = "cannot add a document with a duplicate ref '".to_owned();
            m.append(doc_ref);
            m.append("'");
            proof {
                reveal_strlit("cannot add a document with a duplicate ref '");
                reveal_strlit("'");
            }
            return Err(m);
        }
        let ghost o = *self;
        let ghost fs = fields_model(doc_fields@);
        let ghost fns = self.pipeline.functions();
        let ghost names = fs.map_values(|p: (Seq<char>, Seq<char>)| p.0);
        self.document_refs.push(doc_ref.to_owned());
        proof {
            assert(strings_view(self.document_refs@) =~= strings_view(o.document_refs@).push(doc_ref@));
            assert(add_names(strings_view(o.fields@), names.take(0)) == strings_view(o.fields@));
            assert(refs_model(self.field_refs@) =~= refs_model(o.field_refs@) + fs.take(0).map_values(
                |p: (Seq<char>, Seq<char>)| (doc_ref@, p.0),
            ));
            assert(self.field_lengths@ =~= o.field_lengths@ + fs.take(0).map_values(
                |p: (Seq<char>, Seq<char>)| text_tokens(p.1).len() as usize,
            ));
            assert(terms_model(self.field_terms@) =~= terms_model(o.field_terms@) + fs.take(0).map_values(
                |p: (Seq<char>, Seq<char>)| field_terms(fns, p.1),
            ));
        }
        let mut k: usize = 0;
        while k < doc_fields.len()
            invariant
                self.wf(),
                0 <= k <= doc_fields@.len(),
                fs == fields_model(doc_fields@),
                names == fs.map_values(|p: (Seq<char>, Seq<char>)| p.0),
                fns == self.pipeline.functions(),
                self.pipeline == o.pipeline,
                strings_view(self.document_refs@) == strings_view(o.document_refs@).push(doc_ref@),
                strings_view(self.fields@) == add_names(strings_view(o.fields@), names.take(k as int)),
                refs_model(self.field_refs@) == refs_model(o.field_refs@) + fs.take(k as int).map_values(
                    |p: (Seq<char>, Seq<char>)| (doc_ref@, p.0),
                ),
                self.field_lengths@ == o.field_lengths@ + fs.take(k as int).map_values(
                    |p: (Seq<char>, Seq<char>)| text_tokens(p.1).len() as usize,
                ),
                terms_model(self.field_terms@) == terms_model(o.field_terms@) + fs.take(k as int).map_values(
                    |p: (Seq<char>, Seq<char>)| field_terms(fns, p.1),
                ),
                forall|w: Seq<char>, f: Seq<char>|
                    #[trigger] self.inverted_index.has_field(w, f) == (o.inverted_index.has_field(w, f) || posts(
                        fns,
                        fs,
                        k as int,
                        w,
                        f,
                    )),
                forall|w: Seq<char>, f: Seq<char>, d: Seq<char>|
                    #[trigger] self.inverted_index.has_doc(w, f, d) == (o.inverted_index.has_doc(w, f, d) || (d == doc_ref@
                        && posts(fns, fs, k as int, w, f))),
            decreases doc_fields.len() - k,
        {
            let name = &doc_fields[k].name;
            let text = &doc_fields[k].text;
            proof {
                assert(fs[k as int] == (name@, text@));
                assert(names.take(k + 1).drop_last() =~= names.take(k as int));
                assert(names.take(k + 1).last() == name@);
            }
            if !contains_string(&self.fields, name.as_str()) {
                let ghost before = self.fields@;
                self.fields.push(name.clone());
                proof {
                    assert(strings_view(self.fields@) =~= strings_view(before).push(name@));
                }
            }
            let ghost refs_before = self.field_refs@;
            self.field_refs.push(FieldRef::new(doc_ref, name.as_str()));
            let tokens = Tokens::from_text(text.as_str());
            let len = tokens.len();
            self.field_lengths.push(len);
            proof {
                assert(fs.take(k + 1) =~= fs.take(k as int).push(fs[k as int]));
                assert(refs_model(self.field_refs@) =~= refs_model(refs_before).push((doc_ref@, name@)));
                assert(fs.take(k + 1).map_values(|p: (Seq<char>, Seq<char>)| (doc_ref@, p.0)) =~= fs.take(k as int).map_values(
                    |p: (Seq<char>, Seq<char>)| (doc_ref@, p.0),
                ).push((doc_ref@, name@)));
                assert(fs.take(k + 1).map_values(|p: (Seq<char>, Seq<char>)| text_tokens(p.1).len() as usize) =~= fs.take(
                    k as int,
                ).map_values(|p: (Seq<char>, Seq<char>)| text_tokens(p.1).len() as usize).push(len));
                assert(refs_model(self.field_refs@) =~= refs_model(o.field_refs@) + fs.take(k + 1).map_values(
                    |p: (Seq<char>, Seq<char>)| (doc_ref@, p.0),
                ));
                assert(self.field_lengths@ =~= o.field_lengths@ + fs.take(k + 1).map_values(
                    |p: (Seq<char>, Seq<char>)| text_tokens(p.1).len() as usize,
                ));
            }
            let processed = self.pipeline.run(tokens.into_vec());
            let ghost terms = field_terms(fns, text@);
            proof {
                assert(terms == token_models(processed@).map_values(|t: TokenModel| t.term));
            }
            let ghost dr0 = self.document_refs;
            let ghost fl0 = self.fields;
            let ghost fr0 = self.field_refs;
            let ghost len0 = self.field_lengths;
            let ghost ft0 = self.field_terms;
            let mut found: Vec<String> = Vec::new();
            let mut t: usize = 0;
            while t < processed.len()
                invariant
                    self.inverted_index.wf(),
                    self.inverted_index.is_numbered(),
                    self.document_refs == dr0,
                    self.fields == fl0,
                    self.field_refs == fr0,
                    self.field_lengths == len0,
                    self.field_terms == ft0,
                    strings_view(found@) == terms.take(t as int),
                    0 <= t <= processed@.len(),
                    0 <= k < doc_fields@.len(),
                    fs[k as int] == (name@, text@),
                    terms == token_models(processed@).map_values(|t: TokenModel| t.term),
                    self.pipeline == o.pipeline,
                    forall|w: Seq<char>, f: Seq<char>|
                        #[trigger] self.inverted_index.has_field(w, f) == (o.inverted_index.has_field(w, f) || posts(
                            fns,
                            fs,
                            k as int,
                            w,
                            f,
                        ) || (f == name@ && terms.take(t as int).contains(w))),
                    forall|w: Seq<char>, f: Seq<char>, d: Seq<char>|
                        #[trigger] self.inverted_index.has_doc(w, f, d) == (o.inverted_index.has_doc(w, f, d) || (d
                            == doc_ref@ && (posts(fns, fs, k as int, w, f) || (f == name@ && terms.take(t as int).contains(w))))),
                decreases processed.len() - t,
            {
                let ghost ix0 = self.inverted_index;
                self.inverted_index.add_posting(processed[t].term.as_str(), name.as_str(), doc_ref);
                let ghost found0 = found@;
                found.push(processed[t].term.clone());
                proof {
                    let tw = processed@[t as int].term@;
                    assert(terms[t as int] == tw);
                    assert(terms.take(t + 1) =~= terms.take(t as int).push(tw));
                    assert(strings_view(found@) =~= strings_view(found0).push(tw));
                    assert forall|w: Seq<char>| #[trigger] terms.take(t + 1).contains(w) == (terms.take(t as int).contains(w) || w == tw) by {
                        let a = terms.take(t as int);
                        let b = terms.take(t + 1);
                        if b.contains(w) {
                            let j = choose|j: int| 0 <= j < b.len() && #[trigger] b[j] == w;
                            if j < t {
                                assert(a[j] == w);
                            }
                        }
                        if a.contains(w) {
                            let j = choose|j: int| 0 <= j < a.len() && #[trigger] a[j] == w;
                            assert(b[j] == w);
                        }
                        if w == tw {
                            assert(terms.take(t + 1)[t as int] == w);
                        }
                    }
                }
                t = t + 1;
            }
            let ghost ft_before = self.field_terms@;
            self.field_terms.push(found);
            proof {
                assert(terms.take(terms.len() as int) =~= terms);
                assert(terms_model(self.field_terms@) =~= terms_model(ft_before).push(terms));
                assert(fs.take(k + 1).map_values(|p: (Seq<char>, Seq<char>)| field_terms(fns, p.1)) =~= fs.take(
                    k as int,
                ).map_values(|p: (Seq<char>, Seq<char>)| field_terms(fns, p.1)).push(terms));
                assert(terms_model(self.field_terms@) =~= terms_model(o.field_terms@) + fs.take(k + 1).map_values(
                    |p: (Seq<char>, Seq<char>)| field_terms(fns, p.1),
                ));
                assert forall|w: Seq<char>, f: Seq<char>|
                    #[trigger] posts(fns, fs, k + 1, w, f) == (posts(fns, fs, k as int, w, f) || (f == name@ && terms.contains(w))) by {
                    if posts(fns, fs, k + 1, w, f) {
                        let j = choose|j: int| 0 <= j < k + 1 && (#[trigger] fs[j]).0 == f && field_terms(fns, fs[j].1).contains(w);
                    }
                    if f == name@ && terms.contains(w) {
                        assert(fs[k as int].0 == f);
                    }
                    if posts(fns, fs, k as int, w, f) {
                        let j = choose|j: int| 0 <= j < k && (#[trigger] fs[j]).0 == f && field_terms(fns, fs[j].1).contains(w);
                    }
                }
            }
            k = k + 1;
        }
        proof {
            assert(names.take(names.len() as int) =~= names);
            assert(fs.take(fs.len() as int) =~= fs);
        }
        Ok(())
    }
}

} // verus!
