use vstd::prelude::*;
use crate::text::{str_eq, strings_view};
use crate::set::contains_string;
use crate::pipeline::{Pipeline, PipelineFunction};
use crate::token_set_builder::{sorted_words, words_in_order};

verus! {

// ---------------------------------------------------------------------------
// A serialized index, as far as loading reads it.
// ---------------------------------------------------------------------------

/// An entry of `fieldVectors`: the length of the tuple, its first item if it
/// is a string, and whether its second item is an array.
pub struct SerializedVector {
    pub len: usize,
    pub field_ref: Option<String>,
    pub elements_is_array: bool,
}

/// A document under a field of a posting: its reference, and whether what is
/// recorded for it is an object.
pub struct SerializedDoc {
    pub doc_ref: String,
    pub metadata_is_object: bool,
}

/// A key of a posting other than `_index`: the field's name, and its
/// documents where its value is an object (`None` where it is not).
pub struct SerializedField {
    pub name: String,
    pub docs: Option<Vec<SerializedDoc>>,
}

/// The posting of an entry of `invertedIndex`: its `_index` where that is a
/// non-negative integer, and its other keys in order.
pub struct SerializedPosting {
    pub index: Option<usize>,
    pub fields: Vec<SerializedField>,
}

/// An entry of `invertedIndex`: the length of the tuple, its first item if it
/// is a string, and its second item if it is an object.
pub struct SerializedEntry {
    pub len: usize,
    pub term: Option<String>,
    pub posting: Option<SerializedPosting>,
}

/// A serialized index. Its version is `None` where it is not a string. Each
/// part that must be an array is `None` where it is not one; an item that must itself be an array is `None` where it is not.
/// Items that must be strings are `None` where they are not.
pub struct SerializedIndex {
    pub version: Option<String>,
    pub fields: Option<Vec<Option<String>>>,
    pub field_vectors: Option<Vec<Option<SerializedVector>>>,
    pub inverted_index: Option<Vec<Option<SerializedEntry>>>,
    pub pipeline: Option<Vec<Option<String>>>,
}

/// What is wrong with an entry of `fieldVectors`, if anything.
pub open spec fn vector_error(v: Option<SerializedVector>) -> Option<Seq<char>> {
    match v {
        None => Some("fieldVectors tuples must be arrays"@),
        Some(t) => if t.len < 2 {
            Some("fieldVectors tuples must have at least 2 elements"@)
        } else if t.field_ref is None {
            Some("fieldVectors ref must be a string"@)
        } else if !t.elements_is_array {
            Some("fieldVectors elements must be an array"@)
        } else {
            None
        },
    }
}

/// What is wrong with an entry of `invertedIndex`, if anything.
pub open spec fn entry_error(e: Option<SerializedEntry>) -> Option<Seq<char>> {
    match e {
        None => Some("invertedIndex tuples must be arrays"@),
        Some(t) => if t.len < 2 {
            Some("invertedIndex tuples must have at least 2 elements"@)
        } else if t.term is None {
            Some("invertedIndex term must be a string"@)
        } else if t.posting is None {
            Some("invertedIndex posting must be an object"@)
        } else {
            None
        },
    }
}

/// The first error among the entries of `fieldVectors`.
pub open spec fn first_vector_error(vs: Seq<Option<SerializedVector>>) -> Option<Seq<char>>
    decreases vs.len(),
{
    if vs.len() == 0 {
        None
    } else if vector_error(vs[0]) is Some {
        vector_error(vs[0])
    } else {
        first_vector_error(vs.drop_first())
    }
}

/// The first error among the entries of `invertedIndex`.
pub open spec fn first_entry_error(es: Seq<Option<SerializedEntry>>) -> Option<Seq<char>>
    decreases es.len(),
{
    if es.len() == 0 {
        None
    } else if entry_error(es[0]) is Some {
        entry_error(es[0])
    } else {
        first_entry_error(es.drop_first())
    }
}

/// The terms of the entries of `invertedIndex`, in order (the empty word for
/// an entry without one).
pub open spec fn terms_of_entries(es: Seq<Option<SerializedEntry>>) -> Seq<Seq<char>> {
    es.map_values(
        |e: Option<SerializedEntry>|
            match e {
                Some(t) => match t.term {
                    Some(w) => w@,
                    None => Seq::<char>::empty(),
                },
                None => Seq::<char>::empty(),
            },
    )
}

/// The terms of a serialized index's entries.
pub open spec fn entry_terms(doc: SerializedIndex) -> Seq<Seq<char>> {
    terms_of_entries(doc.inverted_index->0@)
}

/// What is wrong with a serialized index, checked in the order loading reads
/// it: the fields, the field vectors, the inverted index and the order of its
/// terms, then the pipeline.
pub open spec fn load_error(doc: SerializedIndex) -> Option<Seq<char>> {
    if doc.fields is None {
        Some("fields must be an array"@)
    } else if doc.field_vectors is None {
        Some("fieldVectors must be an array"@)
    } else if first_vector_error(doc.field_vectors->0@) is Some {
        first_vector_error(doc.field_vectors->0@)
    } else if doc.inverted_index is None {
        Some("invertedIndex must be an array"@)
    } else if first_entry_error(doc.inverted_index->0@) is Some {
        first_entry_error(doc.inverted_index->0@)
    } else if !sorted_words(entry_terms(doc)) {
        Some("invertedIndex terms must be in order"@)
    } else if doc.pipeline is None {
        Some("pipeline must be an array"@)
    } else {
        None
    }
}

pub open spec fn malformed_prefix() -> Seq<char> {
    "malformed serialized index, "@
}

fn vector_error_exec(v: &Option<SerializedVector>) -> (r: Option<&'static str>)
    ensures
        r matches Some(m) ==> vector_error(*v) == Some(m@),
        r is None ==> vector_error(*v) is None,
{
    match v {
        None => Some("fieldVectors tuples must be arrays"),
        Some(t) => if t.len < 2 {
            Some("fieldVectors tuples must have at least 2 elements")
        } else if t.field_ref.is_none() {
            Some("fieldVectors ref must be a string")
        } else if !t.elements_is_array {
            Some("fieldVectors elements must be an array")
        } else {
            None
        },
    }
}

fn entry_error_exec(e: &Option<SerializedEntry>) -> (r: Option<&'static str>)
    ensures
        r matches Some(m) ==> entry_error(*e) == Some(m@),
        r is None ==> entry_error(*e) is None,
{
    match e {
        None => Some("invertedIndex tuples must be arrays"),
        Some(t) => if t.len < 2 {
            Some("invertedIndex tuples must have at least 2 elements")
        } else if t.term.is_none() {
            Some("invertedIndex term must be a string")
        } else if t.posting.is_none() {
            Some("invertedIndex posting must be an object")
        } else {
            None
        },
    }
}

fn first_vector_error_exec(vs: &Vec<Option<SerializedVector>>) -> (r: Option<&'static str>)
    ensures
        r matches Some(m) ==> first_vector_error(vs@) == Some(m@),
        r is None ==> first_vector_error(vs@) is None,
{
    let mut i: usize = 0;
    proof {
        assert(vs@.skip(0) =~= vs@);
    }
    while i < vs.len()
        invariant
            0 <= i <= vs@.len(),
            first_vector_error(vs@) == first_vector_error(vs@.skip(i as int)),
        decreases vs.len() - i,
    {
        let ghost rest = vs@.skip(i as int);
        proof {
            assert(rest[0] == vs@[i as int]);
            assert(rest.drop_first() =~= vs@.skip(i + 1));
        }
        let e = vector_error_exec(&vs[i]);
        if e.is_some() {
            return e;
        }
        i = i + 1;
    }
    proof {
        assert(vs@.skip(i as int).len() == 0);
    }
    None
}

fn first_entry_error_exec(es: &Vec<Option<SerializedEntry>>) -> (r: Option<&'static str>)
    ensures
        r matches Some(m) ==> first_entry_error(es@) == Some(m@),
        r is None ==> first_entry_error(es@) is None,
{
    let mut i: usize = 0;
    proof {
        assert(es@.skip(0) =~= es@);
    }
    while i < es.len()
        invariant
            0 <= i <= es@.len(),
            first_entry_error(es@) == first_entry_error(es@.skip(i as int)),
        decreases es.len() - i,
    {
        let ghost rest = es@.skip(i as int);
        proof {
            assert(rest[0] == es@[i as int]);
            assert(rest.drop_first() =~= es@.skip(i + 1));
        }
        let e = entry_error_exec(&es[i]);
        if e.is_some() {
            return e;
        }
        i = i + 1;
    }
    proof {
        assert(es@.skip(i as int).len() == 0);
    }
    None
}

/// An entry without anything wrong has a term and a posting.
pub proof fn lemma_entries_sound(es: Seq<Option<SerializedEntry>>, i: int)
    requires
        first_entry_error(es) is None,
        0 <= i < es.len(),
    ensures
        es[i] is Some,
        es[i]->0.len >= 2,
        es[i]->0.term is Some,
        es[i]->0.posting is Some,
    decreases i,
{
    if i > 0 {
        assert(es.drop_first()[i - 1] == es[i]);
        lemma_entries_sound(es.drop_first(), i - 1);
    }
}

/// A field vector without anything wrong has a reference.
pub proof fn lemma_vectors_sound(vs: Seq<Option<SerializedVector>>, i: int)
    requires
        first_vector_error(vs) is None,
        0 <= i < vs.len(),
    ensures
        vs[i] is Some,
        vs[i]->0.field_ref is Some,
    decreases i,
{
    if i > 0 {
        assert(vs.drop_first()[i - 1] == vs[i]);
        lemma_vectors_sound(vs.drop_first(), i - 1);
    }
}

/// The terms of entries that have nothing wrong with them.
pub fn entry_terms_exec(es: &Vec<Option<SerializedEntry>>) -> (r: Vec<String>)
    requires
        first_entry_error(es@) is None,
    ensures
        strings_view(r@) == terms_of_entries(es@),
{
    let mut r: Vec<String> = Vec::new();
    let mut i: usize = 0;
    while i < es.len()
        invariant
            0 <= i <= es@.len(),
            first_entry_error(es@) is None,
            strings_view(r@) == terms_of_entries(es@).take(i as int),
        decreases es.len() - i,
    {
        proof {
            lemma_entries_sound(es@, i as int);
        }
        match &es[i] {
            Some(e) => match &e.term {
                Some(t) => {
                    let ghost before = r@;
                    r.push(t.clone());
                    proof {
                        assert(strings_view(r@) =~= strings_view(before).push(t@));
                        assert(terms_of_entries(es@).take(i + 1) =~= terms_of_entries(es@).take(i as int).push(t@));
                    }
                },
                None => {},
            },
            None => {},
        }
        i = i + 1;
    }
    proof {
        assert(terms_of_entries(es@).take(es@.len() as int) =~= terms_of_entries(es@));
    }
    r
}

fn load_problem(doc: &SerializedIndex) -> (r: Option<&'static str>)
    ensures
        r matches Some(m) ==> load_error(*doc) == Some(m@),
        r is None ==> load_error(*doc) is None,
{
    if doc.fields.is_none() {
        return Some("fields must be an array");
    }
    match &doc.field_vectors {
        None => {
            return Some("fieldVectors must be an array");
        },
        Some(vs) => {
            let e = first_vector_error_exec(vs);
            if e.is_some() {
                return e;
            }
        },
    }
    match &doc.inverted_index {
        None => {
            return Some("invertedIndex must be an array");
        },
        Some(es) => {
            let e = first_entry_error_exec(es);
            if e.is_some() {
                return e;
            }
            let terms = entry_terms_exec(es);
            if !words_in_order(&terms) {
                return Some("invertedIndex terms must be in order");
            }
        },
    }
    if doc.pipeline.is_none() {
        return Some("pipeline must be an array");
    }
    None
}

/// Checks the shape of a serialized index: `Ok` exactly where nothing is
/// wrong; otherwise the first problem, after "malformed serialized index, ".
pub fn check_serialized(doc: &SerializedIndex) -> (r: Result<(), String>)
    ensures
        r is Ok <==> load_error(*doc) is None,
        r matches Err(m) ==> load_error(*doc) is Some && m@ == malformed_prefix() + load_error(*doc)->0,
{
    let problem = load_problem(doc);
    match problem {
        None => Ok(()),
        Some(m) => {
            let mut msg = "malformed serialized index, ".to_owned();
            msg.append(m);
            proof {
                reveal_strlit("malformed serialized index, ");
                assert(msg@ =~= malformed_prefix() + m@);
            }
            Err(msg)
        },
    }
}

// ---------------------------------------------------------------------------
// The pipeline of a serialized index.
// ---------------------------------------------------------------------------

/// The function a label names, if it names one of the built-in functions.
pub open spec fn function_named(label: Seq<char>) -> Option<PipelineFunction> {
    if label == "trimmer"@ {
        Some(PipelineFunction::Trimmer)
    } else if label == "stopWordFilter"@ {
        Some(PipelineFunction::StopWordFilter)
    } else if label == "stemmer"@ {
        Some(PipelineFunction::Stemmer)
    } else {
        None
    }
}

/// The functions that the labels name, in order; items that are not strings,
/// and labels that name no function, are passed over.
pub open spec fn named_functions(labels: Seq<Option<String>>) -> Seq<PipelineFunction>
    decreases labels.len(),
{
    if labels.len() == 0 {
        Seq::empty()
    } else {
        let rest = named_functions(labels.drop_last());
        match labels.last() {
            Some(l) => match function_named(l@) {
                Some(f) => rest.push(f),
                None => rest,
            },
            None => rest,
        }
    }
}

/// The labels of functions, in order.
pub open spec fn labels_of(fs: Seq<PipelineFunction>) -> Seq<Seq<char>> {
    fs.map_values(|f: PipelineFunction| crate::pipeline::function_label(f))
}

fn function_named_exec(label: &str) -> (r: Option<PipelineFunction>)
    ensures
        r == function_named(label@),
{
    proof {
        reveal_strlit("trimmer");
        reveal_strlit("stopWordFilter");
        reveal_strlit("stemmer");
    }
    if str_eq(label, "trimmer") {
        Some(PipelineFunction::Trimmer)
    } else if str_eq(label, "stopWordFilter") {
        Some(PipelineFunction::StopWordFilter)
    } else if str_eq(label, "stemmer") {
        Some(PipelineFunction::Stemmer)
    } else {
        None
    }
}

/// The pipeline of a serialized index: the built-in functions that its labels
/// name, in order, each under its own label. A missing `pipeline` gives an
/// empty one.
pub fn pipeline_from_labels(labels: &Option<Vec<Option<String>>>) -> (r: Pipeline)
    ensures
        r.functions() == (match labels {
            Some(v) => named_functions(v@),
            None => Seq::empty(),
        }),
        r.labels() == labels_of(r.functions()),
{
    let mut p = Pipeline::new();
    proof {
        assert(labels_of(p.functions()) =~= p.labels());
    }
    match labels {
        None => {},
        Some(v) => {
            let mut i: usize = 0;
            while i < v.len()
                invariant
                    0 <= i <= v@.len(),
                    p.functions() == named_functions(v@.take(i as int)),
                    p.labels() == labels_of(p.functions()),
                decreases v.len() - i,
            {
                proof {
                    assert(v@.take(i + 1).drop_last() =~= v@.take(i as int));
                    assert(v@.take(i + 1).last() == v@[i as int]);
                }
                match &v[i] {
                    Some(l) => match function_named_exec(l.as_str()) {
                        Some(f) => {
                            let ghost before = p.functions();
                            p.add_function(f);
                            proof {
                                assert(labels_of(p.functions()) =~= p.labels());
                            }
                        },
                        None => {},
                    },
                    None => {},
                }
                i = i + 1;
            }
            proof {
                assert(v@.take(v@.len() as int) =~= v@);
            }
        },
    }
    p
}

/// The first label that is not among the registered ones, if any: loading
/// a pipeline fails at that label.
pub fn first_unregistered(labels: &Vec<String>, registered: &Vec<String>) -> (r: Option<usize>)
    ensures
        r matches Some(i) ==> i < labels@.len() && !strings_view(registered@).contains(labels@[i as int]@)
            && forall|j: int| 0 <= j < i ==> strings_view(registered@).contains(#[trigger] labels@[j]@),
        r is None ==> forall|j: int| 0 <= j < labels@.len() ==> strings_view(registered@).contains(#[trigger] labels@[j]@),
{
    let mut i: usize = 0;
    while i < labels.len()
        invariant
            0 <= i <= labels@.len(),
            forall|j: int| 0 <= j < i ==> strings_view(registered@).contains(#[trigger] labels@[j]@),
        decreases labels.len() - i,
    {
        if !contains_string(registered, labels[i].as_str()) {
            return Some(i);
        }
        i = i + 1;
    }
    None
}

} // verus!
