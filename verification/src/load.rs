use vstd::prelude::*;
use crate::text::strings_view;
use crate::search::FieldPostings;
use crate::inverted_index::{InvertedIndex, Posting};
use crate::serialized::{
    SerializedIndex, SerializedEntry, SerializedPosting, SerializedField, SerializedDoc, SerializedVector,
    load_error, malformed_prefix, entry_terms, named_functions, check_serialized, entry_terms_exec,
    lemma_vectors_sound, first_vector_error, pipeline_from_labels,
};
use crate::token_set::TokenSet;
use crate::token_set_builder::sorted_words;
use crate::pipeline::Pipeline;

verus! {

// ---------------------------------------------------------------------------
// What loading keeps of a serialized index.
// ---------------------------------------------------------------------------

/// The last of the first `n` keys of a posting that names field `f` and whose
/// value is an object: a later key of the same name takes the place of an
/// earlier one.
pub open spec fn kept_field(fs: Seq<SerializedField>, f: Seq<char>, n: int) -> Option<int>
    decreases n,
{
    if n <= 0 || n > fs.len() {
        None
    } else if fs[n - 1].name@ == f && fs[n - 1].docs is Some {
        Some(n - 1)
    } else {
        kept_field(fs, f, n - 1)
    }
}

/// Some document of `ds` is `d`, and what is recorded for it is an object.
pub open spec fn lists_doc(ds: Seq<SerializedDoc>, d: Seq<char>) -> bool {
    exists|i: int| 0 <= i < ds.len() && (#[trigger] ds[i]).metadata_is_object && ds[i].doc_ref@ == d
}

/// An entry that loading puts in the index: a string term and an object
/// posting with an `_index`.
pub open spec fn loadable(e: Option<SerializedEntry>) -> bool {
    &&& e is Some
    &&& e->0.term is Some
    &&& e->0.posting is Some
    &&& e->0.posting->0.index is Some
}

/// The last of the first `n` entries that loading puts in the index for word
/// `w`: a later entry of the same term takes the place of an earlier one.
pub open spec fn kept_entry(es: Seq<Option<SerializedEntry>>, w: Seq<char>, n: int) -> Option<int>
    decreases n,
{
    if n <= 0 || n > es.len() {
        None
    } else if loadable(es[n - 1]) && es[n - 1]->0.term->0@ == w {
        Some(n - 1)
    } else {
        kept_entry(es, w, n - 1)
    }
}

/// The posting of entry `i`.
pub open spec fn posting_at(es: Seq<Option<SerializedEntry>>, i: int) -> SerializedPosting {
    es[i]->0.posting->0
}

/// The serialized posting that loading keeps for word `w`, if any.
pub open spec fn kept_posting(doc: SerializedIndex, w: Seq<char>) -> Option<SerializedPosting> {
    let es = doc.inverted_index->0@;
    match kept_entry(es, w, es.len() as int) {
        Some(i) => Some(posting_at(es, i)),
        None => None,
    }
}

/// After loading, word `w` has a posting in field `f`.
pub open spec fn serialized_has_field(doc: SerializedIndex, w: Seq<char>, f: Seq<char>) -> bool {
    match kept_posting(doc, w) {
        Some(p) => kept_field(p.fields@, f, p.fields@.len() as int) is Some,
        None => false,
    }
}

/// After loading, word `w` has a posting in field `f` that holds document `d`.
pub open spec fn serialized_has_doc(doc: SerializedIndex, w: Seq<char>, f: Seq<char>, d: Seq<char>) -> bool {
    match kept_posting(doc, w) {
        Some(p) => match kept_field(p.fields@, f, p.fields@.len() as int) {
            Some(k) => lists_doc(p.fields@[k].docs->0@, d),
            None => false,
        },
        None => false,
    }
}

/// The strings among `items`, in order.
pub open spec fn strings_among(items: Seq<Option<String>>) -> Seq<Seq<char>>
    decreases items.len(),
{
    if items.len() == 0 {
        Seq::empty()
    } else {
        let rest = strings_among(items.drop_last());
        match items.last() {
            Some(s) => rest.push(s@),
            None => rest,
        }
    }
}

/// The references of field vectors, in order.
pub open spec fn vector_refs(vs: Seq<Option<SerializedVector>>) -> Seq<Seq<char>> {
    vs.map_values(
        |v: Option<SerializedVector>|
            match v {
                Some(t) => match t.field_ref {
                    Some(r) => r@,
                    None => Seq::<char>::empty(),
                },
                None => Seq::<char>::empty(),
            },
    )
}

// ---------------------------------------------------------------------------
// The loaded index.
// ---------------------------------------------------------------------------

/// What loading restores of a serialized index: its version, its fields, the
/// references of its field vectors, its inverted index, the set of its terms and its
/// pipeline. (The vectors' scores are floating point and stay outside.)
pub struct LoadedIndex {
    pub version: String,
    pub fields: Vec<String>,
    pub field_refs: Vec<String>,
    pub inverted_index: InvertedIndex,
    pub token_set: TokenSet,
    pub pipeline: Pipeline,
}

/// `p` holds what loading keeps of the first `n` keys of `sp`.
spec fn posting_holds(p: Posting, sp: SerializedPosting, n: int) -> bool {
    &&& p.wf()
    &&& forall|f: Seq<char>|
        #[trigger] kept_field(sp.fields@, f, n) is Some <==> exists|k: int|
            0 <= k < p.fields@.len() && (#[trigger] p.fields@[k]).field@ == f
    &&& forall|k: int|
        0 <= k < p.fields@.len() ==> (#[trigger] kept_field(sp.fields@, p.fields@[k].field@, n)) is Some
    &&& forall|k: int, d: Seq<char>|
        #![trigger strings_view(p.fields@[k].document_refs@).contains(d)]
        0 <= k < p.fields@.len() ==> (strings_view(p.fields@[k].document_refs@).contains(d) <==> lists_doc(
            sp.fields@[kept_field(sp.fields@, p.fields@[k].field@, n)->0].docs->0@,
            d,
        ))
}

/// The references of the documents of `ds` whose record is an object.
fn listed_docs(ds: &Vec<SerializedDoc>) -> (r: Vec<String>)
    ensures
        forall|d: Seq<char>| #[trigger] strings_view(r@).contains(d) <==> lists_doc(ds@, d),
{
    let mut r: Vec<String> = Vec::new();
    let mut i: usize = 0;
    while i < ds.len()
        invariant
            0 <= i <= ds@.len(),
            forall|d: Seq<char>|
                #[trigger] strings_view(r@).contains(d) <==> exists|j: int|
                    0 <= j < i && (#[trigger] ds@[j]).metadata_is_object && ds@[j].doc_ref@ == d,
        decreases ds.len() - i,
    {
        if ds[i].metadata_is_object {
            let ghost before = r@;
            r.push(ds[i].doc_ref.clone());
            proof {
                let v = strings_view(r@);
                assert(v =~= strings_view(before).push(ds@[i as int].doc_ref@));
                assert forall|d: Seq<char>|
                    #[trigger] strings_view(r@).contains(d) <==> exists|j: int|
                        0 <= j < i + 1 && (#[trigger] ds@[j]).metadata_is_object && ds@[j].doc_ref@ == d by {
                    if v.contains(d) {
                        let m = choose|m: int| 0 <= m < v.len() && v[m] == d;
                        if m < before.len() {
                            assert(strings_view(before)[m] == d);
                            assert(strings_view(before).contains(d));
                        } else {
                            assert(ds@[i as int].doc_ref@ == d);
                        }
                    }
                    if exists|j: int| 0 <= j < i + 1 && (#[trigger] ds@[j]).metadata_is_object && ds@[j].doc_ref@ == d {
                        let j = choose|j: int| 0 <= j < i + 1 && (#[trigger] ds@[j]).metadata_is_object && ds@[j].doc_ref@ == d;
                        if j < i {
                            assert(strings_view(before).contains(d));
                            let m = choose|m: int| 0 <= m < strings_view(before).len() && strings_view(before)[m] == d;
                            assert(v[m] == d);
                        } else {
                            assert(v[before.len() as int] == d);
                        }
                    }
                }
            }
        } else {
            proof {
                assert forall|d: Seq<char>|
                    #[trigger] strings_view(r@).contains(d) <==> exists|j: int|
                        0 <= j < i + 1 && (#[trigger] ds@[j]).metadata_is_object && ds@[j].doc_ref@ == d by {
                    if exists|j: int| 0 <= j < i + 1 && (#[trigger] ds@[j]).metadata_is_object && ds@[j].doc_ref@ == d {
                        let j = choose|j: int| 0 <= j < i + 1 && (#[trigger] ds@[j]).metadata_is_object && ds@[j].doc_ref@ == d;
                        assert(j < i);
                    }
                }
            }
        }
        i = i + 1;
    }
    r
}

/// The posting that loading makes of `sp`, under the index `index`.
fn load_posting(sp: &SerializedPosting, index: usize) -> (p: Posting)
    ensures
        p.index == index,
        posting_holds(p, *sp, sp.fields@.len() as int),
{
    let mut p = Posting { index, fields: Vec::new() };
    let ghost fs = sp.fields@;
    let mut j: usize = 0;
    while j < sp.fields.len()
        invariant
            fs == sp.fields@,
            0 <= j <= fs.len(),
            p.index == index,
            posting_holds(p, *sp, j as int),
        decreases sp.fields.len() - j,
    {
        let ghost p0 = p;
        let ghost jj = j as int;
        let sf = &sp.fields[j];
        match &sf.docs {
            None => {
                proof {
                    assert forall|f: Seq<char>| #[trigger] kept_field(fs, f, jj + 1) == kept_field(fs, f, jj) by {}
                }
            },
            Some(ds) => {
                let refs = listed_docs(ds);
                let fp = FieldPostings { field: sf.name.clone(), document_refs: refs };
                let ghost name = sf.name@;
                proof {
                    assert forall|f: Seq<char>|
                        f != name implies #[trigger] kept_field(fs, f, jj + 1) == kept_field(fs, f, jj) by {}
                    assert(kept_field(fs, name, jj + 1) == Some(jj));
                }
                match crate::inverted_index::find_field(&p, sf.name.as_str()) {
                    Some(x) => {
                        p.fields.set(x, fp);
                        proof {
                            let x = x as int;
                            assert forall|k: int| 0 <= k < p.fields@.len() && k != x implies #[trigger] p.fields@[k] == p0.fields@[k] && p0.fields@[k].field@ != name by {
                                assert(p0.fields@[k].field@ != p0.fields@[x].field@);
                            }
                            assert(p.fields@[x].field@ == name);
                            assert forall|a: int, b: int|
                                0 <= a < b < p.fields@.len() implies (#[trigger] p.fields@[a]).field@ != (#[trigger] p.fields@[b]).field@ by {
                                assert(p0.fields@[a].field@ != p0.fields@[b].field@);
                            }
                            assert forall|f: Seq<char>|
                                #[trigger] kept_field(fs, f, jj + 1) is Some <==> exists|k: int|
                                    0 <= k < p.fields@.len() && (#[trigger] p.fields@[k]).field@ == f by {
                                if f == name {
                                    assert(p.fields@[x].field@ == f);
                                } else {
                                    if kept_field(fs, f, jj) is Some {
                                        let k = choose|k: int| 0 <= k < p0.fields@.len() && (#[trigger] p0.fields@[k]).field@ == f;
                                        assert(p.fields@[k].field@ == f);
                                    }
                                    if exists|k: int| 0 <= k < p.fields@.len() && (#[trigger] p.fields@[k]).field@ == f {
                                        let k = choose|k: int| 0 <= k < p.fields@.len() && (#[trigger] p.fields@[k]).field@ == f;
                                        assert(p0.fields@[k].field@ == f);
                                    }
                                }
                            }
                            assert forall|k: int|
                                0 <= k < p.fields@.len() implies (#[trigger] kept_field(fs, p.fields@[k].field@, jj + 1)) is Some by {
                                if k != x {
                                    assert(kept_field(fs, p0.fields@[k].field@, jj) is Some);
                                }
                            }
                            assert forall|k: int, d: Seq<char>|
                                #![trigger strings_view(p.fields@[k].document_refs@).contains(d)]
                                0 <= k < p.fields@.len() implies (strings_view(p.fields@[k].document_refs@).contains(d)
                                    <==> lists_doc(fs[kept_field(fs, p.fields@[k].field@, jj + 1)->0].docs->0@, d)) by {
                                if k != x {
                                    assert(strings_view(p0.fields@[k].document_refs@).contains(d) <==> lists_doc(
                                        fs[kept_field(fs, p0.fields@[k].field@, jj)->0].docs->0@,
                                        d,
                                    ));
                                }
                            }
                        }
                    },
                    None => {
                        p.fields.push(fp);
                        proof {
                            let x = p0.fields@.len() as int;
                            assert forall|k: int| 0 <= k < x implies #[trigger] p.fields@[k] == p0.fields@[k] && p0.fields@[k].field@ != name by {}
                            assert(p.fields@[x].field@ == name);
                            assert forall|a: int, b: int|
                                0 <= a < b < p.fields@.len() implies (#[trigger] p.fields@[a]).field@ != (#[trigger] p.fields@[b]).field@ by {
                                if b < x {
                                    assert(p0.fields@[a].field@ != p0.fields@[b].field@);
                                }
                            }
                            assert forall|f: Seq<char>|
                                #[trigger] kept_field(fs, f, jj + 1) is Some <==> exists|k: int|
                                    0 <= k < p.fields@.len() && (#[trigger] p.fields@[k]).field@ == f by {
                                if f == name {
                                    assert(p.fields@[x].field@ == f);
                                } else {
                                    if kept_field(fs, f, jj) is Some {
                                        let k = choose|k: int| 0 <= k < p0.fields@.len() && (#[trigger] p0.fields@[k]).field@ == f;
                                        assert(p.fields@[k].field@ == f);
                                    }
                                    if exists|k: int| 0 <= k < p.fields@.len() && (#[trigger] p.fields@[k]).field@ == f {
                                        let k = choose|k: int| 0 <= k < p.fields@.len() && (#[trigger] p.fields@[k]).field@ == f;
                                        assert(p0.fields@[k].field@ == f);
                                    }
                                }
                            }
                            assert forall|k: int|
                                0 <= k < p.fields@.len() implies (#[trigger] kept_field(fs, p.fields@[k].field@, jj + 1)) is Some by {
                                if k != x {
                                    assert(kept_field(fs, p0.fields@[k].field@, jj) is Some);
                                }
                            }
                            assert forall|k: int, d: Seq<char>|
                                #![trigger strings_view(p.fields@[k].document_refs@).contains(d)]
                                0 <= k < p.fields@.len() implies (strings_view(p.fields@[k].document_refs@).contains(d)
                                    <==> lists_doc(fs[kept_field(fs, p.fields@[k].field@, jj + 1)->0].docs->0@, d)) by {
                                if k != x {
                                    assert(strings_view(p0.fields@[k].document_refs@).contains(d) <==> lists_doc(
                                        fs[kept_field(fs, p0.fields@[k].field@, jj)->0].docs->0@,
                                        d,
                                    ));
                                }
                            }
                        }
                    },
                }
            },
        }
        j = j + 1;
    }
    p
}


/// `ix` holds what loading keeps of the first `n` entries of `es`.
spec fn index_holds(ix: InvertedIndex, es: Seq<Option<SerializedEntry>>, n: int) -> bool {
    &&& ix.wf()
    &&& forall|w: Seq<char>|
        #[trigger] kept_entry(es, w, n) is Some <==> exists|i: int|
            0 <= i < ix.entries@.len() && (#[trigger] ix.entries@[i]).0@ == w
    &&& forall|i: int|
        #![trigger ix.entries@[i]]
        0 <= i < ix.entries@.len() ==> {
            &&& kept_entry(es, ix.entries@[i].0@, n) is Some
            &&& posting_holds(
                ix.entries@[i].1,
                posting_at(es, kept_entry(es, ix.entries@[i].0@, n)->0),
                posting_at(es, kept_entry(es, ix.entries@[i].0@, n)->0).fields@.len() as int,
            )
            &&& posting_at(es, kept_entry(es, ix.entries@[i].0@, n)->0).index == Some(ix.entries@[i].1.index)
        }
}

/// The inverted index that loading makes of the entries `es`.
fn load_entries(es: &Vec<Option<SerializedEntry>>) -> (ix: InvertedIndex)
    ensures
        index_holds(ix, es@, es@.len() as int),
{
    let mut ix = InvertedIndex::new();
    let ghost s = es@;
    let mut i: usize = 0;
    while i < es.len()
        invariant
            s == es@,
            0 <= i <= s.len(),
            index_holds(ix, s, i as int),
        decreases es.len() - i,
    {
        let ghost ix0 = ix;
        let ghost ii = i as int;
        let mut added = false;
        match &es[i] {
            Some(e) => match &e.term {
                Some(t) => match &e.posting {
                    Some(sp) => match sp.index {
                        Some(k) => {
                            let p = load_posting(sp, k);
                            let ghost w0 = t@;
                            proof {
                                assert(loadable(s[ii]));
                                assert(kept_entry(s, w0, ii + 1) == Some(ii));
                                assert(posting_at(s, ii) == *sp);
                                assert forall|w: Seq<char>|
                                    w != w0 implies #[trigger] kept_entry(s, w, ii + 1) == kept_entry(s, w, ii) by {}
                            }
                            match ix.find_entry(t.as_str()) {
                                Some(x) => {
                                    ix.entries.set(x, (t.clone(), p));
                                    proof {
                                        let x = x as int;
                                        assert(ix.entries@[x].0@ == w0);
                                        assert forall|j: int| 0 <= j < ix.entries@.len() && j != x implies #[trigger] ix.entries@[j] == ix0.entries@[j] && ix0.entries@[j].0@ != w0 by {
                                            assert(ix0.entries@[j].0@ != ix0.entries@[x].0@);
                                        }
                                        assert forall|a: int, b: int|
                                            0 <= a < b < ix.entries@.len() implies (#[trigger] ix.entries@[a]).0@ != (#[trigger] ix.entries@[b]).0@ by {
                                            assert(ix0.entries@[a].0@ != ix0.entries@[b].0@);
                                        }
                                        assert forall|j: int| 0 <= j < ix.entries@.len() implies (#[trigger] ix.entries@[j]).1.wf() by {
                                            if j != x {
                                                assert(ix0.entries@[j].1.wf());
                                            }
                                        }
                                        assert forall|w: Seq<char>|
                                            #[trigger] kept_entry(s, w, ii + 1) is Some <==> exists|j: int|
                                                0 <= j < ix.entries@.len() && (#[trigger] ix.entries@[j]).0@ == w by {
                                            if w == w0 {
                                                assert(ix.entries@[x].0@ == w);
                                            } else {
                                                if kept_entry(s, w, ii) is Some {
                                                    let j = choose|j: int| 0 <= j < ix0.entries@.len() && (#[trigger] ix0.entries@[j]).0@ == w;
                                                    assert(ix.entries@[j].0@ == w);
                                                }
                                                if exists|j: int| 0 <= j < ix.entries@.len() && (#[trigger] ix.entries@[j]).0@ == w {
                                                    let j = choose|j: int| 0 <= j < ix.entries@.len() && (#[trigger] ix.entries@[j]).0@ == w;
                                                    assert(ix0.entries@[j].0@ == w);
                                                }
                                            }
                                        }
                                        assert forall|j: int| #![trigger ix.entries@[j]] 0 <= j < ix.entries@.len() && j != x implies {
                                            &&& kept_entry(s, ix.entries@[j].0@, ii + 1) is Some
                                            &&& posting_holds(
                                                ix.entries@[j].1,
                                                posting_at(s, kept_entry(s, ix.entries@[j].0@, ii + 1)->0),
                                                posting_at(s, kept_entry(s, ix.entries@[j].0@, ii + 1)->0).fields@.len() as int,
                                            )
                                            &&& posting_at(s, kept_entry(s, ix.entries@[j].0@, ii + 1)->0).index == Some(ix.entries@[j].1.index)
                                        } by {
                                            assert(ix0.entries@[j] == ix.entries@[j]);
                                            assert(kept_entry(s, ix.entries@[j].0@, ii + 1) == kept_entry(s, ix0.entries@[j].0@, ii));
                                        }
                                    }
                                },
                                None => {
                                    ix.entries.push((t.clone(), p));
                                    proof {
                                        let x = ix0.entries@.len() as int;
                                        assert(ix.entries@[x].0@ == w0);
                                        assert forall|j: int| 0 <= j < x implies #[trigger] ix.entries@[j] == ix0.entries@[j] && ix0.entries@[j].0@ != w0 by {}
                                        assert forall|a: int, b: int|
                                            0 <= a < b < ix.entries@.len() implies (#[trigger] ix.entries@[a]).0@ != (#[trigger] ix.entries@[b]).0@ by {
                                            if b < x {
                                                assert(ix0.entries@[a].0@ != ix0.entries@[b].0@);
                                            }
                                        }
                                        assert forall|j: int| 0 <= j < ix.entries@.len() implies (#[trigger] ix.entries@[j]).1.wf() by {
                                            if j != x {
                                                assert(ix0.entries@[j].1.wf());
                                            }
                                        }
                                        assert forall|w: Seq<char>|
                                            #[trigger] kept_entry(s, w, ii + 1) is Some <==> exists|j: int|
                                                0 <= j < ix.entries@.len() && (#[trigger] ix.entries@[j]).0@ == w by {
                                            if w == w0 {
                                                assert(ix.entries@[x].0@ == w);
                                            } else {
                                                if kept_entry(s, w, ii) is Some {
                                                    let j = choose|j: int| 0 <= j < ix0.entries@.len() && (#[trigger] ix0.entries@[j]).0@ == w;
                                                    assert(ix.entries@[j].0@ == w);
                                                }
                                                if exists|j: int| 0 <= j < ix.entries@.len() && (#[trigger] ix.entries@[j]).0@ == w {
                                                    let j = choose|j: int| 0 <= j < ix.entries@.len() && (#[trigger] ix.entries@[j]).0@ == w;
                                                    assert(ix0.entries@[j].0@ == w);
                                                }
                                            }
                                        }
                                        assert forall|j: int| #![trigger ix.entries@[j]] 0 <= j < ix.entries@.len() && j != x implies {
                                            &&& kept_entry(s, ix.entries@[j].0@, ii + 1) is Some
                                            &&& posting_holds(
                                                ix.entries@[j].1,
                                                posting_at(s, kept_entry(s, ix.entries@[j].0@, ii + 1)->0),
                                                posting_at(s, kept_entry(s, ix.entries@[j].0@, ii + 1)->0).fields@.len() as int,
                                            )
                                            &&& posting_at(s, kept_entry(s, ix.entries@[j].0@, ii + 1)->0).index == Some(ix.entries@[j].1.index)
                                        } by {
                                            assert(ix0.entries@[j] == ix.entries@[j]);
                                            assert(kept_entry(s, ix.entries@[j].0@, ii + 1) == kept_entry(s, ix0.entries@[j].0@, ii));
                                        }
                                    }
                                },
                            }
                            added = true;
                        },
                        None => {},
                    },
                    None => {},
                },
                None => {},
            },
            None => {},
        }
        if !added {
            proof {
                assert(!loadable(s[ii]));
                assert forall|w: Seq<char>| #[trigger] kept_entry(s, w, ii + 1) == kept_entry(s, w, ii) by {}
                assert forall|j: int| #![trigger ix.entries@[j]] 0 <= j < ix.entries@.len() implies
                    kept_entry(s, ix.entries@[j].0@, ii + 1) == kept_entry(s, ix.entries@[j].0@, ii) by {}
            }
        }
        i = i + 1;
    }
    ix
}


/// What `index_holds` says of all the entries, over the index's own views.
proof fn lemma_index_holds(ix: InvertedIndex, doc: SerializedIndex)
    requires
        doc.inverted_index is Some,
        index_holds(ix, doc.inverted_index->0@, doc.inverted_index->0@.len() as int),
    ensures
        forall|w: Seq<char>, f: Seq<char>| #[trigger] ix.has_field(w, f) <==> serialized_has_field(doc, w, f),
        forall|w: Seq<char>, f: Seq<char>, d: Seq<char>|
            #[trigger] ix.has_doc(w, f, d) <==> serialized_has_doc(doc, w, f, d),
        forall|w: Seq<char>|
            #[trigger] kept_posting(doc, w) is Some <==> exists|i: int|
                0 <= i < ix.entries@.len() && (#[trigger] ix.entries@[i]).0@ == w,
        forall|i: int|
            0 <= i < ix.entries@.len() ==> #[trigger] kept_posting(doc, ix.entries@[i].0@) is Some
                && kept_posting(doc, ix.entries@[i].0@)->0.index == Some(ix.entries@[i].1.index),
{
    let es = doc.inverted_index->0@;
    let n = es.len() as int;
    assert forall|w: Seq<char>|
        #[trigger] kept_posting(doc, w) is Some <==> exists|i: int|
            0 <= i < ix.entries@.len() && (#[trigger] ix.entries@[i]).0@ == w by {
        assert(kept_posting(doc, w) is Some <==> kept_entry(es, w, n) is Some);
    }
    assert forall|i: int|
        0 <= i < ix.entries@.len() implies #[trigger] kept_posting(doc, ix.entries@[i].0@) is Some
            && kept_posting(doc, ix.entries@[i].0@)->0.index == Some(ix.entries@[i].1.index) by {
        let e = ix.entries@[i];
    }
    assert forall|w: Seq<char>, f: Seq<char>| #[trigger] ix.has_field(w, f) <==> serialized_has_field(doc, w, f) by {
        if ix.has_field(w, f) {
            let (i, k) = choose|i: int, k: int|
                0 <= i < ix.entries@.len() && ix.entries@[i].0@ == w && 0 <= k < ix.entries@[i].1.fields@.len()
                    && (#[trigger] ix.entries@[i].1.fields@[k]).field@ == f;
            let e = ix.entries@[i];
            let sp = posting_at(es, kept_entry(es, w, n)->0);
            assert(kept_field(sp.fields@, e.1.fields@[k].field@, sp.fields@.len() as int) is Some);
        }
        if serialized_has_field(doc, w, f) {
            assert(kept_entry(es, w, n) is Some);
            let i = choose|i: int| 0 <= i < ix.entries@.len() && (#[trigger] ix.entries@[i]).0@ == w;
            let e = ix.entries@[i];
            let sp = posting_at(es, kept_entry(es, w, n)->0);
            assert(kept_field(sp.fields@, f, sp.fields@.len() as int) is Some);
            let k = choose|k: int| 0 <= k < e.1.fields@.len() && (#[trigger] e.1.fields@[k]).field@ == f;
            assert(ix.entries@[i].1.fields@[k].field@ == f);
        }
    }
    assert forall|w: Seq<char>, f: Seq<char>, d: Seq<char>|
        #[trigger] ix.has_doc(w, f, d) <==> serialized_has_doc(doc, w, f, d) by {
        if ix.has_doc(w, f, d) {
            let (i, k) = choose|i: int, k: int|
                0 <= i < ix.entries@.len() && ix.entries@[i].0@ == w && 0 <= k < ix.entries@[i].1.fields@.len()
                    && (#[trigger] ix.entries@[i].1.fields@[k]).field@ == f && strings_view(
                    ix.entries@[i].1.fields@[k].document_refs@,
                ).contains(d);
            let e = ix.entries@[i];
            let sp = posting_at(es, kept_entry(es, w, n)->0);
            assert(kept_field(sp.fields@, e.1.fields@[k].field@, sp.fields@.len() as int) is Some);
            assert(strings_view(e.1.fields@[k].document_refs@).contains(d));
        }
        if serialized_has_doc(doc, w, f, d) {
            assert(kept_entry(es, w, n) is Some);
            let i = choose|i: int| 0 <= i < ix.entries@.len() && (#[trigger] ix.entries@[i]).0@ == w;
            let e = ix.entries@[i];
            let sp = posting_at(es, kept_entry(es, w, n)->0);
            assert(kept_field(sp.fields@, f, sp.fields@.len() as int) is Some);
            let k = choose|k: int| 0 <= k < e.1.fields@.len() && (#[trigger] e.1.fields@[k]).field@ == f;
            assert(strings_view(e.1.fields@[k].document_refs@).contains(d) <==> lists_doc(
                sp.fields@[kept_field(sp.fields@, e.1.fields@[k].field@, sp.fields@.len() as int)->0].docs->0@,
                d,
            ));
            assert(ix.entries@[i].1.fields@[k].field@ == f);
        }
    }
}

/// The strings among `items`, in order.
fn strings_among_exec(items: &Vec<Option<String>>) -> (r: Vec<String>)
    ensures
        strings_view(r@) == strings_among(items@),
{
    let mut r: Vec<String> = Vec::new();
    let mut i: usize = 0;
    while i < items.len()
        invariant
            0 <= i <= items@.len(),
            strings_view(r@) == strings_among(items@.take(i as int)),
        decreases items.len() - i,
    {
        let ghost before = r@;
        proof {
            assert(items@.take(i + 1).drop_last() =~= items@.take(i as int));
            assert(items@.take(i + 1).last() == items@[i as int]);
        }
        match &items[i] {
            Some(x) => {
                r.push(x.clone());
                proof {
                    assert(strings_view(r@) =~= strings_view(before).push(x@));
                }
            },
            None => {},
        }
        i = i + 1;
    }
    proof {
        assert(items@.take(items@.len() as int) =~= items@);
    }
    r
}

/// The references of field vectors that have nothing wrong with them.
fn vector_refs_exec(vs: &Vec<Option<SerializedVector>>) -> (r: Vec<String>)
    requires
        first_vector_error(vs@) is None,
    ensures
        strings_view(r@) == vector_refs(vs@),
{
    let mut r: Vec<String> = Vec::new();
    let mut i: usize = 0;
    while i < vs.len()
        invariant
            0 <= i <= vs@.len(),
            first_vector_error(vs@) is None,
            strings_view(r@) == vector_refs(vs@).take(i as int),
        decreases vs.len() - i,
    {
        proof {
            lemma_vectors_sound(vs@, i as int);
        }
        match &vs[i] {
            Some(v) => match &v.field_ref {
                Some(x) => {
                    let ghost before = r@;
                    r.push(x.clone());
                    proof {
                        assert(strings_view(r@) =~= strings_view(before).push(x@));
                        assert(vector_refs(vs@).take(i + 1) =~= vector_refs(vs@).take(i as int).push(x@));
                    }
                },
                None => {},
            },
            None => {},
        }
        i = i + 1;
    }
    proof {
        assert(vector_refs(vs@).take(vs@.len() as int) =~= vector_refs(vs@));
    }
    r
}

/// Loads a serialized index: an error, after "malformed serialized index, ",
/// exactly where its shape is wrong; otherwise its version ("unknown" where
/// it has none), its fields, the references of its field vectors, an
/// inverted index that holds what its entries record
/// (a later entry of a term, or a later key of a field, taking the place of
/// an earlier one), the set of all its terms, and the pipeline of the
/// built-in functions that its labels name.
pub fn load_index(doc: &SerializedIndex) -> (r: Result<LoadedIndex, String>)
    ensures
        r is Err <==> load_error(*doc) is Some,
        r is Err ==> r->Err_0@ == malformed_prefix() + load_error(*doc)->0,
        r is Ok ==> sorted_words(entry_terms(*doc)),
        r is Ok ==> {
            let ix = r->Ok_0;
            &&& ix.version@ == (match doc.version {
                Some(v) => v@,
                None => "unknown"@,
            })
            &&& strings_view(ix.fields@) == strings_among(doc.fields->0@)
            &&& strings_view(ix.field_refs@) == vector_refs(doc.field_vectors->0@)
            &&& ix.inverted_index.wf()
            &&& forall|w: Seq<char>, f: Seq<char>|
                #[trigger] ix.inverted_index.has_field(w, f) <==> serialized_has_field(*doc, w, f)
            &&& forall|w: Seq<char>, f: Seq<char>, d: Seq<char>|
                #[trigger] ix.inverted_index.has_doc(w, f, d) <==> serialized_has_doc(*doc, w, f, d)
            &&& forall|w: Seq<char>|
                #[trigger] kept_posting(*doc, w) is Some <==> exists|i: int|
                    0 <= i < ix.inverted_index.entries@.len() && (#[trigger] ix.inverted_index.entries@[i]).0@ == w
            &&& forall|i: int|
                0 <= i < ix.inverted_index.entries@.len() ==> #[trigger] kept_posting(
                    *doc,
                    ix.inverted_index.entries@[i].0@,
                ) is Some && kept_posting(*doc, ix.inverted_index.entries@[i].0@)->0.index == Some(
                    ix.inverted_index.entries@[i].1.index,
                )
            &&& ix.token_set.wf()
            &&& ix.token_set.is_acyclic()
            &&& ix.token_set.is_minimal()
            &&& forall|w: Seq<char>| #[trigger] ix.token_set.words().contains(w) <==> entry_terms(*doc).contains(w)
            &&& ix.pipeline.functions() == named_functions(doc.pipeline->0@)
        },
{
    match check_serialized(doc) {
        Err(m) => {
            return Err(m);
        },
        Ok(()) => {},
    }
    let version = match &doc.version {
        Some(v) => v.clone(),
        None => "unknown".to_owned(),
    };
    let fields = match &doc.fields {
        Some(items) => strings_among_exec(items),
        None => vstd::pervasive::unreached(),
    };
    let field_refs = match &doc.field_vectors {
        Some(vs) => vector_refs_exec(vs),
        None => vstd::pervasive::unreached(),
    };
    match &doc.inverted_index {
        Some(es) => {
            let inverted_index = load_entries(es);
            let terms = entry_terms_exec(es);
            let token_set = TokenSet::from_array(terms.as_slice());
            let pipeline = pipeline_from_labels(&doc.pipeline);
            proof {
                lemma_index_holds(inverted_index, *doc);
            }
            Ok(LoadedIndex { version, fields, field_refs, inverted_index, token_set, pipeline })
        },
        None => vstd::pervasive::unreached(),
    }
}


/// The version of the serialized format that this library writes and reads.
pub open spec fn format_version() -> Seq<char> {
    "2.3.9"@
}

/// Whether a loaded index's version differs from the format's; loading then
/// goes on, with a warning.
pub fn version_differs(version: &str) -> (r: bool)
    ensures
        r == (version@ != format_version()),
{
    proof {
        reveal_strlit("2.3.9");
    }
    !crate::text::str_eq(version, "2.3.9")
}

} // verus!
