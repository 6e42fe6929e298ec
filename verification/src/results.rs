use vstd::prelude::*;
use crate::text::{copy_strings, str_eq, strings_view};
use crate::set::contains_string;
use crate::token::{Metadata, MetadataModel};
use crate::match_data::{
    MatchData, combine_terms, add_model, assoc_map, assoc_distinct, lemma_assoc_dom, lemma_assoc_get,
    lemma_assoc_remove, lemma_assoc_push,
};
use crate::field_ref::{FieldRef, parse_ref_text, ref_text};
use crate::search::DocumentFilter;

verus! {

// ---------------------------------------------------------------------------
// The results of a query: one per document, from the field references that
// matched.
// ---------------------------------------------------------------------------

/// What a match records: for each term, its fields, their keys and values.
pub type MatchModel = Map<Seq<char>, Map<Seq<char>, Map<Seq<char>, Seq<MetadataModel>>>>;

/// The first entry of `matched` from index `i` on whose field reference is `r`.
pub open spec fn match_index(matched: Seq<(String, MatchData)>, r: Seq<char>, i: int) -> Option<int>
    decreases matched.len() - i,
{
    if i < 0 || i >= matched.len() {
        None
    } else if matched[i].0@ == r {
        Some(i)
    } else {
        match_index(matched, r, i + 1)
    }
}

/// The match data that `matched` records for field reference `r`: that of its
/// first entry for `r`, if there is one.
pub open spec fn match_for(matched: Seq<(String, MatchData)>, r: Seq<char>) -> Option<MatchModel> {
    match match_index(matched, r, 0) {
        Some(i) => Some(matched[i].1.model()),
        None => None,
    }
}

/// The document that field reference `r` counts for: the document it names,
/// where `r` reads as `field/document`, is one of the field references `all`,
/// and the filter admits that document.
pub open spec fn counted_doc(filter: DocumentFilter, all: Seq<Seq<char>>, r: Seq<char>) -> Option<Seq<char>> {
    match parse_ref_text(r) {
        Some(p) => if all.contains(r) && filter.admits_doc(p.0) {
            Some(p.0)
        } else {
            None
        },
        None => None,
    }
}

/// Some one of the first `n` field references of `cs` counts for document `d`.
pub open spec fn counted_by(filter: DocumentFilter, all: Seq<Seq<char>>, cs: Seq<Seq<char>>, n: int, d: Seq<char>) -> bool {
    exists|j: int| 0 <= j < n && #[trigger] counted_doc(filter, all, cs[j]) == Some(d)
}

/// The position of document `d` among the results `rs`, if it is there.
pub open spec fn doc_index(rs: Seq<(Seq<char>, MatchModel)>, d: Seq<char>) -> Option<int> {
    if exists|i: int| 0 <= i < rs.len() && (#[trigger] rs[i]).0 == d {
        Some(choose|i: int| 0 <= i < rs.len() && (#[trigger] rs[i]).0 == d)
    } else {
        None
    }
}

/// The results of the field references `cs`, taken in order: one per
/// document, in the order in which documents first count, each with the match
/// data of the references that count for it combined in that order, starting
/// from an empty match.
pub open spec fn results_of(
    filter: DocumentFilter,
    matched: Seq<(String, MatchData)>,
    all: Seq<Seq<char>>,
    cs: Seq<Seq<char>>,
) -> Seq<(Seq<char>, MatchModel)>
    decreases cs.len(),
{
    if cs.len() == 0 {
        Seq::empty()
    } else {
        let prev = results_of(filter, matched, all, cs.drop_last());
        match counted_doc(filter, all, cs.last()) {
            None => prev,
            Some(d) => {
                let m = match_for(matched, cs.last());
                match doc_index(prev, d) {
                    Some(i) => prev.update(
                        i,
                        (
                            d,
                            match m {
                                Some(x) => combine_terms(prev[i].1, x),
                                None => prev[i].1,
                            },
                        ),
                    ),
                    None => prev.push(
                        (
                            d,
                            match m {
                                Some(x) => combine_terms(Map::empty(), x),
                                None => Map::empty(),
                            },
                        ),
                    ),
                }
            },
        }
    }
}

/// The field references that a query considers: all of the index's for a
/// negated query, otherwise those that matched.
pub open spec fn considered_refs(matched: Seq<(String, MatchData)>, negated: bool, all: Seq<Seq<char>>) -> Seq<
    Seq<char>,
> {
    if negated {
        all
    } else {
        matched.map_values(|p: (String, MatchData)| p.0@)
    }
}

/// The documents and match data of results.
pub open spec fn results_view(v: Seq<(String, MatchData)>) -> Seq<(Seq<char>, MatchModel)> {
    v.map_values(|p: (String, MatchData)| (p.0@, p.1.model()))
}

fn matched_refs(matched: &Vec<(String, MatchData)>) -> (r: Vec<String>)
    ensures
        strings_view(r@) == matched@.map_values(|p: (String, MatchData)| p.0@),
{
    let mut r: Vec<String> = Vec::new();
    let mut i: usize = 0;
    while i < matched.len()
        invariant
            0 <= i <= matched@.len(),
            strings_view(r@) == matched@.map_values(|p: (String, MatchData)| p.0@).take(i as int),
        decreases matched.len() - i,
    {
        let ghost before = r@;
        r.push(matched[i].0.clone());
        proof {
            assert(strings_view(r@) =~= strings_view(before).push(matched@[i as int].0@));
            assert(matched@.map_values(|p: (String, MatchData)| p.0@).take(i + 1) =~= matched@.map_values(
                |p: (String, MatchData)| p.0@,
            ).take(i as int).push(matched@[i as int].0@));
        }
        i = i + 1;
    }
    proof {
        assert(matched@.map_values(|p: (String, MatchData)| p.0@).take(matched@.len() as int) =~= matched@.map_values(
            |p: (String, MatchData)| p.0@,
        ));
    }
    r
}

fn find_match(matched: &Vec<(String, MatchData)>, r: &str) -> (k: Option<usize>)
    ensures
        k matches Some(i) ==> match_index(matched@, r@, 0) == Some(i as int) && i < matched@.len(),
        k is None ==> match_index(matched@, r@, 0) is None,
{
    let ghost m = matched@;
    let mut i: usize = matched.len();
    let mut found: Option<usize> = None;
    proof {
        assert(match_index(m, r@, m.len() as int) is None);
    }
    while i > 0
        invariant
            m == matched@,
            0 <= i <= m.len(),
            found matches Some(j) ==> match_index(m, r@, i as int) == Some(j as int) && j < m.len(),
            found is None ==> match_index(m, r@, i as int) is None,
        decreases i,
    {
        i = i - 1;
        if str_eq(matched[i].0.as_str(), r) {
            found = Some(i);
        }
    }
    found
}

fn find_doc(results: &Vec<(String, MatchData)>, d: &str) -> (k: Option<usize>)
    ensures
        k matches Some(i) ==> i < results@.len() && results@[i as int].0@ == d@,
        k is None ==> forall|i: int| 0 <= i < results@.len() ==> (#[trigger] results@[i]).0@ != d@,
{
    let mut i: usize = 0;
    while i < results.len()
        invariant
            0 <= i <= results@.len(),
            forall|j: int| 0 <= j < i ==> (#[trigger] results@[j]).0@ != d@,
        decreases results.len() - i,
    {
        if str_eq(results[i].0.as_str(), d) {
            return Some(i);
        }
        i = i + 1;
    }
    None
}

/// The results of a query, assembled from the field references it considers
/// (all of `all_refs` when `negated`, otherwise the references of `matched`,
/// each with its match data), in order: a reference counts where it reads as
/// `field/document`, is among `all_refs` and the filter admits its document.
/// There is one result per document that some considered reference counts
/// for, in the order in which documents first count, with the match data of
/// its references combined.
pub fn collect_results(
    filter: &DocumentFilter,
    matched: &Vec<(String, MatchData)>,
    negated: bool,
    all_refs: &Vec<String>,
) -> (r: Vec<(String, MatchData)>)
    requires
        forall|i: int| 0 <= i < matched@.len() ==> (#[trigger] matched@[i]).1.wf(),
    ensures
        results_view(r@) == results_of(
            *filter,
            matched@,
            strings_view(all_refs@),
            considered_refs(matched@, negated, strings_view(all_refs@)),
        ),
        forall|i: int| 0 <= i < r@.len() ==> (#[trigger] r@[i]).1.wf(),
        forall|i: int, j: int| 0 <= i < j < r@.len() ==> (#[trigger] r@[i]).0@ != (#[trigger] r@[j]).0@,
        ({
            let cs = considered_refs(matched@, negated, strings_view(all_refs@));
            forall|d: Seq<char>|
                (exists|i: int| 0 <= i < r@.len() && (#[trigger] r@[i]).0@ == d) <==> #[trigger] counted_by(
                    *filter,
                    strings_view(all_refs@),
                    cs,
                    cs.len() as int,
                    d,
                )
        }),
{
    let ghost all = strings_view(all_refs@);
    let refs = if negated {
        copy_strings(all_refs)
    } else {
        matched_refs(matched)
    };
    let ghost cs = strings_view(refs@);
    let mut results: Vec<(String, MatchData)> = Vec::new();
    let mut i: usize = 0;
    proof {
        assert(cs.take(0) =~= Seq::<Seq<char>>::empty());
        assert(results_view(results@) =~= Seq::<(Seq<char>, MatchModel)>::empty());
    }
    while i < refs.len()
        invariant
            cs == strings_view(refs@),
            cs == considered_refs(matched@, negated, all),
            all == strings_view(all_refs@),
            0 <= i <= cs.len(),
            forall|k: int| 0 <= k < matched@.len() ==> (#[trigger] matched@[k]).1.wf(),
            results_view(results@) == results_of(*filter, matched@, all, cs.take(i as int)),
            forall|k: int| 0 <= k < results@.len() ==> (#[trigger] results@[k]).1.wf(),
            forall|a: int, b: int|
                0 <= a < b < results@.len() ==> (#[trigger] results@[a]).0@ != (#[trigger] results@[b]).0@,
            forall|d: Seq<char>|
                (exists|k: int| 0 <= k < results@.len() && (#[trigger] results@[k]).0@ == d) <==> #[trigger] counted_by(
                    *filter,
                    all,
                    cs,
                    i as int,
                    d,
                ),
        decreases refs.len() - i,
    {
        let ghost rs0 = results@;
        let ghost prev = results_view(rs0);
        let ghost c = cs[i as int];
        proof {
            assert(cs.take(i + 1).drop_last() =~= cs.take(i as int));
            assert(cs.take(i + 1).last() == c);
            assert(refs@[i as int]@ == c);
        }
        let mut counted = false;
        match FieldRef::from_string(refs[i].as_str()) {
            Some(fr) => {
                if contains_string(all_refs, refs[i].as_str()) && filter.admits(fr.document_ref.as_str()) {
                    let ghost d = fr.document_ref@;
                    proof {
                        assert(counted_doc(*filter, all, c) == Some(d));
                    }
                    let m = find_match(matched, refs[i].as_str());
                    let ghost mut kd: int = 0;
                    match find_doc(&results, fr.document_ref.as_str()) {
                        Some(k) => {
                            proof {
                                assert(prev[k as int].0 == d);
                                assert(doc_index(prev, d) == Some(k as int)) by {
                                    let j = choose|j: int| 0 <= j < prev.len() && (#[trigger] prev[j]).0 == d;
                                    assert(rs0[j].0@ == d);
                                    if j != k as int {
                                        if j < k {
                                            assert(rs0[j].0@ != rs0[k as int].0@);
                                        } else {
                                            assert(rs0[k as int].0@ != rs0[j].0@);
                                        }
                                    }
                                }
                            }
                            let (dr, mut md) = results.remove(k);
                            match m {
                                Some(mi) => {
                                    md.combine(&matched[mi].1);
                                },
                                None => {},
                            }
                            results.insert(k, (dr, md));
                            proof {
                                assert(results@ =~= rs0.update(k as int, (dr, md)));
                                assert(results_view(results@) =~= prev.update(k as int, (d, md.model())));
                                kd = k as int;
                                assert(results@[kd].0@ == d);
                            }
                        },
                        None => {
                            proof {
                                assert(doc_index(prev, d) is None) by {
                                    if exists|j: int| 0 <= j < prev.len() && (#[trigger] prev[j]).0 == d {
                                        let j = choose|j: int| 0 <= j < prev.len() && (#[trigger] prev[j]).0 == d;
                                        assert(rs0[j].0@ == d);
                                    }
                                }
                            }
                            let empty: Vec<(String, Vec<Metadata>)> = Vec::new();
                            let mut md = MatchData::new(None, "", &empty);
                            match m {
                                Some(mi) => {
                                    md.combine(&matched[mi].1);
                                },
                                None => {},
                            }
                            results.push((fr.document_ref, md));
                            proof {
                                assert(results_view(results@) =~= prev.push((d, md.model())));
                                kd = rs0.len() as int;
                                assert(results@[kd].0@ == d);
                            }
                        },
                    }
                    counted = true;
                    proof {
                        assert forall|k: int| 0 <= k < rs0.len() implies (#[trigger] results@[k]).0@ == rs0[k].0@ by {
                            assert(results_view(results@)[k].0 == results@[k].0@);
                            assert(prev[k].0 == rs0[k].0@);
                        }
                        assert(results@.len() == rs0.len() || (results@.len() == rs0.len() + 1
                            && results@[rs0.len() as int].0@ == d)) by {
                            if results@.len() != rs0.len() {
                                assert(results_view(results@)[rs0.len() as int].0 == results@[rs0.len() as int].0@);
                            }
                        }
                        assert(0 <= kd < results@.len() && results@[kd].0@ == d);
                        assert forall|a: int, b: int|
                            0 <= a < b < results@.len() implies (#[trigger] results@[a]).0@ != (#[trigger] results@[b]).0@ by {
                            if b < rs0.len() {
                                assert(rs0[a].0@ != rs0[b].0@);
                            } else {
                                if rs0[a].0@ == d {
                                    assert(exists|k: int| 0 <= k < rs0.len() && (#[trigger] rs0[k]).0@ == d);
                                }
                            }
                        }
                        assert forall|d2: Seq<char>|
                            (exists|k: int| 0 <= k < results@.len() && (#[trigger] results@[k]).0@ == d2) <==> #[trigger] counted_by(
                                *filter,
                                all,
                                cs,
                                i + 1,
                                d2,
                            ) by {
                            if exists|k: int| 0 <= k < results@.len() && (#[trigger] results@[k]).0@ == d2 {
                                let k = choose|k: int| 0 <= k < results@.len() && (#[trigger] results@[k]).0@ == d2;
                                if k < rs0.len() {
                                    assert(rs0[k].0@ == d2);
                                    assert(counted_by(*filter, all, cs, i as int, d2));
                                    let j = choose|j: int| 0 <= j < i && #[trigger] counted_doc(*filter, all, cs[j]) == Some(d2);
                                } else {
                                    assert(counted_doc(*filter, all, cs[i as int]) == Some(d2));
                                }
                            }
                            if counted_by(*filter, all, cs, i + 1, d2) {
                                let j = choose|j: int| 0 <= j < i + 1 && #[trigger] counted_doc(*filter, all, cs[j]) == Some(d2);
                                if j < i {
                                    assert(counted_by(*filter, all, cs, i as int, d2));
                                    let k = choose|k: int| 0 <= k < rs0.len() && (#[trigger] rs0[k]).0@ == d2;
                                    assert(results@[k].0@ == d2);
                                } else {
                                    assert(results@[kd].0@ == d2);
                                }
                            }
                        }
                    }
                }
            },
            None => {},
        }
        if !counted {
            proof {
                assert(counted_doc(*filter, all, c) is None);
                assert forall|d2: Seq<char>|
                    (exists|k: int| 0 <= k < results@.len() && (#[trigger] results@[k]).0@ == d2) <==> #[trigger] counted_by(
                        *filter,
                        all,
                        cs,
                        i + 1,
                        d2,
                    ) by {
                    if counted_by(*filter, all, cs, i + 1, d2) {
                        let j = choose|j: int| 0 <= j < i + 1 && #[trigger] counted_doc(*filter, all, cs[j]) == Some(d2);
                        assert(j < i);
                        assert(counted_by(*filter, all, cs, i as int, d2));
                    }
                    if counted_by(*filter, all, cs, i as int, d2) {
                        let j = choose|j: int| 0 <= j < i && #[trigger] counted_doc(*filter, all, cs[j]) == Some(d2);
                        assert(counted_by(*filter, all, cs, i + 1, d2));
                    }
                }
            }
        }
        i = i + 1;
    }
    proof {
        assert(cs.take(cs.len() as int) =~= cs);
    }
    results
}


// ---------------------------------------------------------------------------
// Gathering the match data of field references.
// ---------------------------------------------------------------------------

pub open spec fn ref_key() -> spec_fn((String, MatchData)) -> Seq<char> {
    |p: (String, MatchData)| p.0@
}

pub open spec fn ref_val() -> spec_fn((String, MatchData)) -> MatchModel {
    |p: (String, MatchData)| p.1.model()
}

/// The match data that a list records for each field reference.
pub open spec fn matches_map(v: Seq<(String, MatchData)>) -> Map<Seq<char>, MatchModel> {
    assoc_map(v, ref_key(), ref_val())
}

/// No field reference appears twice, and each match is well formed.
pub open spec fn matches_wf(v: Seq<(String, MatchData)>) -> bool {
    &&& assoc_distinct(v, ref_key())
    &&& forall|i: int| 0 <= i < v.len() ==> (#[trigger] v[i]).1.wf()
}

/// `m` with a match of `term` in `field` recorded under the field reference
/// of document `d` in `field`; the postings hold no metadata.
pub open spec fn with_match(m: Map<Seq<char>, MatchModel>, term: Seq<char>, field: Seq<char>, d: Seq<char>) -> Map<
    Seq<char>,
    MatchModel,
> {
    let k = ref_text(d, field);
    m.insert(
        k,
        add_model(if m.contains_key(k) { m[k] } else { Map::empty() }, term, field, Seq::empty()),
    )
}

/// `m` with a match of `term` in `field` recorded for each of `docs`, in order.
pub open spec fn with_matches(m: Map<Seq<char>, MatchModel>, term: Seq<char>, field: Seq<char>, docs: Seq<Seq<char>>) -> Map<
    Seq<char>,
    MatchModel,
>
    decreases docs.len(),
{
    if docs.len() == 0 {
        m
    } else {
        with_match(with_matches(m, term, field, docs.drop_last()), term, field, docs.last())
    }
}

fn find_ref(acc: &Vec<(String, MatchData)>, r: &str) -> (k: Option<usize>)
    ensures
        k matches Some(i) ==> i < acc@.len() && acc@[i as int].0@ == r@,
        k is None ==> forall|i: int| 0 <= i < acc@.len() ==> (#[trigger] acc@[i]).0@ != r@,
{
    let mut i: usize = 0;
    while i < acc.len()
        invariant
            0 <= i <= acc@.len(),
            forall|j: int| 0 <= j < i ==> (#[trigger] acc@[j]).0@ != r@,
        decreases acc.len() - i,
    {
        if str_eq(acc[i].0.as_str(), r) {
            return Some(i);
        }
        i = i + 1;
    }
    None
}

/// Records a match of `term` in `field` under the field reference
/// `field/doc` of each of `docs`: a reference seen before gets the term
/// added to its match data, a new one starts with it. The postings hold no
/// metadata, so the match carries none.
pub fn add_matches(acc: &mut Vec<(String, MatchData)>, term: &str, field: &str, docs: &Vec<String>)
    requires
        matches_wf(old(acc)@),
    ensures
        matches_wf(final(acc)@),
        matches_map(final(acc)@) == with_matches(matches_map(old(acc)@), term@, field@, strings_view(docs@)),
{
    let ghost ds = strings_view(docs@);
    let ghost m0 = matches_map(acc@);
    let empty: Vec<(String, Vec<Metadata>)> = Vec::new();
    let mut i: usize = 0;
    proof {
        assert(ds.take(0) =~= Seq::<Seq<char>>::empty());
    }
    while i < docs.len()
        invariant
            ds == strings_view(docs@),
            0 <= i <= ds.len(),
            empty@.len() == 0,
            matches_wf(acc@),
            matches_map(acc@) == with_matches(m0, term@, field@, ds.take(i as int)),
        decreases docs.len() - i,
    {
        let ghost v0 = acc@;
        let ghost mm = matches_map(v0);
        let fr = FieldRef::new(docs[i].as_str(), field);
        let key = fr.to_ref_string();
        let ghost k = key@;
        proof {
            assert(ds.take(i + 1).drop_last() =~= ds.take(i as int));
            assert(ds.take(i + 1).last() == docs@[i as int]@);
            assert(empty@ =~= Seq::<(String, Vec<Metadata>)>::empty());
        }
        match find_ref(acc, key.as_str()) {
            Some(j) => {
                proof {
                    lemma_assoc_get(v0, ref_key(), ref_val(), j as int);
                    lemma_assoc_remove(v0, ref_key(), ref_val(), j as int);
                }
                let (r, mut md) = acc.remove(j);
                proof {
                    assert(mm.contains_key(k) && mm[k] == md.model());
                }
                md.add(term, field, &empty);
                let ghost v1 = acc@;
                acc.push((r, md));
                proof {
                    lemma_assoc_push(v1, ref_key(), ref_val(), (r, md));
                    assert(matches_map(acc@) =~= mm.insert(k, add_model(mm[k], term@, field@, Seq::empty())));
                    assert forall|a: int, b: int| 0 <= a < b < acc@.len() implies ref_key()(#[trigger] acc@[a]) != ref_key()(#[trigger] acc@[b]) by {
                        if b == acc@.len() - 1 {
                            assert(acc@[a] == v1[a]);
                            lemma_assoc_dom(v1, ref_key(), ref_val(), k);
                            if ref_key()(v1[a]) == k {
                                assert(matches_map(v1).contains_key(k));
                            }
                        } else {
                            assert(acc@[a] == v1[a] && acc@[b] == v1[b]);
                        }
                    }
                    assert forall|q: int| 0 <= q < acc@.len() implies (#[trigger] acc@[q]).1.wf() by {
                        if q < v1.len() {
                            assert(acc@[q] == v1[q]);
                            let q2 = if q < j { q } else { q + 1 };
                            assert(v1[q] == v0[q2]);
                        }
                    }
                }
            },
            None => {
                proof {
                    lemma_assoc_dom(v0, ref_key(), ref_val(), k);
                    assert(!mm.contains_key(k));
                }
                let mut md = MatchData::new(None, "", &empty);
                md.add(term, field, &empty);
                acc.push((key, md));
                proof {
                    lemma_assoc_push(v0, ref_key(), ref_val(), (key, md));
                    assert(matches_map(acc@) =~= mm.insert(k, add_model(Map::empty(), term@, field@, Seq::empty())));
                    assert forall|a: int, b: int| 0 <= a < b < acc@.len() implies ref_key()(#[trigger] acc@[a]) != ref_key()(#[trigger] acc@[b]) by {
                        if b == acc@.len() - 1 {
                            assert(acc@[a] == v0[a]);
                        } else {
                            assert(acc@[a] == v0[a] && acc@[b] == v0[b]);
                        }
                    }
                    assert forall|q: int| 0 <= q < acc@.len() implies (#[trigger] acc@[q]).1.wf() by {
                        if q < v0.len() {
                            assert(acc@[q] == v0[q]);
                        }
                    }
                }
            },
        }
        i = i + 1;
    }
    proof {
        assert(ds.take(ds.len() as int) =~= ds);
    }
}

} // verus!
