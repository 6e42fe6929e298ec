use vstd::prelude::*;
use crate::text::str_eq;
use crate::token::{Metadata, MetadataModel};

verus! {

// ---------------------------------------------------------------------------
// Association lists read as maps.
// ---------------------------------------------------------------------------

/// The map that a list of entries stands for: each entry's key to its value,
/// a later entry winning over an earlier one with the same key.
pub open spec fn assoc_map<E, V>(s: Seq<E>, key: spec_fn(E) -> Seq<char>, val: spec_fn(E) -> V) -> Map<
    Seq<char>,
    V,
>
    decreases s.len(),
{
    if s.len() == 0 {
        Map::empty()
    } else {
        assoc_map(s.drop_last(), key, val).insert(key(s.last()), val(s.last()))
    }
}

/// No two entries have the same key.
pub open spec fn assoc_distinct<E>(s: Seq<E>, key: spec_fn(E) -> Seq<char>) -> bool {
    forall|i: int, j: int| 0 <= i < j < s.len() ==> key(#[trigger] s[i]) != key(#[trigger] s[j])
}

pub proof fn lemma_assoc_push<E, V>(s: Seq<E>, key: spec_fn(E) -> Seq<char>, val: spec_fn(E) -> V, e: E)
    ensures
        assoc_map(s.push(e), key, val) == assoc_map(s, key, val).insert(key(e), val(e)),
{
    assert(s.push(e).drop_last() =~= s);
}

pub proof fn lemma_assoc_dom<E, V>(s: Seq<E>, key: spec_fn(E) -> Seq<char>, val: spec_fn(E) -> V, x: Seq<char>)
    ensures
        assoc_map(s, key, val).contains_key(x) <==> exists|i: int| 0 <= i < s.len() && key(#[trigger] s[i]) == x,
    decreases s.len(),
{
    if s.len() > 0 {
        lemma_assoc_dom(s.drop_last(), key, val, x);
        if exists|i: int| 0 <= i < s.drop_last().len() && key(#[trigger] s.drop_last()[i]) == x {
            let i = choose|i: int| 0 <= i < s.drop_last().len() && key(#[trigger] s.drop_last()[i]) == x;
            assert(s[i] == s.drop_last()[i]);
        }
        if exists|i: int| 0 <= i < s.len() && key(#[trigger] s[i]) == x {
            let i = choose|i: int| 0 <= i < s.len() && key(#[trigger] s[i]) == x;
            if i < s.len() - 1 {
                assert(s.drop_last()[i] == s[i]);
            }
        }
    }
}

pub proof fn lemma_assoc_get<E, V>(s: Seq<E>, key: spec_fn(E) -> Seq<char>, val: spec_fn(E) -> V, i: int)
    requires
        assoc_distinct(s, key),
        0 <= i < s.len(),
    ensures
        assoc_map(s, key, val).contains_key(key(s[i])),
        assoc_map(s, key, val)[key(s[i])] == val(s[i]),
    decreases s.len(),
{
    if i < s.len() - 1 {
        let t = s.drop_last();
        assert(t[i] == s[i]);
        assert(assoc_distinct(t, key)) by {
            assert forall|a: int, b: int| 0 <= a < b < t.len() implies key(#[trigger] t[a]) != key(#[trigger] t[b]) by {
                assert(t[a] == s[a] && t[b] == s[b]);
            }
        }
        lemma_assoc_get(t, key, val, i);
        assert(key(s[i]) != key(s.last()));
    }
}

/// Without entry `i`, the map loses that entry's key.
pub proof fn lemma_assoc_remove<E, V>(s: Seq<E>, key: spec_fn(E) -> Seq<char>, val: spec_fn(E) -> V, i: int)
    requires
        assoc_distinct(s, key),
        0 <= i < s.len(),
    ensures
        assoc_map(s.remove(i), key, val) == assoc_map(s, key, val).remove(key(s[i])),
        assoc_distinct(s.remove(i), key),
    decreases s.len(),
{
    let r = s.remove(i);
    assert(assoc_distinct(r, key)) by {
        assert forall|a: int, b: int| 0 <= a < b < r.len() implies key(#[trigger] r[a]) != key(#[trigger] r[b]) by {
            let a2 = if a < i { a } else { a + 1 };
            let b2 = if b < i { b } else { b + 1 };
            assert(r[a] == s[a2] && r[b] == s[b2]);
        }
    }
    if i == s.len() - 1 {
        assert(r =~= s.drop_last());
        let t = s.drop_last();
        assert forall|x: Seq<char>| assoc_map(t, key, val).contains_key(x) implies x != key(s.last()) by {
            lemma_assoc_dom(t, key, val, x);
            let j = choose|j: int| 0 <= j < t.len() && key(#[trigger] t[j]) == x;
            assert(t[j] == s[j]);
        }
        assert(assoc_map(r, key, val) =~= assoc_map(s, key, val).remove(key(s[i])));
    } else {
        let t = s.drop_last();
        assert(t[i] == s[i]);
        assert(assoc_distinct(t, key)) by {
            assert forall|a: int, b: int| 0 <= a < b < t.len() implies key(#[trigger] t[a]) != key(#[trigger] t[b]) by {
                assert(t[a] == s[a] && t[b] == s[b]);
            }
        }
        lemma_assoc_remove(t, key, val, i);
        assert(r =~= t.remove(i).push(s.last()));
        lemma_assoc_push(t.remove(i), key, val, s.last());
        assert(key(s[i]) != key(s.last()));
        assert(assoc_map(r, key, val) =~= assoc_map(s, key, val).remove(key(s[i])));
    }
}

// ---------------------------------------------------------------------------
// What a match records.
// ---------------------------------------------------------------------------

/// The values that a key holds, for each field of each term.
pub open spec fn values_model(v: Seq<Metadata>) -> Seq<MetadataModel> {
    v.map_values(|m: Metadata| m.model())
}

pub open spec fn entry_key() -> spec_fn((String, Vec<Metadata>)) -> Seq<char> {
    |e: (String, Vec<Metadata>)| e.0@
}

pub open spec fn entry_val() -> spec_fn((String, Vec<Metadata>)) -> Seq<MetadataModel> {
    |e: (String, Vec<Metadata>)| values_model(e.1@)
}

/// The keys of one field, each with its values.
pub open spec fn keys_map(k: Seq<(String, Vec<Metadata>)>) -> Map<Seq<char>, Seq<MetadataModel>> {
    assoc_map(k, entry_key(), entry_val())
}

/// The metadata of one field of one term.
pub struct FieldMatch {
    pub field: String,
    pub keys: Vec<(String, Vec<Metadata>)>,
}

/// The fields of one term.
pub struct TermMatch {
    pub term: String,
    pub fields: Vec<FieldMatch>,
}

pub open spec fn field_key() -> spec_fn(FieldMatch) -> Seq<char> {
    |f: FieldMatch| f.field@
}

pub open spec fn field_val() -> spec_fn(FieldMatch) -> Map<Seq<char>, Seq<MetadataModel>> {
    |f: FieldMatch| keys_map(f.keys@)
}

pub open spec fn fields_map(fs: Seq<FieldMatch>) -> Map<Seq<char>, Map<Seq<char>, Seq<MetadataModel>>> {
    assoc_map(fs, field_key(), field_val())
}

pub open spec fn term_key() -> spec_fn(TermMatch) -> Seq<char> {
    |t: TermMatch| t.term@
}

pub open spec fn term_val() -> spec_fn(TermMatch) -> Map<Seq<char>, Map<Seq<char>, Seq<MetadataModel>>> {
    |t: TermMatch| fields_map(t.fields@)
}

pub open spec fn terms_map(ts: Seq<TermMatch>) -> Map<Seq<char>, Map<Seq<char>, Map<Seq<char>, Seq<MetadataModel>>>> {
    assoc_map(ts, term_key(), term_val())
}

/// The values of `k`, or none.
pub open spec fn values_of(m: Map<Seq<char>, Seq<MetadataModel>>, k: Seq<char>) -> Seq<MetadataModel> {
    if m.contains_key(k) {
        m[k]
    } else {
        Seq::empty()
    }
}

/// The keys of field `f`, or none.
pub open spec fn keys_of(m: Map<Seq<char>, Map<Seq<char>, Seq<MetadataModel>>>, f: Seq<char>) -> Map<
    Seq<char>,
    Seq<MetadataModel>,
> {
    if m.contains_key(f) {
        m[f]
    } else {
        Map::empty()
    }
}

/// The fields of term `t`, or none.
pub open spec fn fields_of(m: Map<Seq<char>, Map<Seq<char>, Map<Seq<char>, Seq<MetadataModel>>>>, t: Seq<char>) -> Map<
    Seq<char>,
    Map<Seq<char>, Seq<MetadataModel>>,
> {
    if m.contains_key(t) {
        m[t]
    } else {
        Map::empty()
    }
}

/// `k` given the values `v` after those it had.
pub open spec fn extend_key(m: Map<Seq<char>, Seq<MetadataModel>>, k: Seq<char>, v: Seq<MetadataModel>) -> Map<
    Seq<char>,
    Seq<MetadataModel>,
> {
    m.insert(k, values_of(m, k) + v)
}

/// Each entry's values added after those its key had, in order.
pub open spec fn extend_all(m: Map<Seq<char>, Seq<MetadataModel>>, entries: Seq<(String, Vec<Metadata>)>) -> Map<
    Seq<char>,
    Seq<MetadataModel>,
>
    decreases entries.len(),
{
    if entries.len() == 0 {
        m
    } else {
        let e = entries.last();
        extend_key(extend_all(m, entries.drop_last()), e.0@, values_model(e.1@))
    }
}

/// The keys of both, the values of a key that both hold joined, `a`'s first.
pub open spec fn combine_keys(a: Map<Seq<char>, Seq<MetadataModel>>, b: Map<Seq<char>, Seq<MetadataModel>>) -> Map<
    Seq<char>,
    Seq<MetadataModel>,
> {
    Map::new(|k: Seq<char>| a.contains_key(k) || b.contains_key(k), |k: Seq<char>| values_of(a, k) + values_of(b, k))
}

/// The fields of both, each with the keys of both combined.
pub open spec fn combine_fields(
    a: Map<Seq<char>, Map<Seq<char>, Seq<MetadataModel>>>,
    b: Map<Seq<char>, Map<Seq<char>, Seq<MetadataModel>>>,
) -> Map<Seq<char>, Map<Seq<char>, Seq<MetadataModel>>> {
    Map::new(
        |f: Seq<char>| a.contains_key(f) || b.contains_key(f),
        |f: Seq<char>| combine_keys(keys_of(a, f), keys_of(b, f)),
    )
}

/// The terms of both, each with the fields of both combined.
pub open spec fn combine_terms(
    a: Map<Seq<char>, Map<Seq<char>, Map<Seq<char>, Seq<MetadataModel>>>>,
    b: Map<Seq<char>, Map<Seq<char>, Map<Seq<char>, Seq<MetadataModel>>>>,
) -> Map<Seq<char>, Map<Seq<char>, Map<Seq<char>, Seq<MetadataModel>>>> {
    Map::new(
        |t: Seq<char>| a.contains_key(t) || b.contains_key(t),
        |t: Seq<char>| combine_fields(fields_of(a, t), fields_of(b, t)),
    )
}

/// What adding `entries` under `term` and `field` makes of `m`.
pub open spec fn add_model(
    m: Map<Seq<char>, Map<Seq<char>, Map<Seq<char>, Seq<MetadataModel>>>>,
    term: Seq<char>,
    field: Seq<char>,
    entries: Seq<(String, Vec<Metadata>)>,
) -> Map<Seq<char>, Map<Seq<char>, Map<Seq<char>, Seq<MetadataModel>>>> {
    let fs = fields_of(m, term);
    m.insert(term, fs.insert(field, extend_all(keys_of(fs, field), entries)))
}

// ---------------------------------------------------------------------------
// Facts about combining.
// ---------------------------------------------------------------------------

/// Adding the entries of a list without repeated keys is combining with its map.
proof fn lemma_extend_all(m: Map<Seq<char>, Seq<MetadataModel>>, entries: Seq<(String, Vec<Metadata>)>)
    requires
        assoc_distinct(entries, entry_key()),
    ensures
        extend_all(m, entries) == combine_keys(m, keys_map(entries)),
    decreases entries.len(),
{
    if entries.len() == 0 {
        assert(combine_keys(m, keys_map(entries)) =~= m);
    } else {
        let t = entries.drop_last();
        let e = entries.last();
        assert(assoc_distinct(t, entry_key())) by {
            assert forall|a: int, b: int| 0 <= a < b < t.len() implies entry_key()(#[trigger] t[a]) != entry_key()(
                #[trigger] t[b]) by {
                assert(t[a] == entries[a] && t[b] == entries[b]);
            }
        }
        lemma_extend_all(m, t);
        lemma_assoc_dom(t, entry_key(), entry_val(), e.0@);
        assert(!keys_map(t).contains_key(e.0@)) by {
            if keys_map(t).contains_key(e.0@) {
                let i = choose|i: int| 0 <= i < t.len() && entry_key()(#[trigger] t[i]) == e.0@;
                assert(t[i] == entries[i]);
                assert(entry_key()(entries[i]) != entry_key()(entries[entries.len() - 1]));
            }
        }
        assert(extend_all(m, entries) =~= combine_keys(m, keys_map(entries)));
    }
}

proof fn lemma_combine_fields_empty(a: Map<Seq<char>, Map<Seq<char>, Seq<MetadataModel>>>)
    ensures
        combine_fields(a, Map::empty()) == a,
{
    assert forall|f: Seq<char>| a.contains_key(f) implies #[trigger] combine_fields(a, Map::empty())[f] == a[f] by {
        assert(combine_keys(a[f], Map::empty()) =~= a[f]);
    }
    assert(combine_fields(a, Map::empty()) =~= a);
}

proof fn lemma_combine_fields_insert(
    a: Map<Seq<char>, Map<Seq<char>, Seq<MetadataModel>>>,
    b: Map<Seq<char>, Map<Seq<char>, Seq<MetadataModel>>>,
    f: Seq<char>,
    km: Map<Seq<char>, Seq<MetadataModel>>,
)
    requires
        !b.contains_key(f),
    ensures
        combine_fields(a, b.insert(f, km)) == combine_fields(a, b).insert(f, combine_keys(keys_of(a, f), km)),
{
    assert(combine_fields(a, b.insert(f, km)) =~= combine_fields(a, b).insert(f, combine_keys(keys_of(a, f), km)));
}

proof fn lemma_combine_terms_insert(
    a: Map<Seq<char>, Map<Seq<char>, Map<Seq<char>, Seq<MetadataModel>>>>,
    b: Map<Seq<char>, Map<Seq<char>, Map<Seq<char>, Seq<MetadataModel>>>>,
    t: Seq<char>,
    fm: Map<Seq<char>, Map<Seq<char>, Seq<MetadataModel>>>,
)
    requires
        !b.contains_key(t),
    ensures
        combine_terms(a, b.insert(t, fm)) == combine_terms(a, b).insert(t, combine_fields(fields_of(a, t), fm)),
{
    assert(combine_terms(a, b.insert(t, fm)) =~= combine_terms(a, b).insert(t, combine_fields(fields_of(a, t), fm)));
}

/// A prefix one entry longer adds that entry, whose key the shorter one lacks.
proof fn lemma_prefix_step<E, V>(s: Seq<E>, key: spec_fn(E) -> Seq<char>, val: spec_fn(E) -> V, i: int)
    requires
        assoc_distinct(s, key),
        0 <= i < s.len(),
    ensures
        assoc_map(s.take(i + 1), key, val) == assoc_map(s.take(i), key, val).insert(key(s[i]), val(s[i])),
        !assoc_map(s.take(i), key, val).contains_key(key(s[i])),
{
    assert(s.take(i + 1) =~= s.take(i).push(s[i]));
    lemma_assoc_push(s.take(i), key, val, s[i]);
    lemma_assoc_dom(s.take(i), key, val, key(s[i]));
    if assoc_map(s.take(i), key, val).contains_key(key(s[i])) {
        let j = choose|j: int| 0 <= j < s.take(i).len() && key(#[trigger] s.take(i)[j]) == key(s[i]);
        assert(s.take(i)[j] == s[j]);
    }
}

/// Adding metadata for a term in a field does what combining with the match
/// of that term in that field alone does, when no key of the metadata repeats.
pub proof fn law_add_is_combine(
    m: Map<Seq<char>, Map<Seq<char>, Map<Seq<char>, Seq<MetadataModel>>>>,
    term: Seq<char>,
    field: Seq<char>,
    entries: Seq<(String, Vec<Metadata>)>,
)
    requires
        assoc_distinct(entries, entry_key()),
    ensures
        add_model(m, term, field, entries) == combine_terms(
            m,
            Map::empty().insert(term, Map::empty().insert(field, keys_map(entries))),
        ),
{
    let single = Map::empty().insert(term, Map::empty().insert(field, keys_map(entries)));
    let fs = fields_of(m, term);
    lemma_extend_all(keys_of(fs, field), entries);
    assert forall|t: Seq<char>| m.contains_key(t) && t != term implies #[trigger] combine_terms(m, single)[t] == m[t] by {
        lemma_combine_fields_empty(m[t]);
        assert(fields_of(single, t) =~= Map::empty());
    }
    assert(combine_terms(m, single)[term] =~= fs.insert(field, extend_all(keys_of(fs, field), entries))) by {
        let one = Map::empty().insert(field, keys_map(entries));
        assert(fields_of(single, term) == one);
        assert forall|f: Seq<char>| fs.contains_key(f) && f != field implies #[trigger] combine_fields(fs, one)[f] == fs[f] by {
            assert(keys_of(one, f) =~= Map::empty());
            assert(combine_keys(fs[f], Map::empty()) =~= fs[f]);
        }
        assert(combine_fields(fs, one) =~= fs.insert(field, extend_all(keys_of(fs, field), entries)));
    }
    assert(add_model(m, term, field, entries) =~= combine_terms(m, single));
}

// ---------------------------------------------------------------------------
// Lists of keys.
// ---------------------------------------------------------------------------

/// A copy of the values.
fn copy_values(v: &Vec<Metadata>) -> (r: Vec<Metadata>)
    ensures
        values_model(r@) == values_model(v@),
{
    let mut r: Vec<Metadata> = Vec::new();
    append_values(&mut r, v);
    proof {
        assert(values_model(Seq::<Metadata>::empty()) + values_model(v@) =~= values_model(v@));
    }
    r
}

/// Appends copies of `v` to `dst`.
fn append_values(dst: &mut Vec<Metadata>, v: &Vec<Metadata>)
    ensures
        values_model(final(dst)@) == values_model(old(dst)@) + values_model(v@),
{
    let ghost d0 = dst@;
    let mut i: usize = 0;
    while i < v.len()
        invariant
            i <= v@.len(),
            values_model(dst@) == values_model(d0) + values_model(v@.take(i as int)),
        decreases v.len() - i,
    {
        let ghost before = dst@;
        let m = v[i].duplicate();
        dst.push(m);
        proof {
            assert(v@.take(i + 1) =~= v@.take(i as int).push(v@[i as int]));
            assert(values_model(dst@) =~= values_model(before).push(m.model()));
            assert(values_model(v@.take(i + 1)) =~= values_model(v@.take(i as int)).push(v@[i as int].model()));
            assert(values_model(dst@) =~= values_model(d0) + values_model(v@.take(i + 1)));
        }
        i = i + 1;
    }
    proof {
        assert(v@.take(v@.len() as int) =~= v@);
    }
}

/// The position of the entry with key `k`, if there is one.
fn find_key(keys: &Vec<(String, Vec<Metadata>)>, k: &str) -> (r: Option<usize>)
    ensures
        match r {
            Some(i) => i < keys@.len() && keys@[i as int].0@ == k@,
            None => forall|i: int| 0 <= i < keys@.len() ==> #[trigger] keys@[i].0@ != k@,
        },
{
    let mut i: usize = 0;
    while i < keys.len()
        invariant
            i <= keys@.len(),
            forall|j: int| 0 <= j < i ==> #[trigger] keys@[j].0@ != k@,
        decreases keys.len() - i,
    {
        if str_eq(keys[i].0.as_str(), k) {
            return Some(i);
        }
        i = i + 1;
    }
    None
}

proof fn lemma_absent_key<E, V>(s: Seq<E>, key: spec_fn(E) -> Seq<char>, val: spec_fn(E) -> V, k: Seq<char>)
    requires
        forall|i: int| 0 <= i < s.len() ==> key(#[trigger] s[i]) != k,
    ensures
        !assoc_map(s, key, val).contains_key(k),
{
    lemma_assoc_dom(s, key, val, k);
}

/// `s` without entry `i`, then a new entry with the same key at the end.
proof fn lemma_replace_entry<E, V>(s: Seq<E>, key: spec_fn(E) -> Seq<char>, val: spec_fn(E) -> V, i: int, e: E)
    requires
        assoc_distinct(s, key),
        0 <= i < s.len(),
        key(e) == key(s[i]),
    ensures
        assoc_map(s.remove(i).push(e), key, val) == assoc_map(s, key, val).insert(key(e), val(e)),
        assoc_distinct(s.remove(i).push(e), key),
{
    lemma_assoc_remove(s, key, val, i);
    lemma_assoc_push(s.remove(i), key, val, e);
    assert(assoc_map(s.remove(i).push(e), key, val) =~= assoc_map(s, key, val).insert(key(e), val(e)));
    let r = s.remove(i);
    let r2 = r.push(e);
    assert forall|a: int, b: int| 0 <= a < b < r2.len() implies key(#[trigger] r2[a]) != key(#[trigger] r2[b]) by {
        if b == r.len() {
            let a2 = if a < i { a } else { a + 1 };
            assert(r2[a] == s[a2]);
            assert(a2 != i);
        } else {
            assert(r2[a] == r[a] && r2[b] == r[b]);
        }
    }
}

/// A list with one more entry, whose key it lacked.
proof fn lemma_new_entry<E, V>(s: Seq<E>, key: spec_fn(E) -> Seq<char>, val: spec_fn(E) -> V, e: E)
    requires
        assoc_distinct(s, key),
        forall|i: int| 0 <= i < s.len() ==> key(#[trigger] s[i]) != key(e),
    ensures
        assoc_map(s.push(e), key, val) == assoc_map(s, key, val).insert(key(e), val(e)),
        assoc_distinct(s.push(e), key),
{
    lemma_assoc_push(s, key, val, e);
    let r2 = s.push(e);
    assert forall|a: int, b: int| 0 <= a < b < r2.len() implies key(#[trigger] r2[a]) != key(#[trigger] r2[b]) by {
        assert(r2[a] == s[a]);
        if b < s.len() {
            assert(r2[b] == s[b]);
        }
    }
}

/// Gives `k` the values `v` after those it had.
fn extend_entry(keys: &mut Vec<(String, Vec<Metadata>)>, k: &str, v: &Vec<Metadata>)
    requires
        assoc_distinct(old(keys)@, entry_key()),
    ensures
        assoc_distinct(final(keys)@, entry_key()),
        keys_map(final(keys)@) == extend_key(keys_map(old(keys)@), k@, values_model(v@)),
{
    let ghost s = keys@;
    match find_key(keys, k) {
        Some(i) => {
            proof {
                lemma_assoc_get(s, entry_key(), entry_val(), i as int);
            }
            let (kk, mut vals) = keys.remove(i);
            append_values(&mut vals, v);
            let ghost e = (kk, vals);
            keys.push((kk, vals));
            proof {
                lemma_replace_entry(s, entry_key(), entry_val(), i as int, e);
                assert(keys@ == s.remove(i as int).push(e));
            }
        },
        None => {
            proof {
                lemma_absent_key(s, entry_key(), entry_val(), k@);
            }
            let vals = copy_values(v);
            let kk = k.to_owned();
            let ghost e2 = (kk, vals);
            keys.push((kk, vals));
            proof {
                lemma_new_entry(s, entry_key(), entry_val(), e2);
                assert(values_model(Seq::<Metadata>::empty()) + values_model(v@) =~= values_model(v@));
            }
        },
    }
}

/// Gives `k` the values `v` in place of those it had.
fn put_entry(keys: &mut Vec<(String, Vec<Metadata>)>, k: &str, v: &Vec<Metadata>)
    requires
        assoc_distinct(old(keys)@, entry_key()),
    ensures
        assoc_distinct(final(keys)@, entry_key()),
        keys_map(final(keys)@) == keys_map(old(keys)@).insert(k@, values_model(v@)),
{
    let ghost s = keys@;
    match find_key(keys, k) {
        Some(i) => {
            let (kk, _old_vals) = keys.remove(i);
            let vals = copy_values(v);
            let ghost e = (kk, vals);
            keys.push((kk, vals));
            proof {
                lemma_replace_entry(s, entry_key(), entry_val(), i as int, e);
            }
        },
        None => {
            let vals = copy_values(v);
            let kk = k.to_owned();
            let ghost e = (kk, vals);
            keys.push((kk, vals));
            proof {
                lemma_new_entry(s, entry_key(), entry_val(), e);
            }
        },
    }
}

/// The position of the field `f`, if it is there.
fn find_field(fields: &Vec<FieldMatch>, f: &str) -> (r: Option<usize>)
    ensures
        match r {
            Some(i) => i < fields@.len() && fields@[i as int].field@ == f@,
            None => forall|i: int| 0 <= i < fields@.len() ==> #[trigger] fields@[i].field@ != f@,
        },
{
    let mut i: usize = 0;
    while i < fields.len()
        invariant
            i <= fields@.len(),
            forall|j: int| 0 <= j < i ==> #[trigger] fields@[j].field@ != f@,
        decreases fields.len() - i,
    {
        if str_eq(fields[i].field.as_str(), f) {
            return Some(i);
        }
        i = i + 1;
    }
    None
}

/// The position of the term `t`, if it is there.
fn find_term(terms: &Vec<TermMatch>, t: &str) -> (r: Option<usize>)
    ensures
        match r {
            Some(i) => i < terms@.len() && terms@[i as int].term@ == t@,
            None => forall|i: int| 0 <= i < terms@.len() ==> #[trigger] terms@[i].term@ != t@,
        },
{
    let mut i: usize = 0;
    while i < terms.len()
        invariant
            i <= terms@.len(),
            forall|j: int| 0 <= j < i ==> #[trigger] terms@[j].term@ != t@,
        decreases terms.len() - i,
    {
        if str_eq(terms[i].term.as_str(), t) {
            return Some(i);
        }
        i = i + 1;
    }
    None
}

// ---------------------------------------------------------------------------
// The structure.
// ---------------------------------------------------------------------------

/// The metadata of the terms that matched a query: for each term, the fields
/// it matched in, and for each field the metadata keys with their values.
pub struct MatchData {
    pub metadata: Vec<TermMatch>,
}

impl MatchData {
    /// What the match records.
    pub open spec fn model(&self) -> Map<Seq<char>, Map<Seq<char>, Map<Seq<char>, Seq<MetadataModel>>>> {
        terms_map(self.metadata@)
    }

    /// No term, field of a term, or key of a field appears twice.
    pub open spec fn wf(&self) -> bool {
        &&& assoc_distinct(self.metadata@, term_key())
        &&& forall|i: int|
            0 <= i < self.metadata@.len() ==> #[trigger] assoc_distinct(self.metadata@[i].fields@, field_key())
        &&& forall|i: int, j: int|
            0 <= i < self.metadata@.len() && 0 <= j < self.metadata@[i].fields@.len() ==> #[trigger] assoc_distinct(
                self.metadata@[i].fields@[j].keys@,
                entry_key(),
            )
    }

    /// A match of nothing, or of `term` in `field` with the given metadata:
    /// each key with its values, a later entry for a key taking its place.
    pub fn new(term: Option<&str>, field: &str, metadata: &Vec<(String, Vec<Metadata>)>) -> (r: MatchData)
        ensures
            r.wf(),
            r.model() == match term {
                None => Map::empty(),
                Some(t) => Map::empty().insert(t@, Map::empty().insert(field@, keys_map(metadata@))),
            },
    {
        let mut r = MatchData { metadata: Vec::new() };
        proof {
            assert(r.model() =~= Map::empty());
        }
        match term {
            None => r,
            Some(t) => {
                let mut keys: Vec<(String, Vec<Metadata>)> = Vec::new();
                let mut i: usize = 0;
                proof {
                    assert(keys_map(keys@) =~= keys_map(metadata@.take(0)));
                }
                while i < metadata.len()
                    invariant
                        i <= metadata@.len(),
                        assoc_distinct(keys@, entry_key()),
                        keys_map(keys@) == keys_map(metadata@.take(i as int)),
                    decreases metadata.len() - i,
                {
                    put_entry(&mut keys, metadata[i].0.as_str(), &metadata[i].1);
                    proof {
                        assert(metadata@.take(i + 1) =~= metadata@.take(i as int).push(metadata@[i as int]));
                        lemma_assoc_push(metadata@.take(i as int), entry_key(), entry_val(), metadata@[i as int]);
                    }
                    i = i + 1;
                }
                proof {
                    assert(metadata@.take(metadata@.len() as int) =~= metadata@);
                }
                let fm = FieldMatch { field: field.to_owned(), keys };
                let mut fields: Vec<FieldMatch> = Vec::new();
                fields.push(fm);
                let tm = TermMatch { term: t.to_owned(), fields };
                r.metadata.push(tm);
                proof {
                    lemma_assoc_push(Seq::<FieldMatch>::empty(), field_key(), field_val(), fm);
                    assert(fields@ =~= Seq::<FieldMatch>::empty().push(fm));
                    lemma_assoc_push(Seq::<TermMatch>::empty(), term_key(), term_val(), tm);
                    assert(r.metadata@ =~= Seq::<TermMatch>::empty().push(tm));
                    assert(r.model() =~= Map::empty().insert(t@, Map::empty().insert(field@, keys_map(metadata@))));
                }
                r
            },
        }
    }

    /// Takes the entry of `term` out of the list, or makes an empty one.
    fn take_term(&mut self, term: &str) -> (r: TermMatch)
        requires
            old(self).wf(),
        ensures
            final(self).wf(),
            r.term@ == term@,
            assoc_distinct(r.fields@, field_key()),
            forall|j: int| 0 <= j < r.fields@.len() ==> #[trigger] assoc_distinct(r.fields@[j].keys@, entry_key()),
            fields_map(r.fields@) == fields_of(old(self).model(), term@),
            final(self).model() == old(self).model().remove(term@),
            forall|i: int| 0 <= i < final(self).metadata@.len() ==> #[trigger] final(self).metadata@[i].term@ != term@,
    {
        let ghost s = self.metadata@;
        match find_term(&self.metadata, term) {
            Some(i) => {
                proof {
                    lemma_assoc_get(s, term_key(), term_val(), i as int);
                    lemma_assoc_remove(s, term_key(), term_val(), i as int);
                }
                let tm = self.metadata.remove(i);
                proof {
                    let r = self.metadata@;
                    assert forall|a: int| 0 <= a < r.len() implies #[trigger] assoc_distinct(r[a].fields@, field_key()) by {
                        let a2 = if a < i { a } else { a + 1 };
                        assert(r[a] == s[a2]);
                    }
                    assert forall|a: int, b: int| 0 <= a < r.len() && 0 <= b < r[a].fields@.len() implies #[trigger] assoc_distinct(
                        r[a].fields@[b].keys@,
                        entry_key(),
                    ) by {
                        let a2 = if a < i { a } else { a + 1 };
                        assert(r[a] == s[a2]);
                    }
                    assert forall|a: int| 0 <= a < r.len() implies #[trigger] r[a].term@ != term@ by {
                        let a2 = if a < i { a } else { a + 1 };
                        assert(r[a] == s[a2]);
                        assert(a2 != i);
                    }
                    assert(assoc_distinct(s[i as int].fields@, field_key()));
                }
                tm
            },
            None => {
                proof {
                    lemma_absent_key(s, term_key(), term_val(), term@);
                    assert(self.model().remove(term@) =~= self.model());
                    assert(fields_map(Seq::<FieldMatch>::empty()) =~= Map::empty());
                }
                TermMatch { term: term.to_owned(), fields: Vec::new() }
            },
        }
    }

    /// Puts back the entry of a term that is not in the list.
    fn put_term(&mut self, tm: TermMatch)
        requires
            old(self).wf(),
            assoc_distinct(tm.fields@, field_key()),
            forall|j: int| 0 <= j < tm.fields@.len() ==> #[trigger] assoc_distinct(tm.fields@[j].keys@, entry_key()),
            forall|i: int| 0 <= i < old(self).metadata@.len() ==> #[trigger] old(self).metadata@[i].term@ != tm.term@,
        ensures
            final(self).wf(),
            final(self).model() == old(self).model().insert(tm.term@, fields_map(tm.fields@)),
    {
        let ghost s = self.metadata@;
        let ghost t = tm;
        self.metadata.push(tm);
        proof {
            lemma_new_entry(s, term_key(), term_val(), t);
            let r = self.metadata@;
            assert(r == s.push(t));
            assert forall|a: int| 0 <= a < r.len() implies #[trigger] assoc_distinct(r[a].fields@, field_key()) by {
                if a < s.len() {
                    assert(r[a] == s[a]);
                }
            }
            assert forall|a: int, b: int| 0 <= a < r.len() && 0 <= b < r[a].fields@.len() implies #[trigger] assoc_distinct(
                r[a].fields@[b].keys@,
                entry_key(),
            ) by {
                if a < s.len() {
                    assert(r[a] == s[a]);
                }
            }
        }
    }

    /// Adds the metadata of `term` in `field`: each key's values go after
    /// those it already had.
    pub fn add(&mut self, term: &str, field: &str, metadata: &Vec<(String, Vec<Metadata>)>)
        requires
            old(self).wf(),
        ensures
            final(self).wf(),
            final(self).model() == add_model(old(self).model(), term@, field@, metadata@),
    {
        let ghost m0 = self.model();
        let mut tm = self.take_term(term);
        let ghost fs0 = tm.fields@;
        let ghost fields = fields_of(m0, term@);
        let mut fm = match find_field(&tm.fields, field) {
            Some(j) => {
                proof {
                    lemma_assoc_get(fs0, field_key(), field_val(), j as int);
                    lemma_assoc_remove(fs0, field_key(), field_val(), j as int);
                    assert(assoc_distinct(fs0[j as int].keys@, entry_key()));
                }
                tm.fields.remove(j)
            },
            None => {
                proof {
                    lemma_absent_key(fs0, field_key(), field_val(), field@);
                }
                FieldMatch { field: field.to_owned(), keys: Vec::new() }
            },
        };
        let ghost fs1 = tm.fields@;
        proof {
            assert(keys_map(fm.keys@) == keys_of(fields, field@)) by {
                if !fields.contains_key(field@) {
                    assert(keys_map(fm.keys@) =~= Map::empty());
                }
            }
            assert(fields_map(fs1) == fields.remove(field@)) by {
                if !fields.contains_key(field@) {
                    assert(fs1 == fs0);
                    assert(fields.remove(field@) =~= fields);
                }
            }
            assert forall|a: int| 0 <= a < fs1.len() implies #[trigger] fs1[a].field@ != field@ by {
                if fields.contains_key(field@) {
                    lemma_assoc_dom(fs1, field_key(), field_val(), field@);
                    assert(field_key()(fs1[a]) == fs1[a].field@);
                }
            }
            assert(assoc_distinct(fs1, field_key())) by {
                if !fields.contains_key(field@) {
                    assert(fs1 == fs0);
                }
            }
            assert forall|b: int| 0 <= b < fs1.len() implies #[trigger] assoc_distinct(fs1[b].keys@, entry_key()) by {
                if fields.contains_key(field@) {
                    let j = choose|j: int| 0 <= j < fs0.len() && fs1 == fs0.remove(j);
                    let b2 = if b < j { b } else { b + 1 };
                    assert(fs1[b] == fs0[b2]);
                } else {
                    assert(fs1 == fs0);
                }
            }
        }
        let ghost k0 = keys_map(fm.keys@);
        let mut i: usize = 0;
        proof {
            assert(metadata@.take(0) =~= Seq::<(String, Vec<Metadata>)>::empty());
        }
        while i < metadata.len()
            invariant
                i <= metadata@.len(),
                assoc_distinct(fm.keys@, entry_key()),
                fm.field@ == field@,
                keys_map(fm.keys@) == extend_all(k0, metadata@.take(i as int)),
            decreases metadata.len() - i,
        {
            extend_entry(&mut fm.keys, metadata[i].0.as_str(), &metadata[i].1);
            proof {
                assert(metadata@.take(i + 1).drop_last() =~= metadata@.take(i as int));
                assert(metadata@.take(i + 1).last() == metadata@[i as int]);
            }
            i = i + 1;
        }
        proof {
            assert(metadata@.take(metadata@.len() as int) =~= metadata@);
        }
        let ghost f2 = fm;
        tm.fields.push(fm);
        proof {
            lemma_new_entry(fs1, field_key(), field_val(), f2);
            let fs2 = tm.fields@;
            assert(fs2 == fs1.push(f2));
            assert forall|b: int| 0 <= b < fs2.len() implies #[trigger] assoc_distinct(fs2[b].keys@, entry_key()) by {
                if b < fs1.len() {
                    assert(fs2[b] == fs1[b]);
                }
            }
            assert(fields_map(fs2) =~= fields.insert(field@, extend_all(keys_of(fields, field@), metadata@)));
        }
        self.put_term(tm);
        proof {
            assert(self.model() =~= add_model(m0, term@, field@, metadata@));
        }
    }

    /// Makes sure `term` is there, without fields if it was not.
    fn touch_term(&mut self, term: &str)
        requires
            old(self).wf(),
        ensures
            final(self).wf(),
            final(self).model() == old(self).model().insert(term@, fields_of(old(self).model(), term@)),
    {
        let ghost m0 = self.model();
        let tm = self.take_term(term);
        self.put_term(tm);
        proof {
            assert(self.model() =~= m0.insert(term@, fields_of(m0, term@)));
        }
    }

    /// Adds all of `other`: its terms, their fields and keys, the values of a
    /// key that both hold going after this match's own.
    pub fn combine(&mut self, other: &MatchData)
        requires
            old(self).wf(),
            other.wf(),
        ensures
            final(self).wf(),
            final(self).model() == combine_terms(old(self).model(), other.model()),
    {
        let ghost a = self.model();
        let ghost ts = other.metadata@;
        let mut i: usize = 0;
        proof {
            assert(terms_map(ts.take(0)) =~= Map::empty());
            assert(combine_terms(a, Map::empty()) =~= a) by {
                assert forall|t: Seq<char>| a.contains_key(t) implies #[trigger] combine_terms(a, Map::empty())[t] == a[t] by {
                    lemma_combine_fields_empty(a[t]);
                }
            }
        }
        while i < other.metadata.len()
            invariant
                i <= ts.len(),
                ts == other.metadata@,
                other.wf(),
                self.wf(),
                self.model() == combine_terms(a, terms_map(ts.take(i as int))),
            decreases other.metadata.len() - i,
        {
            let tm = &other.metadata[i];
            let ghost t = tm.term@;
            let ghost prev = terms_map(ts.take(i as int));
            let ghost c0 = combine_terms(a, prev);
            let ghost at = fields_of(a, t);
            proof {
                lemma_prefix_step(ts, term_key(), term_val(), i as int);
            }
            self.touch_term(tm.term.as_str());
            proof {
                assert(!prev.contains_key(t));
                assert(fields_of(c0, t) == combine_fields(at, fields_map(tm.fields@.take(0)))) by {
                    assert(tm.fields@.take(0) =~= Seq::<FieldMatch>::empty());
                    assert(fields_map(tm.fields@.take(0)) =~= Map::empty());
                    lemma_combine_fields_empty(at);
                    if !c0.contains_key(t) {
                        assert(!a.contains_key(t));
                        assert(at =~= Map::empty());
                        assert(combine_fields(at, Map::empty()) =~= Map::empty());
                    }
                }
                assert(self.model() == c0.insert(t, combine_fields(at, fields_map(tm.fields@.take(0)))));
                assert(assoc_distinct(tm.fields@, field_key()));
            }
            let mut j: usize = 0;
            while j < tm.fields.len()
                invariant
                    j <= tm.fields@.len(),
                    tm == other.metadata@[i as int],
                    t == tm.term@,
                    assoc_distinct(tm.fields@, field_key()),
                    forall|b: int| 0 <= b < tm.fields@.len() ==> #[trigger] assoc_distinct(tm.fields@[b].keys@, entry_key()),
                    self.wf(),
                    self.model() == c0.insert(t, combine_fields(at, fields_map(tm.fields@.take(j as int)))),
                decreases tm.fields.len() - j,
            {
                let fm = &tm.fields[j];
                let ghost f = fm.field@;
                let ghost cf = combine_fields(at, fields_map(tm.fields@.take(j as int)));
                proof {
                    lemma_prefix_step(tm.fields@, field_key(), field_val(), j as int);
                    lemma_extend_all(keys_of(at, f), fm.keys@);
                    assert(keys_of(cf, f) == keys_of(at, f)) by {
                        if at.contains_key(f) {
                            assert(combine_keys(at[f], Map::empty()) =~= at[f]);
                        }
                    }
                    lemma_combine_fields_insert(at, fields_map(tm.fields@.take(j as int)), f, keys_map(fm.keys@));
                }
                let ghost m1 = self.model();
                proof {
                    assert(fields_of(m1, t) == cf);
                }
                self.add(tm.term.as_str(), fm.field.as_str(), &fm.keys);
                proof {
                    assert(self.model() =~= c0.insert(t, combine_fields(at, fields_map(tm.fields@.take(j + 1)))));
                }
                j = j + 1;
            }
            proof {
                assert(tm.fields@.take(tm.fields@.len() as int) =~= tm.fields@);
                lemma_combine_terms_insert(a, prev, t, fields_map(tm.fields@));
                assert(ts[i as int] == *tm);
            }
            i = i + 1;
        }
        proof {
            assert(ts.take(ts.len() as int) =~= ts);
        }
    }
}

} // verus!
