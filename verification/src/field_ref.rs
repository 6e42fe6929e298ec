use vstd::prelude::*;
use crate::text::{chars_of, string_from_range, push_char};

verus! {

/// The separator between a field name and a document reference.
pub const JOINER: char = '/';

/// A reference to one field of one document, written `field/document`.
#[derive(Debug, Clone)]
pub struct FieldRef {
    pub document_ref: String,
    pub field_name: String,
}

/// The textual form `field/document`.
pub open spec fn ref_text(document_ref: Seq<char>, field_name: Seq<char>) -> Seq<char> {
    field_name.push(JOINER) + document_ref
}

/// Whether `i` is the position of the first joiner in `s`.
pub open spec fn is_first_joiner(s: Seq<char>, i: int) -> bool {
    0 <= i < s.len() && s[i] == JOINER && !s.take(i).contains(JOINER)
}

/// The document reference and the field name that a text stands for: what
/// follows the first joiner and what precedes it; `None` without a joiner.
pub open spec fn parse_ref_text(s: Seq<char>) -> Option<(Seq<char>, Seq<char>)> {
    if s.contains(JOINER) {
        let i = choose|i: int| is_first_joiner(s, i);
        Some((s.skip(i + 1), s.take(i)))
    } else {
        None
    }
}

impl FieldRef {
    pub open spec fn view(&self) -> (Seq<char>, Seq<char>) {
        (self.document_ref@, self.field_name@)
    }

    pub fn new(document_ref: &str, field_name: &str) -> (r: FieldRef)
        ensures
            r.document_ref@ == document_ref@,
            r.field_name@ == field_name@,
    {
        FieldRef { document_ref: document_ref.to_owned(), field_name: field_name.to_owned() }
    }

    /// Reads `field/document`; the field name ends at the first joiner.
    pub fn from_string(field_ref_string: &str) -> (r: Option<FieldRef>)
        ensures
            r matches Some(f) ==> parse_ref_text(field_ref_string@) == Some(f.view()),
            r is None ==> parse_ref_text(field_ref_string@) is None,
    {
        let v = chars_of(field_ref_string);
        let mut i: usize = 0;
        while i < v.len()
            invariant
                v@ == field_ref_string@,
                0 <= i <= v@.len(),
                !v@.take(i as int).contains(JOINER),
            decreases v.len() - i,
        {
            if v[i] == JOINER {
                let field_name = string_from_range(&v, 0, i);
                let document_ref = string_from_range(&v, i + 1, v.len());
                proof {
                    lemma_first_joiner_unique(v@, i as int);
                    assert(v@.take(i as int) =~= v@.subrange(0, i as int));
                    assert(v@.skip(i + 1) =~= v@.subrange(i + 1, v@.len() as int));
                }
                return Some(FieldRef { document_ref, field_name });
            }
            proof {
                assert(v@.take(i + 1) =~= v@.take(i as int).push(v@[i as int]));
                assert(!v@.take(i + 1).contains(JOINER)) by {
                    if v@.take(i + 1).contains(JOINER) {
                        let t = v@.take(i + 1);
                        let k = choose|k: int| 0 <= k < t.len() && t[k] == JOINER;
                        if k < i {
                            assert(v@.take(i as int)[k] == JOINER);
                        }
                    }
                }
            }
            i = i + 1;
        }
        proof {
            assert(v@.take(v@.len() as int) =~= v@);
        }
        None
    }

    /// The textual form `field/document`.
    pub fn to_ref_string(&self) -> (r: String)
        ensures
            r@ == ref_text(self.document_ref@, self.field_name@),
    {
        let mut r = self.field_name.clone();
        push_char(&mut r, JOINER);
        r.append(self.document_ref.as_str());
        r
    }
}

proof fn lemma_first_joiner_unique(s: Seq<char>, i: int)
    requires
        is_first_joiner(s, i),
    ensures
        s.contains(JOINER),
        (choose|j: int| is_first_joiner(s, j)) == i,
{
    assert(s[i] == JOINER);
    let j = choose|j: int| is_first_joiner(s, j);
    assert(is_first_joiner(s, j));
    if j < i {
        assert(s.take(i)[j] == JOINER);
    } else if j > i {
        assert(s.take(j)[i] == JOINER);
    }
}

/// Reading back the textual form of a field reference gives the reference,
/// provided the field name holds no joiner.
pub proof fn law_field_ref_round_trip(document_ref: Seq<char>, field_name: Seq<char>)
    requires
        !field_name.contains(JOINER),
    ensures
        parse_ref_text(ref_text(document_ref, field_name)) == Some((document_ref, field_name)),
{
    let s = ref_text(document_ref, field_name);
    let i = field_name.len() as int;
    assert(s.take(i) =~= field_name);
    assert(s[i] == JOINER);
    lemma_first_joiner_unique(s, i);
    assert(s.skip(i + 1) =~= document_ref);
}

} // verus!
