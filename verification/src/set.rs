use vstd::prelude::*;
use crate::text::{str_eq, strings_view};

verus! {

/// A set of strings that may also be empty or hold every string.
/// `length` is the size that the set was made with; `Elements` holds each string once.
pub enum ElementSet {
    Empty,
    Complete,
    Elements { elements: Vec<String>, length: usize },
}

/// Adding an element at the end of a sequence adds it to the sequence's set.
pub proof fn lemma_push_to_set<A>(s: Seq<A>, x: A)
    ensures
        s.push(x).to_set() == s.to_set().insert(x),
{
    s.lemma_push_to_set_commute(x);
}

/// No string occurs twice.
pub open spec fn distinct(s: Seq<Seq<char>>) -> bool {
    forall|i: int, j: int| 0 <= i < j < s.len() ==> s[i] != s[j]
}

impl ElementSet {
    /// The strings in the set.
    pub open spec fn contents(&self) -> Set<Seq<char>> {
        match self {
            ElementSet::Empty => Set::empty(),
            ElementSet::Complete => Set::full(),
            ElementSet::Elements { elements, .. } => strings_view(elements@).to_set(),
        }
    }

    /// The size recorded with a set of elements.
    pub open spec fn recorded_length(&self) -> Option<usize> {
        match self {
            ElementSet::Elements { length, .. } => Some(*length),
            _ => None,
        }
    }

    /// The number of strings a set of elements holds.
    pub open spec fn held_count(&self) -> nat {
        match self {
            ElementSet::Elements { elements, .. } => elements@.len(),
            _ => 0,
        }
    }

    /// Each element is held once.
    pub open spec fn wf(&self) -> bool {
        match self {
            ElementSet::Elements { elements, .. } => distinct(strings_view(elements@)),
            _ => true,
        }
    }

    /// The set of the given strings.
    pub fn new(elements: Vec<String>) -> (r: Self)
        ensures
            r.wf(),
            r.contents() == strings_view(elements@).to_set(),
            r matches ElementSet::Elements { length, .. } && length == elements@.len(),
    {
        let length = elements.len();
        let mut kept: Vec<String> = Vec::new();
        let mut i: usize = 0;
        while i < elements.len()
            invariant
                0 <= i <= elements@.len(),
                distinct(strings_view(kept@)),
                strings_view(kept@).to_set() == strings_view(elements@).take(i as int).to_set(),
            decreases elements.len() - i,
        {
            let e = &elements[i];
            let ghost before = kept@;
            proof {
                assert(strings_view(elements@).take(i + 1) =~= strings_view(elements@).take(i as int).push(e@));
                lemma_push_to_set(strings_view(elements@).take(i as int), e@);
            }
            if !contains_string(&kept, e.as_str()) {
                kept.push(e.clone());
                proof {
                    assert(strings_view(kept@) =~= strings_view(before).push(e@));
                    lemma_push_to_set(strings_view(before), e@);
                }
            } else {
                proof {
                    assert(strings_view(before).to_set().contains(e@));
                    assert(strings_view(before).to_set().insert(e@) =~= strings_view(before).to_set());
                }
            }
            i = i + 1;
        }
        proof {
            assert(strings_view(elements@).take(elements@.len() as int) =~= strings_view(elements@));
        }
        ElementSet::Elements { elements: kept, length }
    }

    /// Whether the set holds `element`.
    pub fn contains(&self, element: &str) -> (r: bool)
        ensures
            r == self.contents().contains(element@),
    {
        match self {
            ElementSet::Empty => false,
            ElementSet::Complete => true,
            ElementSet::Elements { elements, .. } => contains_string(elements, element),
        }
    }

    /// The strings in both sets.
    pub fn intersect(&self, other: &ElementSet) -> (r: ElementSet)
        requires
            self.wf(),
            other.wf(),
        ensures
            r.wf(),
            r.contents() == self.contents().intersect(other.contents()),
            (self is Empty || other is Empty) ==> r is Empty,
            (self is Complete && other is Complete) ==> r is Complete,
            (self is Elements && other is Complete) ==> r is Elements && r.recorded_length() == self.recorded_length(),
            (self is Complete && other is Elements) ==> r is Elements && r.recorded_length() == other.recorded_length(),
            (self is Elements && other is Elements) ==> r is Elements && r.recorded_length() == Some(
                r.held_count() as usize,
            ),
    {
        match (self, other) {
            (ElementSet::Empty, _) => ElementSet::Empty,
            (_, ElementSet::Empty) => ElementSet::Empty,
            (ElementSet::Complete, ElementSet::Complete) => {
                proof {
                    assert(Set::<Seq<char>>::full().intersect(Set::full()) =~= Set::full());
                }
                ElementSet::Complete
            },
            (ElementSet::Elements { elements, length }, ElementSet::Complete) => {
                proof {
                    assert(self.contents().intersect(Set::full()) =~= self.contents());
                }
                ElementSet::Elements { elements: copy_all(elements), length: *length }
            },
            (ElementSet::Complete, ElementSet::Elements { elements, length }) => {
                proof {
                    assert(Set::full().intersect(other.contents()) =~= other.contents());
                }
                ElementSet::Elements { elements: copy_all(elements), length: *length }
            },
            (ElementSet::Elements { elements: ea, length: la }, ElementSet::Elements { elements: eb, length: lb }) => {
                let (a, b) = if *la < *lb { (ea, eb) } else { (eb, ea) };
                let mut kept: Vec<String> = Vec::new();
                let mut i: usize = 0;
                while i < a.len()
                    invariant
                        0 <= i <= a@.len(),
                        distinct(strings_view(a@)),
                        distinct(strings_view(kept@)),
                        strings_view(kept@).to_set() == strings_view(a@).take(i as int).to_set().intersect(
                            strings_view(b@).to_set(),
                        ),
                        forall|k: int| 0 <= k < kept@.len() ==> strings_view(a@).take(i as int).contains(#[trigger] strings_view(kept@)[k]),
                    decreases a.len() - i,
                {
                    let e = &a[i];
                    let ghost before = kept@;
                    proof {
                        assert(strings_view(a@).take(i + 1) =~= strings_view(a@).take(i as int).push(e@));
                        lemma_push_to_set(strings_view(a@).take(i as int), e@);
                    }
                    if contains_string(b, e.as_str()) {
                        proof {
                            assert(!strings_view(before).contains(e@)) by {
                                if strings_view(before).contains(e@) {
                                    let k = choose|k: int| 0 <= k < strings_view(before).len() && strings_view(before)[k] == e@;
                                    assert(strings_view(a@).take(i as int).contains(strings_view(before)[k]));
                                    let m = choose|m: int| 0 <= m < i && strings_view(a@).take(i as int)[m] == e@;
                                    assert(strings_view(a@)[m] == strings_view(a@)[i as int]);
                                }
                            }
                        }
                        kept.push(e.clone());
                        proof {
                            assert(strings_view(kept@) =~= strings_view(before).push(e@));
                            lemma_push_to_set(strings_view(before), e@);
                            assert(strings_view(kept@).to_set() =~= strings_view(a@).take(i + 1).to_set().intersect(
                                strings_view(b@).to_set()));
                            assert forall|k: int| 0 <= k < kept@.len() implies strings_view(a@).take(i + 1).contains(#[trigger] strings_view(kept@)[k]) by {
                                if k < before.len() {
                                    let w = strings_view(kept@)[k];
                                    assert(w == strings_view(before)[k]);
                                    let m = choose|m: int| 0 <= m < i && strings_view(a@).take(i as int)[m] == w;
                                    assert(strings_view(a@).take(i + 1)[m] == w);
                                } else {
                                    assert(strings_view(a@).take(i + 1)[i as int] == e@);
                                }
                            }
                        }
                    } else {
                        proof {
                            assert(!strings_view(b@).to_set().contains(e@));
                            assert(strings_view(kept@).to_set() =~= strings_view(a@).take(i + 1).to_set().intersect(
                                strings_view(b@).to_set()));
                            assert forall|k: int| 0 <= k < kept@.len() implies strings_view(a@).take(i + 1).contains(#[trigger] strings_view(kept@)[k]) by {
                                let w = strings_view(kept@)[k];
                                let m = choose|m: int| 0 <= m < i && strings_view(a@).take(i as int)[m] == w;
                                assert(strings_view(a@).take(i + 1)[m] == w);
                            }
                        }
                    }
                    i = i + 1;
                }
                proof {
                    assert(strings_view(a@).take(a@.len() as int) =~= strings_view(a@));
                    assert(self.contents().intersect(other.contents()) =~= strings_view(a@).to_set().intersect(
                        strings_view(b@).to_set(),
                    ));
                }
                let length = kept.len();
                ElementSet::Elements { elements: kept, length }
            },
        }
    }

    /// The strings in either set.
    pub fn union(&self, other: &ElementSet) -> (r: ElementSet)
        requires
            self.wf(),
            other.wf(),
        ensures
            r.wf(),
            r.contents() == self.contents().union(other.contents()),
            (self is Complete || other is Complete) ==> r is Complete,
            (self is Empty && other is Empty) ==> r is Empty,
            (self is Elements && other is Empty) ==> r is Elements && r.recorded_length() == self.recorded_length(),
            (self is Empty && other is Elements) ==> r is Elements && r.recorded_length() == other.recorded_length(),
            (self is Elements && other is Elements) ==> r is Elements && r.recorded_length() == Some(
                r.held_count() as usize,
            ),
    {
        match (self, other) {
            (_, ElementSet::Complete) => {
                proof {
                    assert(self.contents().union(Set::full()) =~= Set::full());
                }
                ElementSet::Complete
            },
            (ElementSet::Complete, _) => {
                proof {
                    assert(Set::full().union(other.contents()) =~= Set::full());
                }
                ElementSet::Complete
            },
            (ElementSet::Empty, ElementSet::Empty) => {
                proof {
                    assert(Set::<Seq<char>>::empty().union(Set::empty()) =~= Set::empty());
                }
                ElementSet::Empty
            },
            (ElementSet::Elements { elements, length }, ElementSet::Empty) => {
                proof {
                    assert(self.contents().union(Set::empty()) =~= self.contents());
                }
                ElementSet::Elements { elements: copy_all(elements), length: *length }
            },
            (ElementSet::Empty, ElementSet::Elements { elements, length }) => {
                proof {
                    assert(Set::empty().union(other.contents()) =~= other.contents());
                }
                ElementSet::Elements { elements: copy_all(elements), length: *length }
            },
            (ElementSet::Elements { elements: ea, .. }, ElementSet::Elements { elements: eb, .. }) => {
                let mut all = copy_all(ea);
                let mut i: usize = 0;
                while i < eb.len()
                    invariant
                        0 <= i <= eb@.len(),
                        distinct(strings_view(all@)),
                        strings_view(all@).to_set() == strings_view(ea@).to_set().union(strings_view(eb@).take(i as int).to_set()),
                    decreases eb.len() - i,
                {
                    let e = &eb[i];
                    let ghost before = all@;
                    proof {
                        assert(strings_view(eb@).take(i + 1) =~= strings_view(eb@).take(i as int).push(e@));
                        lemma_push_to_set(strings_view(eb@).take(i as int), e@);
                    }
                    if !contains_string(&all, e.as_str()) {
                        all.push(e.clone());
                        proof {
                            assert(strings_view(all@) =~= strings_view(before).push(e@));
                            lemma_push_to_set(strings_view(before), e@);
                            assert(strings_view(all@).to_set() =~= strings_view(ea@).to_set().union(strings_view(eb@).take(i + 1).to_set()));
                        }
                    } else {
                        proof {
                            assert(strings_view(before).to_set().contains(e@));
                            assert(strings_view(all@).to_set() =~= strings_view(ea@).to_set().union(strings_view(eb@).take(i + 1).to_set()));
                        }
                    }
                    i = i + 1;
                }
                proof {
                    assert(strings_view(eb@).take(eb@.len() as int) =~= strings_view(eb@));
                }
                let length = all.len();
                ElementSet::Elements { elements: all, length }
            },
        }
    }
}

/// Union does not depend on the order of its arguments: `a.union(b)` and
/// `b.union(a)` hold the same strings.
pub proof fn law_union_commutes(a: ElementSet, b: ElementSet)
    ensures
        a.contents().union(b.contents()) == b.contents().union(a.contents()),
{
    assert(a.contents().union(b.contents()) =~= b.contents().union(a.contents()));
}

/// Whether one of the strings equals `s`.
pub(crate) fn contains_string(v: &Vec<String>, s: &str) -> (r: bool)
    ensures
        r == strings_view(v@).contains(s@),
{
    let mut i: usize = 0;
    while i < v.len()
        invariant
            0 <= i <= v@.len(),
            forall|j: int| 0 <= j < i ==> strings_view(v@)[j] != s@,
        decreases v.len() - i,
    {
        if str_eq(v[i].as_str(), s) {
            assert(strings_view(v@)[i as int] == s@);
            return true;
        }
        i = i + 1;
    }
    assert(!strings_view(v@).contains(s@)) by {
        if strings_view(v@).contains(s@) {
            let j = choose|j: int| 0 <= j < strings_view(v@).len() && strings_view(v@)[j] == s@;
            assert(strings_view(v@)[j] != s@);
        }
    }
    false
}

fn copy_all(v: &Vec<String>) -> (r: Vec<String>)
    ensures
        strings_view(r@) == strings_view(v@),
{
    crate::text::copy_strings(v)
}

} // verus!
