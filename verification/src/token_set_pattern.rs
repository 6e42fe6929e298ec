use vstd::prelude::*;
use crate::text::chars_of;
use crate::token_set::{
    TokenSet, NodeModel, label_target, set_label, graph_wf, accepts_wild, has_ranks, lemma_set_label_target,
    lemma_label_at, lemma_label_absent, star_free,
};
use crate::token_set_intersect::{lemma_star_free_no_wildcards, lemma_star_free_matches};

verus! {

// ---------------------------------------------------------------------------
// Patterns.
// ---------------------------------------------------------------------------

/// The number of characters other than `*` among the first `k` of `p`.
pub open spec fn literals_before(p: Seq<char>, k: int) -> int
    decreases k,
{
    if k <= 0 {
        0
    } else {
        literals_before(p, k - 1) + (if p[k - 1] == '*' { 0int } else { 1int })
    }
}

/// Whether `w` matches the pattern `p[k..]`, in which `*` stands for any run of
/// characters and every other character for itself.
pub open spec fn glob_from(p: Seq<char>, k: int, w: Seq<char>) -> bool
    decreases p.len() - k, w.len(),
{
    if k >= p.len() {
        w.len() == 0
    } else if p[k] == '*' {
        glob_from(p, k + 1, w) || (w.len() > 0 && glob_from(p, k, w.drop_first()))
    } else {
        w.len() > 0 && w[0] == p[k] && glob_from(p, k + 1, w.drop_first())
    }
}

/// Whether `w` matches the whole pattern `p`.
pub open spec fn glob(p: Seq<char>, w: Seq<char>) -> bool {
    glob_from(p, 0, w)
}

/// The words that the set built from the string `p` matches: those that match
/// `p` as a pattern, where `p` is not empty.
pub open spec fn pattern_matches(p: Seq<char>, w: Seq<char>) -> bool {
    p.len() > 0 && glob(p, w)
}

/// A pattern without `*` matches exactly itself.
pub proof fn law_literal_pattern(p: Seq<char>, w: Seq<char>)
    requires
        p.len() > 0,
        !p.contains('*'),
    ensures
        pattern_matches(p, w) <==> w == p,
{
    lemma_glob_literal(p, 0, w);
    assert(p.skip(0) =~= p);
}

proof fn lemma_glob_literal(p: Seq<char>, k: int, w: Seq<char>)
    requires
        0 <= k <= p.len(),
        !p.contains('*'),
    ensures
        glob_from(p, k, w) <==> w == p.skip(k),
    decreases p.len() - k,
{
    if k < p.len() {
        assert(p[k] != '*');
        lemma_glob_literal(p, k + 1, w.drop_first());
        if w.len() > 0 && w[0] == p[k] && w.drop_first() == p.skip(k + 1) {
            assert forall|i: int| 0 <= i < w.len() implies #[trigger] w[i] == p.skip(k)[i] by {
                if i > 0 {
                    assert(w[i] == w.drop_first()[i - 1]);
                }
            }
            assert(w =~= p.skip(k));
        }
        if w == p.skip(k) {
            assert(w.drop_first() =~= p.skip(k + 1));
        }
    } else {
        if w == p.skip(k) {
            assert(w.len() == 0);
        }
        if w.len() == 0 {
            assert(w =~= p.skip(k));
        }
    }
}

// ---------------------------------------------------------------------------
// Facts about patterns.
// ---------------------------------------------------------------------------

/// The first position at or after `k` that holds no `*`, or the end.
spec fn next_literal(p: Seq<char>, k: int) -> int
    decreases p.len() - k,
{
    if k >= p.len() {
        k
    } else if p[k] == '*' {
        next_literal(p, k + 1)
    } else {
        k
    }
}

proof fn lemma_next_literal(p: Seq<char>, k: int)
    requires
        0 <= k <= p.len(),
    ensures
        k <= next_literal(p, k) <= p.len(),
        next_literal(p, k) < p.len() ==> p[next_literal(p, k)] != '*',
        forall|j: int| k <= j < next_literal(p, k) ==> p[j] == '*',
        literals_before(p, next_literal(p, k)) == literals_before(p, k),
    decreases p.len() - k,
{
    if k < p.len() && p[k] == '*' {
        lemma_next_literal(p, k + 1);
    }
}

proof fn lemma_literals_mono(p: Seq<char>, i: int, j: int)
    requires
        0 <= i <= j,
    ensures
        literals_before(p, i) <= literals_before(p, j),
    decreases j - i,
{
    if i < j {
        lemma_literals_mono(p, i, j - 1);
    }
}

/// A character other than `*` at `i` counts before every later position.
proof fn lemma_literals_strict(p: Seq<char>, i: int, j: int)
    requires
        0 <= i < j,
        p[i] != '*',
    ensures
        literals_before(p, i) < literals_before(p, j),
{
    lemma_literals_mono(p, i + 1, j);
}

proof fn lemma_glob_stars(p: Seq<char>, k: int, w: Seq<char>)
    requires
        0 <= k < p.len(),
        p[k] == '*',
    ensures
        glob_from(p, k, w) == (glob_from(p, next_literal(p, k), w) || (w.len() > 0 && glob_from(
            p,
            k,
            w.drop_first(),
        ))),
    decreases p.len() - k,
{
    assert(next_literal(p, k) == next_literal(p, k + 1));
    if k + 1 < p.len() && p[k + 1] == '*' {
        lemma_glob_stars(p, k + 1, w);
        if w.len() > 0 {
            assert(glob_from(p, k + 1, w.drop_first()) ==> glob_from(p, k, w.drop_first()));
        }
    }
}


// ---------------------------------------------------------------------------
// The graph that the string builds, after its first `k` characters.
// ---------------------------------------------------------------------------

/// Some `*` among the first `k` characters was read at node `t`.
spec fn star_at(p: Seq<char>, k: int, t: int) -> bool {
    exists|j: int| 0 <= j < k && #[trigger] p[j] == '*' && literals_before(p, j) == t
}

/// The character `c`, not `*`, is among the first `k` and was read at node `t`.
spec fn literal_at(p: Seq<char>, k: int, t: int, c: char) -> bool {
    exists|j: int| 0 <= j < k && #[trigger] p[j] == c && c != '*' && literals_before(p, j) == t
}

#[verifier::opaque]
spec fn star_edges(g: Seq<NodeModel>, p: Seq<char>, k: int) -> bool {
    forall|t: int|
        0 <= t < g.len() ==> #[trigger] label_target(g[t].edges, '*') == (if star_at(p, k, t) {
            Some(t)
        } else {
            None
        })
}

#[verifier::opaque]
spec fn literal_edges(g: Seq<NodeModel>, p: Seq<char>, k: int) -> bool {
    forall|j: int|
        0 <= j < k && #[trigger] p[j] != '*' ==> label_target(g[literals_before(p, j)].edges, p[j])
            == Some(literals_before(p, j) + 1)
}

#[verifier::opaque]
spec fn no_other_edges(g: Seq<NodeModel>, p: Seq<char>, k: int) -> bool {
    forall|t: int, c: char|
        0 <= t < g.len() && c != '*' && (#[trigger] label_target(g[t].edges, c)) is Some
            ==> literal_at(p, k, t, c)
}

#[verifier::opaque]
spec fn finals(g: Seq<NodeModel>, p: Seq<char>, k: int, wlen: int) -> bool {
    forall|t: int|
        0 <= t < g.len() ==> (#[trigger] g[t].is_final) == (k > 0 && k == wlen && t
            == literals_before(p, k))
}

/// The graph built from the first `k` characters of `p`, whose word ends
/// after `wlen` characters.
spec fn shape(g: Seq<NodeModel>, p: Seq<char>, k: int, wlen: int) -> bool {
    &&& 0 <= k <= p.len()
    &&& p.len() <= wlen
    &&& graph_wf(g)
    &&& g.len() == literals_before(p, k) + 1
    &&& star_edges(g, p, k)
    &&& literal_edges(g, p, k)
    &&& no_other_edges(g, p, k)
    &&& finals(g, p, k, wlen)
}

/// At a node entered right after a character other than `*` (or at the root),
/// the edges are those of the pattern that follows.
/// At a node entered right after a character other than `*` (or at the root),
/// the edges are those of the pattern that follows.
proof fn lemma_node_edges(g: Seq<NodeModel>, p: Seq<char>, k: int)
    requires
        shape(g, p, p.len() as int, p.len() as int),
        p.len() > 0,
        0 <= k <= p.len(),
        k == 0 || p[k - 1] != '*',
    ensures
        0 <= literals_before(p, k) < g.len(),
        label_target(g[literals_before(p, k)].edges, '*') == (if k < p.len() && p[k] == '*' {
            Some(literals_before(p, k))
        } else {
            None
        }),
        g[literals_before(p, k)].is_final == (literals_before(p, k) == literals_before(p, p.len() as int)),
        forall|c: char|
            c != '*' ==> #[trigger] label_target(g[literals_before(p, k)].edges, c) == (if next_literal(
                p,
                k,
            ) < p.len() && p[next_literal(p, k)] == c {
                Some(literals_before(p, k) + 1)
            } else {
                None
            }),
{
    let n = p.len() as int;
    let t = literals_before(p, k);
    let m = next_literal(p, k);
    lemma_next_literal(p, k);
    lemma_literals_mono(p, 0, k);
    lemma_literals_mono(p, k, n);
    assert(0 <= t < g.len());
    assert(g[t].is_final == (t == literals_before(p, n))) by {
        reveal(finals);
    }
    assert(label_target(g[t].edges, '*') == (if k < n && p[k] == '*' { Some(t) } else { None })) by {
        reveal(star_edges);
        if k < n && p[k] == '*' {
            assert(star_at(p, n, t));
        } else {
            if star_at(p, n, t) {
                let j = choose|j: int| 0 <= j < n && #[trigger] p[j] == '*' && literals_before(p, j) == t;
                if j < k {
                    lemma_literals_mono(p, j, k - 1);
                    lemma_literals_strict(p, k - 1, k);
                } else if j > k {
                    lemma_literals_strict(p, k, j);
                }
            }
        }
    }
    assert forall|c: char| c != '*' implies #[trigger] label_target(g[t].edges, c) == (if m < n && p[m]
        == c {
        Some(t + 1)
    } else {
        None
    }) by {
        if m < n && p[m] == c {
            assert(p[m] != '*');
            reveal(literal_edges);
        } else {
            if label_target(g[t].edges, c) is Some {
                reveal(no_other_edges);
                assert(literal_at(p, n, t, c));
                let j = choose|j: int|
                    0 <= j < n && #[trigger] p[j] == c && c != '*' && literals_before(p, j) == t;
                if j < k {
                    lemma_literals_strict(p, j, k);
                } else if j < m {
                    assert(p[j] == '*');
                } else if j > m {
                    lemma_literals_strict(p, m, j);
                }
            }
        }
    }
}

/// A graph without final nodes matches nothing.
proof fn lemma_no_final(g: Seq<NodeModel>, t: int, w: Seq<char>)
    requires
        forall|u: int| 0 <= u < g.len() ==> !(#[trigger] g[u].is_final),
    ensures
        !accepts_wild(g, t, w),
    decreases w.len(),
{
    if w.len() > 0 {
        match label_target(g[t].edges, w[0]) {
            Some(x) => lemma_no_final(g, x, w.drop_first()),
            None => {},
        }
        match label_target(g[t].edges, '*') {
            Some(x) => lemma_no_final(g, x, w.drop_first()),
            None => {},
        }
    }
}

/// From the node entered right after position `k`, the built graph matches
/// exactly what `p[k..]` matches.
proof fn lemma_glob(g: Seq<NodeModel>, p: Seq<char>, k: int, w: Seq<char>)
    requires
        shape(g, p, p.len() as int, p.len() as int),
        p.len() > 0,
        0 <= k <= p.len(),
        k == 0 || p[k - 1] != '*',
    ensures
        accepts_wild(g, literals_before(p, k), w) == glob_from(p, k, w),
    decreases w.len(), p.len() - k,
{
    let n = p.len() as int;
    let t = literals_before(p, k);
    let m = next_literal(p, k);
    lemma_next_literal(p, k);
    lemma_node_edges(g, p, k);
    lemma_literals_mono(p, k, n);
    if m < n {
        lemma_literals_strict(p, m, n);
        assert(literals_before(p, m + 1) == t + 1);
    }
    if k < n && p[k] == '*' {
        lemma_glob_stars(p, k, w);
    }
    if w.len() > 0 {
        let c = w[0];
        let rest = w.drop_first();
        if k < n && p[k] == '*' {
            lemma_glob(g, p, k, rest);
            if m < n && c == p[m] {
                lemma_glob(g, p, m + 1, rest);
            }
        } else if k < n {
            assert(m == k);
            if c == p[k] {
                lemma_glob(g, p, k + 1, rest);
            }
        }
    }
}

proof fn lemma_step_star(g: Seq<NodeModel>, g2: Seq<NodeModel>, p: Seq<char>, k: int, wlen: int)
    requires
        shape(g, p, k, wlen),
        k < p.len(),
        p[k] == '*',
        graph_wf(g2),
        g2 == g.update(
            literals_before(p, k),
            NodeModel {
                is_final: k + 1 == wlen,
                edges: set_label(g[literals_before(p, k)].edges, '*', literals_before(p, k)),
            },
        ),
    ensures
        shape(g2, p, k + 1, wlen),
        g2.len() == literals_before(p, k + 1) + 1,
{
    reveal(star_edges);
    reveal(literal_edges);
    reveal(no_other_edges);
    reveal(finals);
    let cur = literals_before(p, k);
    lemma_literals_mono(p, 0, k);

    assert(literals_before(p, k + 1) == cur);
    assert forall|t: int| 0 <= t < g2.len() implies #[trigger] label_target(
        g2[t].edges,
        '*',
    ) == (if star_at(p, k + 1, t) {
        Some(t)
    } else {
        None
    }) by {
        if t == cur {
            lemma_set_label_target(g[t].edges, '*', cur, '*');
            assert(p[k] == '*');
            assert(star_at(p, k + 1, t));
        } else {
            assert(g2[t] == g[t]);
            if star_at(p, k + 1, t) {
                let j = choose|j: int|
                    0 <= j < k + 1 && #[trigger] p[j] == '*' && literals_before(p, j)
                        == t;
                assert(j != k);
                assert(star_at(p, k, t));
            }
        }
    }
    assert forall|j: int| 0 <= j < k + 1 && #[trigger] p[j] != '*' implies label_target(
        g2[literals_before(p, j)].edges,
        p[j],
    ) == Some(literals_before(p, j) + 1) by {
        assert(j < k);
        lemma_literals_mono(p, 0, j);
        lemma_literals_mono(p, j, k);
        let u = literals_before(p, j);
        if u == cur {
            lemma_set_label_target(g[u].edges, '*', cur, p[j]);
        } else {
            assert(g2[u] == g[u]);
        }
    }
    assert forall|t: int, d: char|
        0 <= t < g2.len() && d != '*' && (#[trigger] label_target(
            g2[t].edges,
            d,
        )) is Some implies literal_at(p, k + 1, t, d) by {
        if t == cur {
            lemma_set_label_target(g[t].edges, '*', cur, d);
        } else {
            assert(g2[t] == g[t]);
        }
        assert(literal_at(p, k, t, d));
        let j = choose|j: int|
            0 <= j < k && #[trigger] p[j] == d && d != '*' && literals_before(p, j)
                == t;
        assert(p[j] == d);
    }
    assert forall|t: int| 0 <= t < g2.len() implies (#[trigger] g2[t].is_final) == (
    k + 1 > 0 && k + 1 == wlen && t == literals_before(p, k + 1)) by {
        if t != cur {
            assert(g2[t] == g[t]);
        }
    }
}

proof fn lemma_step_literal(g: Seq<NodeModel>, g2: Seq<NodeModel>, p: Seq<char>, k: int, wlen: int)
    requires
        shape(g, p, k, wlen),
        k < p.len(),
        p[k] != '*',
        graph_wf(g2),
        g2 == g.push(NodeModel { is_final: k + 1 == wlen, edges: Seq::empty() }).update(
            literals_before(p, k),
            NodeModel {
                edges: set_label(g[literals_before(p, k)].edges, p[k], g.len() as int),
                ..g[literals_before(p, k)]
            },
        ),
    ensures
        shape(g2, p, k + 1, wlen),
        g2.len() == literals_before(p, k + 1) + 1,
{
    reveal(star_edges);
    reveal(literal_edges);
    reveal(no_other_edges);
    reveal(finals);
    let c = p[k];
    let next = g.len() as int;
    let g1 = g.push(NodeModel { is_final: k + 1 == wlen, edges: Seq::empty() });
    lemma_literals_mono(p, 0, k);

    let old_cur = literals_before(p, k);
    assert(literals_before(p, k + 1) == old_cur + 1);
    assert(g1[next].edges == Seq::<(char, int)>::empty());
    assert forall|t: int| 0 <= t < g2.len() implies #[trigger] label_target(
        g2[t].edges,
        '*',
    ) == (if star_at(p, k + 1, t) {
        Some(t)
    } else {
        None
    }) by {
        if star_at(p, k + 1, t) {
            let j = choose|j: int|
                0 <= j < k + 1 && #[trigger] p[j] == '*' && literals_before(p, j)
                    == t;
            assert(j != k);
            assert(star_at(p, k, t));
            lemma_literals_mono(p, j, k);
        }
        if t == old_cur {
            lemma_set_label_target(g1[t].edges, c, next, '*');
            assert(g1[t] == g[t]);
        } else if t == next {
            lemma_label_absent(g1[t].edges, '*', 0);
        } else {
            assert(g2[t] == g[t]);
        }
    }
    assert forall|j: int| 0 <= j < k + 1 && #[trigger] p[j] != '*' implies label_target(
        g2[literals_before(p, j)].edges,
        p[j],
    ) == Some(literals_before(p, j) + 1) by {
        let u = literals_before(p, j);
        lemma_literals_mono(p, 0, j);
        if j == k {
            lemma_set_label_target(g1[u].edges, c, next, c);
        } else {
            lemma_literals_strict(p, j, k);
            assert(g2[u] == g[u]);
        }
    }
    assert forall|t: int, d: char|
        0 <= t < g2.len() && d != '*' && (#[trigger] label_target(
            g2[t].edges,
            d,
        )) is Some implies literal_at(p, k + 1, t, d) by {
        if t == old_cur {
            assert(g1[t] == g[t]);
            lemma_set_label_target(g1[t].edges, c, next, d);
            if d == c {
                assert(p[k] == d);
            } else {
                assert(literal_at(p, k, t, d));
                let j = choose|j: int|
                    0 <= j < k && #[trigger] p[j] == d && d != '*'
                        && literals_before(p, j) == t;
                assert(p[j] == d);
            }
        } else if t == next {
            lemma_label_absent(g1[t].edges, d, 0);
        } else {
            assert(g2[t] == g[t]);
            assert(literal_at(p, k, t, d));
            let j = choose|j: int|
                0 <= j < k && #[trigger] p[j] == d && d != '*' && literals_before(p, j)
                    == t;
            assert(p[j] == d);
        }
    }
    assert forall|t: int| 0 <= t < g2.len() implies (#[trigger] g2[t].is_final) == (
    k + 1 > 0 && k + 1 == wlen && t == literals_before(p, k + 1)) by {
        if t != next {
            assert(g2[t].is_final == g[t].is_final);
        }
    }
}

// ---------------------------------------------------------------------------
// Building the set.
// ---------------------------------------------------------------------------

impl TokenSet {
    /// The set of the words that match `s` read as a pattern, in which `*`
    /// stands for any run of characters: each `*` becomes an edge from a node
    /// back to itself. A string without `*` gives the set of that one word.
    pub fn from_string(s: &str) -> (r: TokenSet)
        ensures
            r.wf(),
            forall|w: Seq<char>| #[trigger] r.matches_word(w) <==> pattern_matches(s@, w),
            !s@.contains('*') ==> r.is_acyclic() && r.has_no_wildcards() && star_free(r.graph()),
            !s@.contains('*') ==> forall|w: Seq<char>|
                #[trigger] r.words().contains(w) <==> (s@.len() > 0 && w == s@),
    {
        let cs = chars_of(s);
        let wlen = cs.len();
        let ghost p = s@;
        let mut r = TokenSet::new();
        let mut cur: usize = 0;
        let mut i: usize = 0;
        proof {
            reveal(star_edges);
    reveal(literal_edges);
    reveal(no_other_edges);
    reveal(finals);
            assert(literals_before(p, 0) == 0);
            assert forall|t: int| 0 <= t < r.graph().len() implies #[trigger] label_target(
                r.graph()[t].edges,
                '*',
            ) == (if star_at(p, 0, t) {
                Some(t)
            } else {
                None
            }) by {
                lemma_label_absent(r.graph()[t].edges, '*', 0);
            }
            assert forall|t: int, c: char|
                0 <= t < r.graph().len() && c != '*' && (#[trigger] label_target(
                    r.graph()[t].edges,
                    c,
                )) is Some implies literal_at(p, 0, t, c) by {
                lemma_label_absent(r.graph()[t].edges, c, 0);
            }
        }
        while i < cs.len()
            invariant
                cs@ == p,
                wlen == p.len(),
                i <= cs@.len(),
                r.wf(),
                r.root() == 0,
                cur == literals_before(p, i as int),
                r.graph().len() == literals_before(p, i as int) + 1,
                shape(r.graph(), p, i as int, wlen as int),
            decreases cs.len() - i,
        {
            let ghost g = r.graph();
            let ghost k = i as int;
            let c = cs[i];
            if c == '*' {
                r.set_edge(cur, '*', cur);
                r.set_final(cur, i + 1 == wlen);
                proof {
                    assert(r.graph() =~= g.update(
                        cur as int,
                        NodeModel {
                            is_final: k + 1 == wlen,
                            edges: set_label(g[cur as int].edges, '*', cur as int),
                        },
                    ));
                    lemma_step_star(g, r.graph(), p, k, wlen as int);
                }
            } else {
                let next = r.add_node(i + 1 == wlen);
                r.set_edge(cur, c, next);
                proof {
                    assert(r.graph() =~= g.push(
                        NodeModel { is_final: k + 1 == wlen, edges: Seq::empty() },
                    ).update(
                        cur as int,
                        NodeModel { edges: set_label(g[cur as int].edges, c, next as int), ..g[cur as int] },
                    ));
                    lemma_step_literal(g, r.graph(), p, k, wlen as int);
                }
                cur = next;
            }
            i = i + 1;
        }
        proof {
            reveal(star_edges);
    reveal(literal_edges);
    reveal(no_other_edges);
    reveal(finals);
            let g = r.graph();
            let n = p.len() as int;
            assert(r.root() == 0);
            assert(literals_before(p, 0) == 0);
            if n > 0 {
                assert forall|w: Seq<char>| #[trigger] r.matches_word(w) <==> pattern_matches(p, w) by {
                    lemma_glob(g, p, 0, w);
                }
            } else {
                assert forall|w: Seq<char>| #[trigger] r.matches_word(w) <==> pattern_matches(p, w) by {
                    lemma_no_final(g, 0, w);
                }
            }
            if !p.contains('*') {
                let rank = Seq::new(g.len(), |t: int| (g.len() - 1 - t) as nat);
                assert forall|t: int, e: int|
                    0 <= t < g.len() && 0 <= e < g[t].edges.len() implies rank[(
                    #[trigger] g[t].edges[e]).1] < rank[t] by {
                    let d = g[t].edges[e].0;
                    assert(graph_wf(g));
                    lemma_label_at(g[t].edges, d, e, 0);
                    if d == '*' {
                        let j = choose|j: int|
                            0 <= j < n && #[trigger] p[j] == '*' && literals_before(p, j) == t;
                        assert(p.contains('*'));
                    } else {
                        let j = choose|j: int|
                            0 <= j < n && #[trigger] p[j] == d && d != '*' && literals_before(p, j) == t;
                        assert(p[j] != '*');
                    }
                }
                assert(has_ranks(g, rank));
                assert forall|t: int| 0 <= t < g.len() implies #[trigger] label_target(g[t].edges, '*') is None by {
                    if star_at(p, n, t) {
                        let j = choose|j: int| 0 <= j < n && #[trigger] p[j] == '*' && literals_before(p, j) == t;
                        assert(p.contains('*'));
                    }
                }
                lemma_star_free_no_wildcards(r);
                assert forall|w: Seq<char>|
                    #[trigger] r.words().contains(w) <==> (p.len() > 0 && w == p) by {
                    lemma_star_free_matches(g, 0, w);
                    assert(r.matches_word(w) == pattern_matches(p, w));
                    if p.len() > 0 {
                        law_literal_pattern(p, w);
                    }
                }
            }
        }
        r
    }
}

} // verus!
