use vstd::prelude::*;
use crate::token_set::{
    TokenSet, NodeModel, label_target, set_label, graph_wf, accepts, accepts_wild, has_ranks,
    lemma_label_at, lemma_set_label_target, walk, star_free,
};

verus! {

// ---------------------------------------------------------------------------
// Reading a prefix.
// ---------------------------------------------------------------------------

/// Whatever `g` matches from `q` it matches from `r` after `u`: `q` is one of
/// the nodes that reading `u` from `r` can end at.
pub open spec fn leads_to(g: Seq<NodeModel>, r: int, u: Seq<char>, q: int) -> bool {
    forall|v: Seq<char>| #[trigger] accepts_wild(g, q, v) ==> accepts_wild(g, r, u + v)
}

/// `g2` holds every edge and every final node of `g`, and maybe more.
pub open spec fn extends(g: Seq<NodeModel>, g2: Seq<NodeModel>) -> bool {
    &&& g.len() <= g2.len()
    &&& forall|o: int| 0 <= o < g.len() && #[trigger] g[o].is_final ==> g2[o].is_final
    &&& forall|o: int, c: char|
        0 <= o < g.len() && (#[trigger] label_target(g[o].edges, c)) is Some ==> label_target(
            g2[o].edges,
            c,
        ) == label_target(g[o].edges, c)
}

pub proof fn lemma_target_in_graph(g: Seq<NodeModel>, n: int, c: char)
    requires
        graph_wf(g),
        0 <= n < g.len(),
        label_target(g[n].edges, c) is Some,
    ensures
        0 <= label_target(g[n].edges, c)->0 < g.len(),
{
    let es = g[n].edges;
    let i = choose|i: int| 0 <= i < es.len() && es[i].0 == c;
    assert(0 <= es[i].1 < g.len());
}

pub proof fn lemma_walk_in_graph(g: Seq<NodeModel>, n: int, w: Seq<char>)
    requires
        graph_wf(g),
        0 <= n < g.len(),
        walk(g, n, w) is Some,
    ensures
        0 <= walk(g, n, w)->0 < g.len(),
    decreases w.len(),
{
    if w.len() > 0 {
        lemma_walk_in_graph(g, n, w.drop_last());
        lemma_target_in_graph(g, walk(g, n, w.drop_last())->0, w.last());
    }
}

/// A set none of whose nodes has an edge labelled `*` holds no wildcards.
pub proof fn lemma_star_free_no_wildcards(t: TokenSet)
    requires
        t.wf(),
        star_free(t.graph()),
    ensures
        t.has_no_wildcards(),
{
    assert forall|u: Seq<char>|
        #[trigger] walk(t.graph(), t.root(), u) is Some implies label_target(
            t.graph()[walk(t.graph(), t.root(), u)->0].edges,
            '*',
        ) is None by {
        lemma_walk_in_graph(t.graph(), t.root(), u);
    }
}

/// Without `*` edges a set matches exactly its words.
pub proof fn lemma_star_free_matches(g: Seq<NodeModel>, n: int, w: Seq<char>)
    requires
        star_free(g),
    ensures
        accepts_wild(g, n, w) == accepts(g, n, w),
    decreases w.len(),
{
    if w.len() > 0 && 0 <= n < g.len() {
        assert(label_target(g[n].edges, '*') is None);
        if label_target(g[n].edges, w[0]) is Some {
            lemma_star_free_matches(g, label_target(g[n].edges, w[0])->0, w.drop_first());
        }
    }
}

proof fn lemma_walk_push(g: Seq<NodeModel>, n: int, u: Seq<char>, c: char)
    ensures
        walk(g, n, u.push(c)) == (match walk(g, n, u) {
            Some(m) => label_target(g[m].edges, c),
            None => None,
        }),
{
    assert(u.push(c).drop_last() =~= u);
}

/// Reading `u` to `m` and then `v` from `m` reads `u + v`.
proof fn lemma_walk_accepts(g: Seq<NodeModel>, r: int, u: Seq<char>, v: Seq<char>)
    requires
        graph_wf(g),
        0 <= r < g.len(),
        walk(g, r, u) is Some,
        accepts(g, walk(g, r, u)->0, v),
    ensures
        accepts(g, r, u + v),
    decreases u.len(),
{
    if u.len() == 0 {
        assert(u + v =~= v);
    } else {
        let u1 = u.drop_last();
        let c = u.last();
        let m1 = walk(g, r, u1)->0;
        lemma_walk_in_graph(g, r, u1);
        let cv = seq![c] + v;
        assert(cv[0] == c);
        assert(cv.drop_first() =~= v);
        assert(accepts(g, m1, cv));
        lemma_walk_accepts(g, r, u1, cv);
        assert(u1 + cv =~= u + v);
    }
}

pub proof fn lemma_accepts_mono(g: Seq<NodeModel>, g2: Seq<NodeModel>, o: int, w: Seq<char>)
    requires
        extends(g, g2),
        graph_wf(g),
        accepts(g, o, w),
    ensures
        accepts(g2, o, w),
    decreases w.len(),
{
    if w.len() > 0 {
        let t = label_target(g[o].edges, w[0])->0;
        assert(label_target(g2[o].edges, w[0]) == Some(t));
        lemma_accepts_mono(g, g2, t, w.drop_first());
    }
}

pub proof fn lemma_extends_trans(g1: Seq<NodeModel>, g2: Seq<NodeModel>, g3: Seq<NodeModel>)
    requires
        extends(g1, g2),
        extends(g2, g3),
    ensures
        extends(g1, g3),
{
    assert forall|o: int, c: char|
        0 <= o < g1.len() && (#[trigger] label_target(g1[o].edges, c)) is Some implies label_target(
            g3[o].edges,
            c,
        ) == label_target(g1[o].edges, c) by {
        assert(label_target(g2[o].edges, c) is Some);
    }
}

// ---------------------------------------------------------------------------
// The output graph.
// ---------------------------------------------------------------------------

/// Each output node `o` stands for the word `pref[o]` that leads to it: read in
/// `sg` from `sr`, it is a path there, and a final output node stands for a
/// word that `sg` accepts and `bg` matches.
pub open spec fn output_inv(
    og: Seq<NodeModel>,
    pref: Seq<Seq<char>>,
    sg: Seq<NodeModel>,
    sr: int,
    bg: Seq<NodeModel>,
    br: int,
    bound: int,
) -> bool {
    &&& graph_wf(og)
    &&& og.len() > 0
    &&& pref.len() == og.len()
    &&& pref[0] == Seq::<char>::empty()
    &&& forall|o: int, i: int|
        0 <= o < og.len() && 0 <= i < og[o].edges.len() ==> pref[(#[trigger] og[o].edges[i]).1]
            == pref[o].push(og[o].edges[i].0)
    &&& forall|o: int| 0 <= o < og.len() ==> (#[trigger] walk(sg, sr, pref[o])) is Some
    &&& forall|o: int| 0 <= o < og.len() ==> (#[trigger] pref[o]).len() <= bound
    &&& forall|o: int|
        0 <= o < og.len() && #[trigger] og[o].is_final ==> pref[o].len() > 0 && accepts(
            sg,
            sr,
            pref[o],
        ) && accepts_wild(bg, br, pref[o])
}

/// What the output accepts from `o` is read from `pref[o]` on in both graphs.
proof fn lemma_output_sound(
    og: Seq<NodeModel>,
    pref: Seq<Seq<char>>,
    sg: Seq<NodeModel>,
    sr: int,
    bg: Seq<NodeModel>,
    br: int,
    bound: int,
    o: int,
    w: Seq<char>,
)
    requires
        output_inv(og, pref, sg, sr, bg, br, bound),
        0 <= o < og.len(),
        accepts(og, o, w),
    ensures
        (pref[o] + w).len() > 0,
        accepts(sg, sr, pref[o] + w),
        accepts_wild(bg, br, pref[o] + w),
    decreases w.len(),
{
    if w.len() == 0 {
        assert(pref[o] + w =~= pref[o]);
    } else {
        let es = og[o].edges;
        let i = choose|i: int| 0 <= i < es.len() && es[i].0 == w[0];
        lemma_label_at(es, w[0], i, 0);
        let t = es[i].1;
        assert(pref[t] == pref[o].push(w[0]));
        lemma_output_sound(og, pref, sg, sr, bg, br, bound, t, w.drop_first());
        assert(pref[o].push(w[0]) + w.drop_first() =~= pref[o] + w);
    }
}

/// Adding a node for `pref[o] + c` under `o`.
proof fn lemma_output_add(
    og: Seq<NodeModel>,
    pref: Seq<Seq<char>>,
    sg: Seq<NodeModel>,
    sr: int,
    bg: Seq<NodeModel>,
    br: int,
    bound: int,
    o: int,
    c: char,
)
    requires
        output_inv(og, pref, sg, sr, bg, br, bound),
        0 <= o < og.len(),
        label_target(og[o].edges, c) is None,
        walk(sg, sr, pref[o].push(c)) is Some,
        pref[o].len() + 1 <= bound,
    ensures
        ({
            let og1 = og.push(NodeModel { is_final: false, edges: Seq::empty() });
            let og2 = og1.update(o, NodeModel { edges: set_label(og1[o].edges, c, og.len() as int), ..og1[o] });
            let pref2 = pref.push(pref[o].push(c));
            &&& output_inv(og2, pref2, sg, sr, bg, br, bound)
            &&& extends(og, og2)
            &&& label_target(og2[o].edges, c) == Some(og.len() as int)
        }),
{
    let og1 = og.push(NodeModel { is_final: false, edges: Seq::empty() });
    let og2 = og1.update(o, NodeModel { edges: set_label(og1[o].edges, c, og.len() as int), ..og1[o] });
    let pref2 = pref.push(pref[o].push(c));
    let x = og.len() as int;
    assert(og1[o] == og[o]);
    lemma_set_label_target(og[o].edges, c, x, c);
    assert(graph_wf(og2)) by {
        assert forall|n: int| 0 <= n < og2.len() implies crate::token_set::labels_distinct(
            #[trigger] og2[n].edges,
        ) && forall|i: int| 0 <= i < og2[n].edges.len() ==> 0 <= (#[trigger] og2[n].edges[i]).1
            < og2.len() by {
            if n == o {
                let es = og[o].edges;
                let es2 = set_label(es, c, x);
                assert forall|i: int| 0 <= i < es2.len() implies 0 <= (#[trigger] es2[i]).1 < og2.len() by {
                    if i < es.len() {
                        assert(es2[i] == es[i]);
                    } else {
                        assert(es2 == es.push((c, x)));
                    }
                }
            } else if n < og.len() {
                assert(og2[n] == og[n]);
            }
        }
    }
    assert forall|n: int, i: int|
        0 <= n < og2.len() && 0 <= i < og2[n].edges.len() implies pref2[(
        #[trigger] og2[n].edges[i]).1] == pref2[n].push(og2[n].edges[i].0) by {
        if n == o {
            let es = og[o].edges;
            let es2 = set_label(es, c, x);
            if i < es.len() {
                assert(es2[i] == es[i]);
                assert(es[i].1 < og.len());
            } else {
                assert(es2 == es.push((c, x)));
            }
        } else {
            assert(og2[n] == og[n]);
            assert(og[n].edges[i].1 < og.len());
        }
    }
    assert forall|n: int| 0 <= n < og2.len() implies (#[trigger] walk(sg, sr, pref2[n])) is Some by {
        if n < og.len() {
            assert(pref2[n] == pref[n]);
        }
    }
    assert forall|n: int| 0 <= n < og2.len() implies (#[trigger] pref2[n]).len() <= bound by {
        if n < og.len() {
            assert(pref2[n] == pref[n]);
        }
    }
    assert forall|n: int|
        0 <= n < og2.len() && #[trigger] og2[n].is_final implies pref2[n].len() > 0 && accepts(
            sg,
            sr,
            pref2[n],
        ) && accepts_wild(bg, br, pref2[n]) by {
        assert(pref2[n] == pref[n]);
    }
    assert forall|n: int, d: char|
        0 <= n < og.len() && (#[trigger] label_target(og[n].edges, d)) is Some implies label_target(
            og2[n].edges,
            d,
        ) == label_target(og[n].edges, d) by {
        if n == o {
            lemma_set_label_target(og[o].edges, c, x, d);
        } else {
            assert(og2[n] == og[n]);
        }
    }
}

/// Marking `x` final, where `pref[x]` is a word of both sets.
proof fn lemma_output_final(
    og: Seq<NodeModel>,
    pref: Seq<Seq<char>>,
    sg: Seq<NodeModel>,
    sr: int,
    bg: Seq<NodeModel>,
    br: int,
    bound: int,
    x: int,
    f: bool,
)
    requires
        output_inv(og, pref, sg, sr, bg, br, bound),
        0 <= x < og.len(),
        og[x].is_final ==> f,
        f ==> og[x].is_final || (pref[x].len() > 0 && accepts(sg, sr, pref[x]) && accepts_wild(bg, br, pref[x])),
    ensures
        output_inv(og.update(x, NodeModel { is_final: f, ..og[x] }), pref, sg, sr, bg, br, bound),
        extends(og, og.update(x, NodeModel { is_final: f, ..og[x] })),
{
    let og2 = og.update(x, NodeModel { is_final: f, ..og[x] });
    assert forall|n: int| 0 <= n < og2.len() implies crate::token_set::labels_distinct(
        #[trigger] og2[n].edges,
    ) && forall|i: int| 0 <= i < og2[n].edges.len() ==> 0 <= (#[trigger] og2[n].edges[i]).1 < og2.len() by {
        assert(og2[n].edges == og[n].edges);
    }
    assert forall|n: int, i: int|
        0 <= n < og2.len() && 0 <= i < og2[n].edges.len() implies pref[(
        #[trigger] og2[n].edges[i]).1] == pref[n].push(og2[n].edges[i].0) by {
        assert(og2[n].edges == og[n].edges);
    }
    assert forall|n: int, d: char|
        0 <= n < og.len() && (#[trigger] label_target(og[n].edges, d)) is Some implies label_target(
            og2[n].edges,
            d,
        ) == label_target(og[n].edges, d) by {
        assert(og2[n].edges == og[n].edges);
    }
}

// ---------------------------------------------------------------------------
// Intersection.
// ---------------------------------------------------------------------------

/// How far the walk can still go: the rank of this set's node, or of the
/// other set's node, whichever set has ranks.
pub open spec fn walk_measure(use_self: bool, rank: Seq<nat>, brank: Seq<nat>, n: int, q: int) -> nat {
    if use_self {
        rank[n]
    } else {
        brank[q]
    }
}

impl TokenSet {
    /// The words of this set that `b` matches, an edge of `b` labelled `*`
    /// matching any character; the empty word is never among them. Each word
    /// is read along this set's own edges, so the result holds the same
    /// characters. In one of the two sets no walk may come back to a node.
    pub fn intersect(&self, b: &TokenSet) -> (r: TokenSet)
        requires
            self.wf(),
            b.wf(),
            self.is_acyclic() || b.is_acyclic(),
        ensures
            r.wf(),
            r.is_acyclic(),
            forall|w: Seq<char>|
                #[trigger] r.words().contains(w) <==> (w.len() > 0 && self.words().contains(w)
                    && b.matches_word(w)),
            self.has_no_wildcards() ==> r.has_no_wildcards() && star_free(r.graph()),
    {
        let ghost use_self = self.is_acyclic();
        let ghost rank = choose|rank: Seq<nat>| has_ranks(self.graph(), rank);
        let ghost brank = choose|rank: Seq<nat>| has_ranks(b.graph(), rank);
        let ghost sg = self.graph();
        let ghost bg = b.graph();
        let ghost sr = self.root();
        let ghost br = b.root();
        let ghost bound = walk_measure(use_self, rank, brank, sr, br) as int;
        let mut out = TokenSet::new();
        let ghost pref0 = seq![Seq::<char>::empty()];
        proof {
            assert(walk(sg, sr, pref0[0]) == Some(sr));
            assert(output_inv(out.graph(), pref0, sg, sr, bg, br, bound));
            assert forall|v: Seq<char>| #[trigger] accepts_wild(bg, br, v) implies accepts_wild(
                bg,
                br,
                pref0[0] + v,
            ) by {
                assert(pref0[0] + v =~= v);
            }
        }
        let n = self.root_index();
        let q = b.root_index();
        let pref = self.intersect_from(b, &mut out, 0, n, q, Ghost(rank), Ghost(brank), Ghost(use_self), Ghost(bound), Ghost(pref0));
        proof {
            let og = out.graph();
            let pf = pref@;
            assert forall|w: Seq<char>|
                #[trigger] out.words().contains(w) <==> (w.len() > 0 && self.words().contains(w)
                    && b.matches_word(w)) by {
                if accepts(og, 0, w) {
                    lemma_output_sound(og, pf, sg, sr, bg, br, bound, 0, w);
                    assert(pf[0] + w =~= w);
                }
            }
            let orank = Seq::new(og.len(), |o: int| (bound - pf[o].len()) as nat);
            assert forall|o: int, i: int|
                0 <= o < og.len() && 0 <= i < og[o].edges.len() implies orank[(
                #[trigger] og[o].edges[i]).1] < orank[o] by {
                assert(pf[og[o].edges[i].1] == pf[o].push(og[o].edges[i].0));
            }
            assert(has_ranks(og, orank));
            if self.has_no_wildcards() {
                assert forall|o: int| 0 <= o < og.len() implies #[trigger] label_target(og[o].edges, '*') is None by {
                    if label_target(og[o].edges, '*') is Some {
                        let es = og[o].edges;
                        let i = choose|i: int| 0 <= i < es.len() && es[i].0 == '*';
                        let t = es[i].1;
                        assert(pf[t] == pf[o].push('*'));
                        assert(walk(sg, sr, pf[t]) is Some);
                        lemma_walk_push(sg, sr, pf[o], '*');
                        assert(walk(sg, sr, pf[o]) is Some);
                    }
                }
                lemma_star_free_no_wildcards(out);
            }
        }
        out
    }

    /// Adds under output node `o` the words that this set reads from `n` and
    /// `b` matches from `q`.
    fn intersect_from(
        &self,
        b: &TokenSet,
        out: &mut TokenSet,
        o: usize,
        n: usize,
        q: usize,
        Ghost(rank): Ghost<Seq<nat>>,
        Ghost(brank): Ghost<Seq<nat>>,
        Ghost(use_self): Ghost<bool>,
        Ghost(bound): Ghost<int>,
        Ghost(pref): Ghost<Seq<Seq<char>>>,
    ) -> (pref2: Ghost<Seq<Seq<char>>>)
        requires
            self.wf(),
            b.wf(),
            old(out).wf(),
            old(out).root() == 0,
            use_self ==> has_ranks(self.graph(), rank),
            !use_self ==> has_ranks(b.graph(), brank),
            output_inv(old(out).graph(), pref, self.graph(), self.root(), b.graph(), b.root(), bound),
            o < old(out).graph().len(),
            n < self.graph().len(),
            q < b.graph().len(),
            walk(self.graph(), self.root(), pref[o as int]) == Some(n as int),
            leads_to(b.graph(), b.root(), pref[o as int], q as int),
            pref[o as int].len() + walk_measure(use_self, rank, brank, n as int, q as int) <= bound,
        ensures
            final(out).wf(),
            final(out).root() == 0,
            output_inv(final(out).graph(), pref2@, self.graph(), self.root(), b.graph(), b.root(), bound),
            extends(old(out).graph(), final(out).graph()),
            pref2@.len() >= pref.len(),
            forall|i: int| 0 <= i < pref.len() ==> #[trigger] pref2@[i] == pref[i],
            forall|w: Seq<char>|
                w.len() > 0 && accepts(self.graph(), n as int, w) && #[trigger] accepts_wild(b.graph(), q as int, w)
                    ==> accepts(final(out).graph(), o as int, w),
        decreases walk_measure(use_self, rank, brank, n as int, q as int), 1nat,
    {
        let ghost sg = self.graph();
        let ghost bg = b.graph();
        let ghost g0 = out.graph();
        let qcount = b.edge_count(q);
        let mut qi: usize = 0;
        let ghost mut pr = pref;
        while qi < qcount
            invariant
                self.wf(),
                b.wf(),
                out.wf(),
                out.root() == 0,
                sg == self.graph(),
                bg == b.graph(),
                use_self ==> has_ranks(sg, rank),
                !use_self ==> has_ranks(bg, brank),
                output_inv(out.graph(), pr, sg, self.root(), bg, b.root(), bound),
                o < g0.len(),
                pref.len() == g0.len(),
                n < sg.len(),
                q < bg.len(),
                qcount == bg[q as int].edges.len(),
                qi <= qcount,
                walk(sg, self.root(), pref[o as int]) == Some(n as int),
                leads_to(bg, b.root(), pref[o as int], q as int),
                pref[o as int].len() + walk_measure(use_self, rank, brank, n as int, q as int) <= bound,
                extends(g0, out.graph()),
                pr.len() >= pref.len(),
                forall|i: int| 0 <= i < pref.len() ==> #[trigger] pr[i] == pref[i],
                forall|j: int, w: Seq<char>|
                    0 <= j < qi && w.len() > 0 && accepts(sg, n as int, w) && (w[0] == bg[q as int].edges[j].0
                        || bg[q as int].edges[j].0 == '*') && #[trigger] accepts_wild(
                        bg,
                        bg[q as int].edges[j].1,
                        w.drop_first(),
                    ) ==> accepts(out.graph(), o as int, w),
            decreases qcount - qi,
        {
            let (qc, qt) = b.edge_at(q, qi);
            let ghost g1 = out.graph();
            proof {
                lemma_label_at(bg[q as int].edges, qc, qi as int, 0);
                assert(pr[o as int] == pref[o as int]);
            }
            let p2 = self.intersect_edge(b, out, o, n, q, qc, qt, Ghost(rank), Ghost(brank), Ghost(use_self), Ghost(bound), Ghost(pr));
            proof {
                assert forall|j: int, w: Seq<char>|
                    0 <= j < qi + 1 && w.len() > 0 && accepts(sg, n as int, w) && (w[0] == bg[q as int].edges[j].0
                        || bg[q as int].edges[j].0 == '*') && #[trigger] accepts_wild(
                        bg,
                        bg[q as int].edges[j].1,
                        w.drop_first(),
                    ) implies accepts(out.graph(), o as int, w) by {
                    if j < qi {
                        lemma_accepts_mono(g1, out.graph(), o as int, w);
                    }
                }
                lemma_extends_trans(g0, g1, out.graph());
                pr = p2@;
            }
            qi = qi + 1;
        }
        proof {
            assert forall|w: Seq<char>|
                w.len() > 0 && accepts(sg, n as int, w) && #[trigger] accepts_wild(bg, q as int, w)
                    implies accepts(out.graph(), o as int, w) by {
                let es = bg[q as int].edges;
                let c = w[0];
                let rest = w.drop_first();
                if (match label_target(es, c) {
                    Some(t) => accepts_wild(bg, t, rest),
                    None => false,
                }) {
                    let j = choose|j: int| 0 <= j < es.len() && es[j].0 == c;
                    lemma_label_at(es, c, j, 0);
                    assert(accepts_wild(bg, es[j].1, rest));
                } else {
                    assert(label_target(es, '*') is Some);
                    let j = choose|j: int| 0 <= j < es.len() && es[j].0 == '*';
                    lemma_label_at(es, '*', j, 0);
                    assert(accepts_wild(bg, es[j].1, rest));
                }
            }
        }
        Ghost(pr)
    }

    /// Follows the edge of `b` from `q` labelled `qc` to `qt` against each
    /// edge of this set from `n` that it matches.
    fn intersect_edge(
        &self,
        b: &TokenSet,
        out: &mut TokenSet,
        o: usize,
        n: usize,
        q: usize,
        qc: char,
        qt: usize,
        Ghost(rank): Ghost<Seq<nat>>,
        Ghost(brank): Ghost<Seq<nat>>,
        Ghost(use_self): Ghost<bool>,
        Ghost(bound): Ghost<int>,
        Ghost(pref): Ghost<Seq<Seq<char>>>,
    ) -> (pref2: Ghost<Seq<Seq<char>>>)
        requires
            self.wf(),
            b.wf(),
            old(out).wf(),
            old(out).root() == 0,
            use_self ==> has_ranks(self.graph(), rank),
            !use_self ==> has_ranks(b.graph(), brank),
            output_inv(old(out).graph(), pref, self.graph(), self.root(), b.graph(), b.root(), bound),
            o < old(out).graph().len(),
            n < self.graph().len(),
            q < b.graph().len(),
            label_target(b.graph()[q as int].edges, qc) == Some(qt as int),
            walk(self.graph(), self.root(), pref[o as int]) == Some(n as int),
            leads_to(b.graph(), b.root(), pref[o as int], q as int),
            pref[o as int].len() + walk_measure(use_self, rank, brank, n as int, q as int) <= bound,
        ensures
            final(out).wf(),
            final(out).root() == 0,
            output_inv(final(out).graph(), pref2@, self.graph(), self.root(), b.graph(), b.root(), bound),
            extends(old(out).graph(), final(out).graph()),
            pref2@.len() >= pref.len(),
            forall|i: int| 0 <= i < pref.len() ==> #[trigger] pref2@[i] == pref[i],
            forall|w: Seq<char>|
                w.len() > 0 && accepts(self.graph(), n as int, w) && (w[0] == qc || qc == '*')
                    && #[trigger] accepts_wild(b.graph(), qt as int, w.drop_first()) ==> accepts(
                    final(out).graph(),
                    o as int,
                    w,
                ),
        decreases walk_measure(use_self, rank, brank, n as int, q as int), 0nat,
    {
        let ghost sg = self.graph();
        let ghost bg = b.graph();
        let ghost sr = self.root();
        let ghost br = b.root();
        let ghost g0 = out.graph();
        let ncount = self.edge_count(n);
        let mut ni: usize = 0;
        let ghost mut pr = pref;
        proof {
            lemma_target_in_graph(bg, q as int, qc);
        }
        while ni < ncount
            invariant
                self.wf(),
                b.wf(),
                out.wf(),
                out.root() == 0,
                sg == self.graph(),
                bg == b.graph(),
                sr == self.root(),
                br == b.root(),
                use_self ==> has_ranks(sg, rank),
                !use_self ==> has_ranks(bg, brank),
                output_inv(out.graph(), pr, sg, sr, bg, br, bound),
                o < g0.len(),
                pref.len() == g0.len(),
                n < sg.len(),
                q < bg.len(),
                qt < bg.len(),
                label_target(bg[q as int].edges, qc) == Some(qt as int),
                ncount == sg[n as int].edges.len(),
                ni <= ncount,
                walk(sg, sr, pref[o as int]) == Some(n as int),
                leads_to(bg, br, pref[o as int], q as int),
                pref[o as int].len() + walk_measure(use_self, rank, brank, n as int, q as int) <= bound,
                extends(g0, out.graph()),
                pr.len() >= pref.len(),
                forall|i: int| 0 <= i < pref.len() ==> #[trigger] pr[i] == pref[i],
                forall|j: int, v: Seq<char>|
                    0 <= j < ni && (sg[n as int].edges[j].0 == qc || qc == '*') && #[trigger] accepts(
                        sg,
                        sg[n as int].edges[j].1,
                        v,
                    ) && #[trigger] accepts_wild(bg, qt as int, v) ==> accepts(
                        out.graph(),
                        o as int,
                        seq![sg[n as int].edges[j].0] + v,
                    ),
            decreases ncount - ni,
        {
            let (nc, nt) = self.edge_at(n, ni);
            let ghost g1 = out.graph();
            let ghost pr1 = pr;
            proof {
                assert(graph_wf(sg));
                lemma_label_at(sg[n as int].edges, nc, ni as int, 0);
                assert(walk_measure(use_self, rank, brank, nt as int, qt as int) < walk_measure(
                    use_self,
                    rank,
                    brank,
                    n as int,
                    q as int,
                )) by {
                    if !use_self {
                        let es = bg[q as int].edges;
                        let qi = choose|i: int| 0 <= i < es.len() && es[i].0 == qc;
                        lemma_label_at(es, qc, qi, 0);
                        assert(es[qi] == (qc, qt as int));
                    }
                }
                assert(pr[o as int] == pref[o as int]);
            }
            if nc == qc || qc == '*' {
                let final_ = self.node_final(nt) && b.node_final(qt);
                let found = out.get_edge(o, nc);
                let next = match found {
                    Some(x) => x,
                    None => {
                        proof {
                            lemma_walk_push(sg, sr, pr[o as int], nc);
                            lemma_output_add(g1, pr, sg, sr, bg, br, bound, o as int, nc);
                        }
                        let x = out.add_node(false);
                        out.set_edge(o, nc, x);
                        proof {
                            pr = pr.push(pr[o as int].push(nc));
                        }
                        x
                    },
                };
                let ghost g2 = out.graph();
                proof {
                    if found is Some {
                        let es = g1[o as int].edges;
                        let i = choose|i: int| 0 <= i < es.len() && es[i].0 == nc;
                        lemma_label_at(es, nc, i, 0);
                    }
                    assert(label_target(g2[o as int].edges, nc) == Some(next as int));
                    assert(pr[next as int] == pref[o as int].push(nc)) by {
                        let es = g2[o as int].edges;
                        let i = choose|i: int| 0 <= i < es.len() && es[i].0 == nc;
                        lemma_label_at(es, nc, i, 0);
                    }
                    lemma_walk_push(sg, sr, pref[o as int], nc);
                    assert forall|v: Seq<char>| #[trigger] accepts_wild(bg, qt as int, v) implies accepts_wild(
                        bg,
                        br,
                        pref[o as int].push(nc) + v,
                    ) by {
                        let cv = seq![nc] + v;
                        assert(cv[0] == nc);
                        assert(cv.drop_first() =~= v);
                        assert(accepts_wild(bg, q as int, cv));
                        assert(pref[o as int] + cv =~= pref[o as int].push(nc) + v);
                    }
                }
                let f = out.node_final(next) || final_;
                proof {
                    if final_ {
                        lemma_walk_accepts(sg, sr, pr[next as int], Seq::empty());
                        assert(accepts_wild(bg, qt as int, Seq::<char>::empty()));
                        assert(accepts_wild(bg, br, pr[next as int] + Seq::<char>::empty()));
                        assert(pr[next as int] + Seq::<char>::empty() =~= pr[next as int]);
                    }
                    lemma_output_final(g2, pr, sg, sr, bg, br, bound, next as int, f);
                }
                out.set_final(next, f);
                let ghost g3 = out.graph();
                proof {
                    lemma_extends_trans(g1, g2, g3);
                }
                let p3 = self.intersect_from(b, out, next, nt, qt, Ghost(rank), Ghost(brank), Ghost(use_self), Ghost(bound), Ghost(pr));
                let ghost g4 = out.graph();
                proof {
                    lemma_extends_trans(g1, g3, g4);
                    assert forall|j: int, v: Seq<char>|
                        0 <= j < ni + 1 && (sg[n as int].edges[j].0 == qc || qc == '*') && #[trigger] accepts(
                            sg,
                            sg[n as int].edges[j].1,
                            v,
                        ) && #[trigger] accepts_wild(bg, qt as int, v) implies accepts(
                        g4,
                        o as int,
                        seq![sg[n as int].edges[j].0] + v,
                    ) by {
                        let w = seq![sg[n as int].edges[j].0] + v;
                        assert(w[0] == sg[n as int].edges[j].0);
                        assert(w.drop_first() =~= v);
                        if j < ni {
                            lemma_accepts_mono(g1, g4, o as int, w);
                        } else {
                            assert(label_target(g4[o as int].edges, nc) == Some(next as int));
                            assert(sg[n as int].edges[j].0 == nc);
                            assert(sg[n as int].edges[j].1 == nt);
                            if v.len() > 0 {
                                assert(accepts(g4, next as int, v));
                            } else {
                                assert(g3[next as int].is_final);
                                assert(g4[next as int].is_final);
                            }
                            assert(0 <= o < g4.len());
                            assert(0 <= next < g4.len());
                            assert(accepts(g4, next as int, v));
                            assert(accepts(g4, next as int, w.drop_first()));
                            assert(w.len() > 0);
                            assert(accepts(g4, o as int, w));
                        }
                    }
                    assert forall|i: int| 0 <= i < pref.len() implies #[trigger] p3@[i] == pref[i] by {
                        assert(p3@[i] == pr[i]);
                    }
                    pr = p3@;
                }
            } else {
                proof {
                    assert forall|j: int, v: Seq<char>|
                        0 <= j < ni + 1 && (sg[n as int].edges[j].0 == qc || qc == '*') && #[trigger] accepts(
                            sg,
                            sg[n as int].edges[j].1,
                            v,
                        ) && #[trigger] accepts_wild(bg, qt as int, v) implies accepts(
                        out.graph(),
                        o as int,
                        seq![sg[n as int].edges[j].0] + v,
                    ) by {
                    }
                }
            }
            ni = ni + 1;
        }
        proof {
            assert forall|w: Seq<char>|
                w.len() > 0 && accepts(sg, n as int, w) && (w[0] == qc || qc == '*')
                    && #[trigger] accepts_wild(bg, qt as int, w.drop_first()) implies accepts(
                    out.graph(),
                    o as int,
                    w,
                ) by {
                let es = sg[n as int].edges;
                let j = choose|j: int| 0 <= j < es.len() && es[j].0 == w[0];
                lemma_label_at(es, w[0], j, 0);
                assert(accepts(sg, es[j].1, w.drop_first()));
                assert(seq![es[j].0] + w.drop_first() =~= w);
            }
        }
        Ghost(pr)
    }
}

} // verus!
