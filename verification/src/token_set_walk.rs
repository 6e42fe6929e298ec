use vstd::prelude::*;
use crate::text::{string_from_range, strings_view};
use crate::token_set::{TokenSet, NodeModel, label_target, graph_wf, accepts, has_ranks, lemma_label_at, walk};

verus! {

impl TokenSet {
    /// The words of the set, each once, in no particular order.
    ///
    /// The set must hold no wildcards, and no walk through it may come back
    /// to a node, so that it holds finitely many words.
    pub fn to_array(&self) -> (r: Vec<String>)
        requires
            self.wf(),
            self.is_acyclic(),
            self.has_no_wildcards(),
        ensures
            forall|w: Seq<char>| strings_view(r@).contains(w) <==> #[trigger] self.words().contains(w),
            strings_view(r@).no_duplicates(),
    {
        let ghost rank = choose|rank: Seq<nat>| has_ranks(self.graph(), rank);
        let mut out: Vec<String> = Vec::new();
        let mut prefix: Vec<char> = Vec::new();
        let root = self.root_index();
        proof {
            assert(walk(self.graph(), self.root(), Seq::<char>::empty()) == Some(self.root()));
        }
        self.collect(root, &mut prefix, &mut out, Ghost(rank));
        proof {
            let g = self.graph();
            let v = strings_view(out@);
            assert forall|w: Seq<char>| v.contains(w) <==> #[trigger] self.words().contains(w) by {
                if v.contains(w) {
                    let i = choose|i: int| 0 <= i < v.len() && v[i] == w;
                    assert(out@[i]@.skip(0) =~= w);
                }
                if self.words().contains(w) {
                    assert(accepts(g, self.root(), w));
                    let i = choose|i: int| 0 <= i < out@.len() && out@[i]@ == Seq::<char>::empty() + w;
                    assert(Seq::<char>::empty() + w =~= w);
                    assert(v[i] == w);
                }
            }
            assert forall|i: int, j: int| 0 <= i < j < v.len() implies v[i] != v[j] by {
                assert(v[i] == out@[i]@);
                assert(v[j] == out@[j]@);
            }
        }
        out
    }

    /// Appends to `out` the words read from node `n`, each after `prefix`.
    #[verifier::rlimit(80)]
    fn collect(&self, n: usize, prefix: &mut Vec<char>, out: &mut Vec<String>, Ghost(rank): Ghost<Seq<nat>>)
        requires
            self.wf(),
            has_ranks(self.graph(), rank),
            n < self.graph().len(),
        ensures
            final(prefix)@ == old(prefix)@,
            final(out)@.len() >= old(out)@.len(),
            forall|i: int| 0 <= i < old(out)@.len() ==> #[trigger] final(out)@[i] == old(out)@[i],
            forall|i: int|
                old(out)@.len() <= i < final(out)@.len() ==> {
                    let e = #[trigger] final(out)@[i]@;
                    &&& e.len() >= old(prefix)@.len()
                    &&& e.take(old(prefix)@.len() as int) == old(prefix)@
                    &&& accepts(self.graph(), n as int, e.skip(old(prefix)@.len() as int))
                },
            forall|w: Seq<char>|
                #[trigger] accepts(self.graph(), n as int, w) ==> exists|i: int|
                    old(out)@.len() <= i < final(out)@.len() && #[trigger] final(out)@[i]@ == old(prefix)@
                        + w,
            forall|i: int, j: int|
                old(out)@.len() <= i < j < final(out)@.len() ==> #[trigger] final(out)@[i]@
                    != #[trigger] final(out)@[j]@,
        decreases rank[n as int],
    {
        let ghost g = self.graph();
        let ghost p0 = prefix@;
        let ghost plen = p0.len() as int;
        let ghost out0 = out@;
        let ghost l0 = out@.len() as int;
        let is_final = self.node_final(n);
        if is_final {
            let s = string_from_range(prefix, 0, prefix.len());
            out.push(s);
            proof {
                assert(p0.subrange(0, plen) =~= p0);
                assert(p0.take(plen) =~= p0);
                assert(p0.skip(plen) =~= Seq::<char>::empty());
            }
        }
        let ghost mid = out@.len() as int;
        let ghost mut origin: Seq<int> = Seq::empty();
        let edge_count = self.edge_count(n);
        let mut i: usize = 0;
        while i < edge_count
            invariant
                self.wf(),
                has_ranks(g, rank),
                g == self.graph(),
                n < g.len(),
                edge_count == g[n as int].edges.len(),
                i <= edge_count,
                prefix@ == p0,
                plen == p0.len(),
                l0 == out0.len(),
                mid == l0 + (if g[n as int].is_final { 1int } else { 0int }),
                out@.len() >= mid,
                origin.len() == out@.len() - mid,
                forall|k: int| 0 <= k < l0 ==> #[trigger] out@[k] == out0[k],
                g[n as int].is_final ==> out@[l0]@ == p0,
                forall|k: int|
                    l0 <= k < out@.len() ==> {
                        let e = #[trigger] out@[k]@;
                        &&& e.len() >= plen
                        &&& e.take(plen) == p0
                        &&& accepts(g, n as int, e.skip(plen))
                    },
                forall|k: int|
                    mid <= k < out@.len() ==> {
                        let e = #[trigger] out@[k]@;
                        &&& e.len() > plen
                        &&& 0 <= origin[k - mid] < i
                        &&& e[plen] == g[n as int].edges[origin[k - mid]].0
                    },
                forall|a: int, b: int| l0 <= a < b < out@.len() ==> #[trigger] out@[a]@ != #[trigger] out@[b]@,
                forall|j: int, w: Seq<char>|
                    0 <= j < i && #[trigger] accepts(g, g[n as int].edges[j].1, w) ==> exists|k: int|
                        mid <= k < out@.len() && #[trigger] out@[k]@ == p0.push(g[n as int].edges[j].0) + w,
            decreases edge_count - i,
        {
            let (c, t) = self.edge_at(n, i);
            let ghost out1 = out@;
            let ghost l1 = out@.len() as int;
            proof {
                assert(g[n as int].edges[i as int] == (c, t as int));
                assert(graph_wf(g));
                assert(rank[t as int] < rank[n as int]);
                lemma_label_at(g[n as int].edges, c, i as int, 0);
            }
            prefix.push(c);
            self.collect(t, prefix, out, Ghost(rank));
            prefix.pop();
            proof {
                let p1 = p0.push(c);
                assert(prefix@ =~= p0);
                let new_origin = origin + Seq::new((out@.len() - l1) as nat, |x: int| i as int);
                assert forall|k: int| l0 <= k < out@.len() implies {
                    let e = #[trigger] out@[k]@;
                    &&& e.len() >= plen
                    &&& e.take(plen) == p0
                    &&& accepts(g, n as int, e.skip(plen))
                } by {
                    if k >= l1 {
                        let e = out@[k]@;
                        assert(e.take(plen + 1) == p1);
                        assert(e.take(plen) =~= p1.take(plen));
                        assert(p1.take(plen) =~= p0);
                        assert(e.skip(plen).drop_first() =~= e.skip(plen + 1));
                        assert(e.skip(plen)[0] == e[plen]);
                        assert(e[plen] == e.take(plen + 1)[plen]);
                        assert(p1[plen] == c);
                    } else {
                        assert(out@[k] == out1[k]);
                    }
                }
                assert forall|k: int| mid <= k < out@.len() implies {
                    let e = #[trigger] out@[k]@;
                    &&& e.len() > plen
                    &&& 0 <= new_origin[k - mid] < i + 1
                    &&& e[plen] == g[n as int].edges[new_origin[k - mid]].0
                } by {
                    if k >= l1 {
                        let e = out@[k]@;
                        assert(e.take(plen + 1) == p1);
                        assert(e[plen] == e.take(plen + 1)[plen]);
                        assert(new_origin[k - mid] == i);
                    } else {
                        assert(out@[k] == out1[k]);
                        assert(new_origin[k - mid] == origin[k - mid]);
                    }
                }
                assert forall|a: int, b: int| l0 <= a < b < out@.len() implies #[trigger] out@[a]@
                    != #[trigger] out@[b]@ by {
                    if a < l1 && b >= l1 {
                        let ea = out@[a]@;
                        let eb = out@[b]@;
                        assert(out@[a] == out1[a]);
                        assert(eb.take(plen + 1) == p1);
                        assert(eb[plen] == eb.take(plen + 1)[plen]);
                        if a < mid {
                            assert(ea == p0);
                        } else {
                            let j = origin[a - mid];
                            assert(ea[plen] == g[n as int].edges[j].0);
                            assert(j != i);
                        }
                    } else if a < l1 {
                        assert(out@[a] == out1[a]);
                        assert(out@[b] == out1[b]);
                    }
                }
                assert forall|j: int, w: Seq<char>|
                    0 <= j < i + 1 && #[trigger] accepts(g, g[n as int].edges[j].1, w) implies exists|k: int|
                        mid <= k < out@.len() && #[trigger] out@[k]@ == p0.push(g[n as int].edges[j].0)
                            + w by {
                    if j == i {
                        let k = choose|k: int| l1 <= k < out@.len() && #[trigger] out@[k]@ == p1 + w;
                        assert(out@[k]@ == p0.push(g[n as int].edges[j].0) + w);
                    } else {
                        let k = choose|k: int|
                            mid <= k < out1.len() && #[trigger] out1[k]@ == p0.push(g[n as int].edges[j].0)
                                + w;
                        assert(out@[k] == out1[k]);
                    }
                }
                origin = new_origin;
            }
            i = i + 1;
        }
        proof {
            assert forall|w: Seq<char>| #[trigger] accepts(g, n as int, w) implies exists|k: int|
                l0 <= k < out@.len() && #[trigger] out@[k]@ == p0 + w by {
                if w.len() == 0 {
                    assert(p0 + w =~= p0);
                } else {
                    let es = g[n as int].edges;
                    let j = choose|j: int| 0 <= j < es.len() && es[j].0 == w[0];
                    lemma_label_at(es, w[0], j, 0);
                    assert(accepts(g, es[j].1, w.drop_first()));
                    let k = choose|k: int|
                        mid <= k < out@.len() && #[trigger] out@[k]@ == p0.push(es[j].0) + w.drop_first();
                    assert(p0.push(w[0]) + w.drop_first() =~= p0 + w);
                }
            }
        }
    }
}

} // verus!
