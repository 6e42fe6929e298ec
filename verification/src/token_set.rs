use vstd::prelude::*;
use crate::query::Boost;

verus! {

// ---------------------------------------------------------------------------
// The graph and the words it accepts.
// ---------------------------------------------------------------------------

/// One state: whether a word may end here, and the labelled edges leaving it.
pub struct NodeModel {
    pub is_final: bool,
    pub edges: Seq<(char, int)>,
}

/// Whether `w` can be read from node `n`, edge labels taken literally.
pub open spec fn accepts(g: Seq<NodeModel>, n: int, w: Seq<char>) -> bool
    decreases w.len(),
{
    if !(0 <= n < g.len()) {
        false
    } else if w.len() == 0 {
        g[n].is_final
    } else {
        match label_target(g[n].edges, w[0]) {
            Some(t) => accepts(g, t, w.drop_first()),
            None => false,
        }
    }
}

/// Whether `w` can be read from node `n` where an edge labelled `*` reads any character.
pub open spec fn accepts_wild(g: Seq<NodeModel>, n: int, w: Seq<char>) -> bool
    decreases w.len(),
{
    if !(0 <= n < g.len()) {
        false
    } else if w.len() == 0 {
        g[n].is_final
    } else {
        (match label_target(g[n].edges, w[0]) {
            Some(t) => accepts_wild(g, t, w.drop_first()),
            None => false,
        }) || (match label_target(g[n].edges, '*') {
            Some(t) => accepts_wild(g, t, w.drop_first()),
            None => false,
        })
    }
}

/// No label leaves a node twice.
pub open spec fn labels_distinct(edges: Seq<(char, int)>) -> bool {
    forall|i: int, j: int| 0 <= i < j < edges.len() ==> edges[i].0 != edges[j].0
}

/// Every edge leads to a node of the graph, and labels are distinct per node.
pub open spec fn graph_wf(g: Seq<NodeModel>) -> bool {
    forall|n: int|
        0 <= n < g.len() ==> labels_distinct(#[trigger] g[n].edges) && forall|i: int|
            0 <= i < g[n].edges.len() ==> 0 <= (#[trigger] g[n].edges[i]).1 < g.len()
}

/// `rank` gives each node a number that every edge strictly lowers.
pub open spec fn has_ranks(g: Seq<NodeModel>, rank: Seq<nat>) -> bool {
    &&& rank.len() == g.len()
    &&& forall|n: int, i: int|
        0 <= n < g.len() && 0 <= i < g[n].edges.len() ==> rank[(#[trigger] g[n].edges[i]).1] < rank[n]
}

/// Where reading `w` from node `n`, edge labels taken literally, leads.
pub open spec fn walk(g: Seq<NodeModel>, n: int, w: Seq<char>) -> Option<int>
    decreases w.len(),
{
    if w.len() == 0 {
        Some(n)
    } else {
        match walk(g, n, w.drop_last()) {
            Some(m) => label_target(g[m].edges, w.last()),
            None => None,
        }
    }
}

/// No node of `g` has an edge labelled `*`.
pub open spec fn star_free(g: Seq<NodeModel>) -> bool {
    forall|n: int| 0 <= n < g.len() ==> #[trigger] label_target(g[n].edges, '*') is None
}

/// Nodes `a` and `b` read the same words.
pub open spec fn same_words(g: Seq<NodeModel>, a: int, b: int) -> bool {
    forall|v: Seq<char>| #[trigger] accepts(g, a, v) == accepts(g, b, v)
}

/// Nodes `a` and `b` agree in finality, and each label leads from both to
/// the same node.
pub open spec fn same_state(g: Seq<NodeModel>, a: int, b: int) -> bool {
    &&& g[a].is_final == g[b].is_final
    &&& forall|c: char| #[trigger] label_target(g[a].edges, c) == label_target(g[b].edges, c)
}

/// The target of the edge labelled `c`, if there is one.
pub open spec fn label_target(edges: Seq<(char, int)>, c: char) -> Option<int> {
    if exists|i: int| 0 <= i < edges.len() && edges[i].0 == c {
        let i = choose|i: int| 0 <= i < edges.len() && edges[i].0 == c;
        Some(edges[i].1)
    } else {
        None
    }
}

/// The edges with the one labelled `c` pointing at `m`, added at the end if new.
pub open spec fn set_label(edges: Seq<(char, int)>, c: char, m: int) -> Seq<(char, int)> {
    if exists|i: int| 0 <= i < edges.len() && edges[i].0 == c {
        let i = choose|i: int| 0 <= i < edges.len() && edges[i].0 == c;
        edges.update(i, (c, m))
    } else {
        edges.push((c, m))
    }
}

/// A query clause as a set is built from it: its term, and the edit
/// distance allowed, if any. The other fields travel with it.
pub struct Clause {
    pub term: String,
    pub edit_distance: Option<usize>,
    pub boost: Option<Boost>,
    pub presence: Option<u8>,
    pub wildcard: Option<u8>,
    pub use_pipeline: Option<bool>,
    pub fields: Option<Vec<String>>,
}

// ---------------------------------------------------------------------------
// The executable structure.
// ---------------------------------------------------------------------------

#[derive(Debug, Clone)]
struct Node {
    final_: bool,
    edges: Vec<(char, usize)>,
}

/// A set of words held as a graph of states with labelled edges.
#[derive(Debug, Clone)]
pub struct TokenSet {
    nodes: Vec<Node>,
    root: usize,
}

spec fn node_model(n: Node) -> NodeModel {
    NodeModel { is_final: n.final_, edges: n.edges@.map_values(|e: (char, usize)| (e.0, e.1 as int)) }
}

impl TokenSet {
    pub closed spec fn graph(&self) -> Seq<NodeModel> {
        self.nodes@.map_values(|n: Node| node_model(n))
    }

    pub closed spec fn root(&self) -> int {
        self.root as int
    }

    pub open spec fn wf(&self) -> bool {
        &&& graph_wf(self.graph())
        &&& 0 <= self.root() < self.graph().len()
    }

    /// Whether every edge leads to a node of strictly lower rank, so that no
    /// walk through the graph returns to a node.
    pub open spec fn is_acyclic(&self) -> bool {
        exists|rank: Seq<nat>| has_ranks(self.graph(), rank)
    }

    /// The words of the set, edge labels read literally.
    pub open spec fn words(&self) -> Set<Seq<char>> {
        Set::new(|w: Seq<char>| accepts(self.graph(), self.root(), w))
    }

    /// Two nodes that words lead to from the root read different words unless
    /// they are one node: no node could be merged into another.
    pub open spec fn is_minimal(&self) -> bool {
        forall|u1: Seq<char>, u2: Seq<char>|
            #![trigger walk(self.graph(), self.root(), u1), walk(self.graph(), self.root(), u2)]
            walk(self.graph(), self.root(), u1) is Some && walk(self.graph(), self.root(), u2) is Some
                && same_words(
                self.graph(),
                walk(self.graph(), self.root(), u1)->0,
                walk(self.graph(), self.root(), u2)->0,
            ) ==> walk(self.graph(), self.root(), u1) == walk(self.graph(), self.root(), u2)
    }

    /// No node that a word leads to from the root has an edge labelled `*`:
    /// the set holds no wildcards.
    pub open spec fn has_no_wildcards(&self) -> bool {
        forall|u: Seq<char>|
            #[trigger] walk(self.graph(), self.root(), u) is Some ==> label_target(
                self.graph()[walk(self.graph(), self.root(), u)->0].edges,
                '*',
            ) is None
    }

    /// Whether the set matches `w`, an edge labelled `*` reading any character.
    pub open spec fn matches_word(&self, w: Seq<char>) -> bool {
        accepts_wild(self.graph(), self.root(), w)
    }

    /// An empty set: one state, not final, without edges.
    pub fn new() -> (r: Self)
        ensures
            r.wf(),
            r.graph() == seq![NodeModel { is_final: false, edges: Seq::empty() }],
            r.root() == 0,
    {
        let mut nodes: Vec<Node> = Vec::new();
        nodes.push(Node { final_: false, edges: Vec::new() });
        let r = TokenSet { nodes, root: 0 };
        proof {
            assert(node_model(r.nodes@[0]).edges =~= Seq::<(char, int)>::empty());
            assert(r.graph() =~= seq![NodeModel { is_final: false, edges: Seq::empty() }]);
        }
        r
    }

    pub(crate) fn add_node(&mut self, is_final: bool) -> (r: usize)
        requires
            old(self).wf(),
        ensures
            final(self).wf(),
            final(self).root() == old(self).root(),
            r == old(self).graph().len(),
            final(self).graph() == old(self).graph().push(NodeModel { is_final, edges: Seq::empty() }),
    {
        let r = self.nodes.len();
        let ghost g0 = self.graph();
        self.nodes.push(Node { final_: is_final, edges: Vec::new() });
        proof {
            assert(node_model(self.nodes@[r as int]).edges =~= Seq::<(char, int)>::empty());
            assert(self.graph() =~= g0.push(NodeModel { is_final, edges: Seq::empty() }));
        }
        r
    }

    /// Whether the empty word is in the set: the root is final.
    pub fn is_final(&self) -> (r: bool)
        requires
            self.wf(),
        ensures
            r == self.graph()[self.root()].is_final,
    {
        self.nodes[self.root].final_
    }

    /// The labels of the edges that leave the root, in the order they were added.
    pub fn get_edges(&self) -> (r: Vec<char>)
        requires
            self.wf(),
        ensures
            r@ == self.graph()[self.root()].edges.map_values(|e: (char, int)| e.0),
    {
        let edges = &self.nodes[self.root].edges;
        let ghost es = self.graph()[self.root()].edges;
        let mut r: Vec<char> = Vec::new();
        let mut i: usize = 0;
        while i < edges.len()
            invariant
                i <= edges@.len(),
                es == edges@.map_values(|e: (char, usize)| (e.0, e.1 as int)),
                r@ == es.take(i as int).map_values(|e: (char, int)| e.0),
            decreases edges.len() - i,
        {
            r.push(edges[i].0);
            i = i + 1;
            proof {
                assert(r@ =~= es.take(i as int).map_values(|e: (char, int)| e.0));
            }
        }
        proof {
            assert(es.take(es.len() as int) =~= es);
        }
        r
    }

    pub(crate) fn root_index(&self) -> (r: usize)
        ensures
            r == self.root(),
    {
        self.root
    }

    pub(crate) fn edge_count(&self, n: usize) -> (r: usize)
        requires
            n < self.graph().len(),
        ensures
            r == self.graph()[n as int].edges.len(),
    {
        self.nodes[n].edges.len()
    }

    pub(crate) fn edge_at(&self, n: usize, i: usize) -> (r: (char, usize))
        requires
            n < self.graph().len(),
            i < self.graph()[n as int].edges.len(),
        ensures
            self.graph()[n as int].edges[i as int] == (r.0, r.1 as int),
    {
        self.nodes[n].edges[i]
    }

    /// Whether nodes `a` and `b` agree in finality and each label leads from
    /// both to the same node, whatever the order of their edges.
    pub(crate) fn same_node(&self, a: usize, b: usize) -> (r: bool)
        requires
            self.wf(),
            a < self.graph().len(),
            b < self.graph().len(),
        ensures
            r == same_state(self.graph(), a as int, b as int),
    {
        if self.nodes[a].final_ != self.nodes[b].final_ {
            return false;
        }
        if !self.edges_within(a, b) {
            return false;
        }
        self.edges_within(b, a)
    }

    /// Whether every edge of `a` is an edge of `b`, to the same node.
    fn edges_within(&self, a: usize, b: usize) -> (r: bool)
        requires
            self.wf(),
            a < self.graph().len(),
            b < self.graph().len(),
        ensures
            r == forall|c: char|
                (#[trigger] label_target(self.graph()[a as int].edges, c)) is Some ==> label_target(
                    self.graph()[b as int].edges,
                    c,
                ) == label_target(self.graph()[a as int].edges, c),
    {
        let ghost ea = self.graph()[a as int].edges;
        let ghost eb = self.graph()[b as int].edges;
        let n = self.nodes[a].edges.len();
        let mut i: usize = 0;
        while i < n
            invariant
                self.wf(),
                a < self.graph().len(),
                b < self.graph().len(),
                ea == self.graph()[a as int].edges,
                eb == self.graph()[b as int].edges,
                n == ea.len(),
                i <= n,
                labels_distinct(ea),
                forall|j: int| 0 <= j < i ==> label_target(eb, (#[trigger] ea[j]).0) == Some(ea[j].1),
            decreases n - i,
        {
            let (c, t) = self.edge_at(a, i);
            proof {
                lemma_label_at(ea, c, i as int, 0);
            }
            match self.get_edge(b, c) {
                Some(t2) => {
                    if t2 != t {
                        return false;
                    }
                },
                None => {
                    return false;
                },
            }
            i = i + 1;
        }
        proof {
            assert forall|c: char| (#[trigger] label_target(ea, c)) is Some implies label_target(eb, c)
                == label_target(ea, c) by {
                let j = choose|j: int| 0 <= j < ea.len() && ea[j].0 == c;
                lemma_label_at(ea, c, j, 0);
                assert(label_target(eb, ea[j].0) == Some(ea[j].1));
            }
        }
        true
    }

    pub(crate) fn node_final(&self, n: usize) -> (r: bool)
        requires
            n < self.graph().len(),
        ensures
            r == self.graph()[n as int].is_final,
    {
        self.nodes[n].final_
    }

    pub(crate) fn set_final(&mut self, n: usize, val: bool)
        requires
            old(self).wf(),
            n < old(self).graph().len(),
        ensures
            final(self).wf(),
            final(self).root() == old(self).root(),
            final(self).graph() == old(self).graph().update(
                n as int,
                NodeModel { is_final: val, ..old(self).graph()[n as int] },
            ),
    {
        let ghost g0 = self.graph();
        let mut node = self.nodes[n].clone_node();
        node.final_ = val;
        self.nodes.set(n, node);
        proof {
            assert(self.graph() =~= g0.update(n as int, NodeModel { is_final: val, ..g0[n as int] }));
        }
    }

    pub(crate) fn get_edge(&self, n: usize, c: char) -> (r: Option<usize>)
        requires
            self.wf(),
            n < self.graph().len(),
        ensures
            r matches Some(m) ==> label_target(self.graph()[n as int].edges, c) == Some(m as int),
            r is None ==> label_target(self.graph()[n as int].edges, c) is None,
    {
        let ghost es = self.graph()[n as int].edges;
        let edges = &self.nodes[n].edges;
        let mut i: usize = 0;
        while i < edges.len()
            invariant
                0 <= i <= edges@.len(),
                es == edges@.map_values(|e: (char, usize)| (e.0, e.1 as int)),
                es == self.graph()[n as int].edges,
                n < self.graph().len(),
                labels_distinct(es),
                forall|j: int| 0 <= j < i ==> es[j].0 != c,
            decreases edges.len() - i,
        {
            if edges[i].0 == c {
                proof {
                    assert(es[i as int] == (edges@[i as int].0, edges@[i as int].1 as int));
                    lemma_label_at(es, c, i as int, 0);
                }
                return Some(edges[i].1);
            }
            i = i + 1;
        }
        proof {
            lemma_label_absent(es, c, 0);
        }
        None
    }

    pub(crate) fn set_edge(&mut self, n: usize, c: char, m: usize)
        requires
            old(self).wf(),
            n < old(self).graph().len(),
            m < old(self).graph().len(),
        ensures
            final(self).wf(),
            final(self).root() == old(self).root(),
            final(self).graph() == old(self).graph().update(
                n as int,
                NodeModel { edges: set_label(old(self).graph()[n as int].edges, c, m as int), ..old(self).graph()[n as int] },
            ),
    {
        let ghost g0 = self.graph();
        let ghost es = g0[n as int].edges;
        let mut node = self.nodes[n].clone_node();
        proof {
            assert(self.graph()[n as int] == node_model(self.nodes@[n as int]));
        }
        let mut i: usize = 0;
        while i < node.edges.len()
            invariant
                0 <= i <= node.edges@.len(),
                es == node.edges@.map_values(|e: (char, usize)| (e.0, e.1 as int)),
                labels_distinct(es),
                es == g0[n as int].edges,
                g0 == self.graph(),
                g0 == old(self).graph(),
                graph_wf(g0),
                self.root == old(self).root,
                self.root() < g0.len(),
                n < self.nodes@.len(),
                n < g0.len(),
                m < g0.len(),
                node.final_ == g0[n as int].is_final,
                forall|j: int| 0 <= j < i ==> es[j].0 != c,
            decreases node.edges.len() - i,
        {
            if node.edges[i].0 == c {
                proof {
                    assert(es[i as int] == (node.edges@[i as int].0, node.edges@[i as int].1 as int));
                    lemma_label_at(es, c, i as int, m as int);
                }
                node.edges.set(i, (c, m));
                proof {
                    assert(node_model(node).edges =~= es.update(i as int, (c, m as int)));
                }
                let ghost nn = node;
                self.nodes.set(n, node);
                proof {
                    assert(self.graph() =~= g0.update(n as int, NodeModel { edges: set_label(es, c, m as int), ..g0[n as int] }));
                    lemma_set_label_wf(g0, n as int, c, m as int);
                }
                return;
            }
            i = i + 1;
        }
        proof {
            lemma_label_absent(es, c, m as int);
        }
        node.edges.push((c, m));
        proof {
            assert(node_model(node).edges =~= es.push((c, m as int)));
        }
        self.nodes.set(n, node);
        proof {
            assert(self.graph() =~= g0.update(n as int, NodeModel { edges: set_label(es, c, m as int), ..g0[n as int] }));
            lemma_set_label_wf(g0, n as int, c, m as int);
        }
    }
}

impl Node {
    fn clone_node(&self) -> (r: Node)
        ensures
            node_model(r) == node_model(*self),
    {
        let mut edges: Vec<(char, usize)> = Vec::new();
        let mut i: usize = 0;
        while i < self.edges.len()
            invariant
                0 <= i <= self.edges@.len(),
                edges@ == self.edges@.take(i as int),
            decreases self.edges.len() - i,
        {
            edges.push(self.edges[i]);
            i = i + 1;
            proof {
                assert(edges@ =~= self.edges@.take(i as int));
            }
        }
        proof {
            assert(self.edges@.take(self.edges@.len() as int) =~= self.edges@);
        }
        Node { final_: self.final_, edges }
    }
}

pub proof fn lemma_label_at(es: Seq<(char, int)>, c: char, i: int, m: int)
    requires
        labels_distinct(es),
        0 <= i < es.len(),
        es[i].0 == c,
    ensures
        label_target(es, c) == Some(es[i].1),
        set_label(es, c, m) == es.update(i, (c, m)),
{
    assert(exists|k: int| 0 <= k < es.len() && es[k].0 == c);
    let k = choose|k: int| 0 <= k < es.len() && es[k].0 == c;
    if k < i {
        assert(es[k].0 != es[i].0);
    } else if i < k {
        assert(es[i].0 != es[k].0);
    }
}

pub proof fn lemma_label_absent(es: Seq<(char, int)>, c: char, m: int)
    requires
        forall|j: int| 0 <= j < es.len() ==> es[j].0 != c,
    ensures
        label_target(es, c) is None,
        set_label(es, c, m) == es.push((c, m)),
{
}

/// Setting the edge labelled `c` changes the target of `c` only.
pub proof fn lemma_set_label_target(es: Seq<(char, int)>, c: char, m: int, d: char)
    requires
        labels_distinct(es),
    ensures
        label_target(set_label(es, c, m), d) == (if d == c { Some(m) } else { label_target(es, d) }),
        labels_distinct(set_label(es, c, m)),
{
    let es2 = set_label(es, c, m);
    if exists|i: int| 0 <= i < es.len() && es[i].0 == c {
        let k = choose|i: int| 0 <= i < es.len() && es[i].0 == c;
        lemma_label_at(es, c, k, m);
        assert(labels_distinct(es2)) by {
            assert forall|i: int, j: int| 0 <= i < j < es2.len() implies es2[i].0 != es2[j].0 by {
                assert(es2[i].0 == es[i].0);
                assert(es2[j].0 == es[j].0);
            }
        }
        assert(es2[k] == (c, m));
        lemma_label_at(es2, c, k, m);
        if d != c {
            if exists|i: int| 0 <= i < es.len() && es[i].0 == d {
                let j = choose|i: int| 0 <= i < es.len() && es[i].0 == d;
                lemma_label_at(es, d, j, 0);
                assert(es2[j] == es[j]);
                lemma_label_at(es2, d, j, 0);
            } else {
                assert forall|i: int| 0 <= i < es2.len() implies es2[i].0 != d by {
                    if i != k {
                        assert(es2[i] == es[i]);
                    }
                }
                lemma_label_absent(es2, d, 0);
            }
        }
    } else {
        lemma_label_absent(es, c, m);
        assert(labels_distinct(es2)) by {
            assert forall|i: int, j: int| 0 <= i < j < es2.len() implies es2[i].0 != es2[j].0 by {
                if j == es.len() {
                    assert(es2[j].0 == c);
                    assert(es2[i] == es[i]);
                } else {
                    assert(es2[i] == es[i]);
                    assert(es2[j] == es[j]);
                }
            }
        }
        assert(es2[es.len() as int] == (c, m));
        lemma_label_at(es2, c, es.len() as int, m);
        if d != c {
            if exists|i: int| 0 <= i < es.len() && es[i].0 == d {
                let j = choose|i: int| 0 <= i < es.len() && es[i].0 == d;
                lemma_label_at(es, d, j, 0);
                assert(es2[j] == es[j]);
                lemma_label_at(es2, d, j, 0);
            } else {
                assert forall|i: int| 0 <= i < es2.len() implies es2[i].0 != d by {
                    if i < es.len() {
                        assert(es2[i] == es[i]);
                    }
                }
                lemma_label_absent(es2, d, 0);
            }
        }
    }
}

pub proof fn lemma_set_label_wf(g: Seq<NodeModel>, n: int, c: char, m: int)
    requires
        graph_wf(g),
        0 <= n < g.len(),
        0 <= m < g.len(),
    ensures
        graph_wf(g.update(n, NodeModel { edges: set_label(g[n].edges, c, m), ..g[n] })),
{
    let es = g[n].edges;
    let es2 = set_label(es, c, m);
    let g2 = g.update(n, NodeModel { edges: es2, ..g[n] });
    assert(labels_distinct(es2)) by {
        assert(labels_distinct(es));
        if exists|i: int| 0 <= i < es.len() && es[i].0 == c {
            let k = choose|i: int| 0 <= i < es.len() && es[i].0 == c;
            assert forall|i: int, j: int| 0 <= i < j < es2.len() implies es2[i].0 != es2[j].0 by {
                assert(es2[i].0 == es[i].0);
                assert(es2[j].0 == es[j].0);
            }
        } else {
            assert forall|i: int, j: int| 0 <= i < j < es2.len() implies es2[i].0 != es2[j].0 by {
                if j == es.len() {
                    assert(es2[j].0 == c);
                    assert(es2[i] == es[i]);
                } else {
                    assert(es2[i] == es[i]);
                    assert(es2[j] == es[j]);
                }
            }
        }
    }
    assert forall|k: int| 0 <= k < g2.len() implies labels_distinct(#[trigger] g2[k].edges) && forall|i: int|
        0 <= i < g2[k].edges.len() ==> 0 <= (#[trigger] g2[k].edges[i]).1 < g2.len() by {
        if k == n {
            assert forall|i: int| 0 <= i < g2[k].edges.len() implies 0 <= (#[trigger] g2[k].edges[i]).1 < g2.len() by {
                if exists|i: int| 0 <= i < es.len() && es[i].0 == c {
                    let j = choose|i: int| 0 <= i < es.len() && es[i].0 == c;
                    if i != j {
                        assert(es2[i] == es[i]);
                    }
                } else {
                    if i < es.len() {
                        assert(es2[i] == es[i]);
                    }
                }
            }
        } else {
            assert(g2[k] == g[k]);
        }
    }
}

} // verus!
