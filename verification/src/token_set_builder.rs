use vstd::prelude::*;
use crate::text::{chars_of, strings_view};
use crate::token_set::{
    TokenSet, NodeModel, label_target, set_label, graph_wf, accepts, has_ranks, lemma_label_at,
    lemma_label_absent, lemma_set_label_target, lemma_set_label_wf, labels_distinct, same_state,
    same_words, walk, star_free,
};
use crate::token_set_intersect::lemma_star_free_no_wildcards;
use crate::token_set_intersect::lemma_walk_in_graph;

verus! {

// ---------------------------------------------------------------------------
// The order of words.
// ---------------------------------------------------------------------------

/// Whether `a` comes before `b`: at the first position where they differ the
/// character of `a` has the lower code point, or `a` is a proper prefix of `b`.
/// (This is the order of strings by their UTF-8 bytes.)
pub open spec fn lex_lt(a: Seq<char>, b: Seq<char>) -> bool
    decreases a.len(),
{
    if b.len() == 0 {
        false
    } else if a.len() == 0 {
        true
    } else if a[0] != b[0] {
        (a[0] as u32) < (b[0] as u32)
    } else {
        lex_lt(a.drop_first(), b.drop_first())
    }
}

/// Each word comes no earlier than the one before it.
pub open spec fn sorted_words(ws: Seq<Seq<char>>) -> bool {
    forall|i: int| 0 < i < ws.len() ==> !lex_lt(#[trigger] ws[i], ws[i - 1])
}

proof fn lemma_lex_first_diff(a: Seq<char>, b: Seq<char>, k: int)
    requires
        0 <= k <= a.len(),
        k <= b.len(),
        a.take(k) == b.take(k),
    ensures
        k < a.len() && k < b.len() && a[k] != b[k] ==> lex_lt(a, b) == ((a[k] as u32) < (b[k] as u32)),
        k == a.len() && k < b.len() ==> lex_lt(a, b),
        k == b.len() ==> !lex_lt(a, b),
    decreases k,
{
    if k > 0 {
        assert(a[0] == a.take(k)[0]);
        assert(b[0] == b.take(k)[0]);
        assert(a.drop_first().take(k - 1) =~= a.take(k).drop_first());
        assert(b.drop_first().take(k - 1) =~= b.take(k).drop_first());
        lemma_lex_first_diff(a.drop_first(), b.drop_first(), k - 1);
    }
}

proof fn lemma_lex_irreflexive(a: Seq<char>)
    ensures
        !lex_lt(a, a),
    decreases a.len(),
{
    if a.len() > 0 {
        lemma_lex_irreflexive(a.drop_first());
    }
}

/// Different characters have different code points.
proof fn lemma_char_code(a: char, b: char)
    requires
        a != b,
    ensures
        (a as u32) != (b as u32),
{
    vstd::utf8::char_u32_cast(a, a as u32);
    vstd::utf8::char_u32_cast(b, b as u32);
}

proof fn lemma_lex_total(a: Seq<char>, b: Seq<char>)
    ensures
        lex_lt(a, b) || a == b || lex_lt(b, a),
    decreases a.len(),
{
    if a.len() > 0 && b.len() > 0 && a[0] != b[0] {
        lemma_char_code(a[0], b[0]);
    }
    if a.len() > 0 && b.len() > 0 && a[0] == b[0] {
        lemma_lex_total(a.drop_first(), b.drop_first());
        if a.drop_first() == b.drop_first() {
            assert(a =~= seq![a[0]] + a.drop_first());
            assert(b =~= seq![b[0]] + b.drop_first());
        }
    } else if a.len() == 0 && b.len() == 0 {
        assert(a =~= b);
    }
}

proof fn lemma_lex_trans(a: Seq<char>, b: Seq<char>, c: Seq<char>)
    requires
        lex_lt(a, b),
        lex_lt(b, c),
    ensures
        lex_lt(a, c),
    decreases a.len(),
{
    if a.len() > 0 && b.len() > 0 && c.len() > 0 && a[0] == b[0] && b[0] == c[0] {
        lemma_lex_trans(a.drop_first(), b.drop_first(), c.drop_first());
    }
}

/// After the words first differ at `k`, or one ends there, no word of `ws` up
/// to `prev` can share more than `k` characters with a later word `w`, unless
/// it is `w` itself.
pub open spec fn beyond(ws: Set<Seq<char>>, w: Seq<char>, k: int) -> bool {
    &&& k < w.len()
    &&& forall|u: Seq<char>|
        #[trigger] ws.contains(u) && u.len() > k && u.take(k + 1) == w.take(k + 1) ==> u == w
}

proof fn lemma_beyond(ws: Set<Seq<char>>, prev: Seq<char>, w: Seq<char>, cp: int)
    requires
        forall|u: Seq<char>| #[trigger] ws.contains(u) ==> !lex_lt(prev, u),
        !lex_lt(w, prev),
        0 <= cp <= prev.len(),
        cp < w.len(),
        prev.take(cp) == w.take(cp),
        cp < prev.len() && cp < w.len() ==> prev[cp] != w[cp],
    ensures
        beyond(ws.insert(w), w, cp),
{
    assert forall|u: Seq<char>|
        #[trigger] ws.insert(w).contains(u) && u.len() > cp && u.take(cp + 1) == w.take(cp + 1) implies u
        == w by {
        if u != w {
            assert(ws.contains(u));
            assert(u.take(cp) =~= w.take(cp)) by {
                assert(u.take(cp) =~= u.take(cp + 1).take(cp));
                assert(w.take(cp) =~= w.take(cp + 1).take(cp));
            }
            assert(u[cp] == w[cp]) by {
                assert(u[cp] == u.take(cp + 1)[cp]);
                assert(w[cp] == w.take(cp + 1)[cp]);
            }
            if cp < prev.len() {
                lemma_char_code(w[cp], prev[cp]);
                lemma_lex_first_diff(w, prev, cp);
                lemma_lex_first_diff(prev, u, cp);
            } else {
                assert(prev.take(cp) =~= prev);
                lemma_lex_first_diff(prev, u, cp);
            }
        }
    }
}

// ---------------------------------------------------------------------------
// The state of the builder.
// ---------------------------------------------------------------------------

/// The largest rank among the targets of `es`.
pub open spec fn max_target_rank(es: Seq<(char, int)>, rank: Seq<nat>) -> nat
    decreases es.len(),
{
    if es.len() == 0 {
        0
    } else {
        let r = rank[es.last().1];
        let rest = max_target_rank(es.drop_last(), rank);
        if r > rest {
            r
        } else {
            rest
        }
    }
}

proof fn lemma_max_target_rank(es: Seq<(char, int)>, rank: Seq<nat>, i: int)
    requires
        0 <= i < es.len(),
    ensures
        rank[es[i].1] <= max_target_rank(es, rank),
    decreases es.len(),
{
    if i < es.len() - 1 {
        lemma_max_target_rank(es.drop_last(), rank, i);
    }
}

/// Every word that `g` reads from `t` is a word of `ws` once `u` is put before it.
pub open spec fn lang_is(g: Seq<NodeModel>, t: int, ws: Set<Seq<char>>, u: Seq<char>) -> bool {
    forall|v: Seq<char>| #[trigger] accepts(g, t, v) == ws.contains(u + v)
}

/// Node `sp[i]` on the path of the last word, `prev`, read up to `m` characters.
/// While a word is being added (`pending`), the last node of the path may
/// still lack its edge for the next character, and its finality.
pub open spec fn spine_ok(
    g: Seq<NodeModel>,
    ws: Set<Seq<char>>,
    prev: Seq<char>,
    sp: Seq<int>,
    m: int,
    reg: Seq<int>,
    i: int,
    pending: bool,
) -> bool {
    let x = sp[i];
    let pre = prev.take(i);
    let top = pending && i == m;
    &&& (!top || i < prev.len()) ==> g[x].is_final == ws.contains(pre)
    &&& i < m ==> label_target(g[x].edges, prev[i]) == Some(sp[i + 1])
    &&& forall|c: char|
        (#[trigger] label_target(g[x].edges, c)) is Some && !(i < m && c == prev[i]) ==> {
            let t = label_target(g[x].edges, c)->0;
            reg.contains(t) && lang_is(g, t, ws, pre.push(c))
        }
    &&& forall|c: char|
        (#[trigger] label_target(g[x].edges, c)) is None && !(top && i < prev.len() && c == prev[i])
            ==> forall|v: Seq<char>| !(#[trigger] ws.contains(pre.push(c) + v))
    &&& forall|c: char|
        (#[trigger] label_target(g[x].edges, c)) is Some ==> i < prev.len() && (if top {
            (c as u32) < (prev[i] as u32)
        } else {
            (c as u32) <= (prev[i] as u32)
        })
}

/// Registered nodes read different words unless they are one node.
#[verifier::opaque]
pub open spec fn reg_apart(g: Seq<NodeModel>, reg: Seq<int>) -> bool {
    forall|a: int, b: int|
        #![trigger same_words(g, a, b)]
        reg.contains(a) && reg.contains(b) && same_words(g, a, b) ==> a == b
}

/// Each registered node reads some word.
#[verifier::opaque]
pub open spec fn reg_live(g: Seq<NodeModel>, reg: Seq<int>) -> bool {
    forall|a: int| #[trigger] reg.contains(a) ==> exists|v: Seq<char>| #[trigger] accepts(g, a, v)
}

pub open spec fn reg_distinct(g: Seq<NodeModel>, reg: Seq<int>) -> bool {
    reg_apart(g, reg) && reg_live(g, reg)
}

proof fn lemma_apart_use(g: Seq<NodeModel>, reg: Seq<int>, a: int, b: int)
    requires
        reg_apart(g, reg),
        reg.contains(a),
        reg.contains(b),
        same_words(g, a, b),
    ensures
        a == b,
{
    reveal(reg_apart);
}

proof fn lemma_live_use(g: Seq<NodeModel>, reg: Seq<int>, a: int) -> (v: Seq<char>)
    requires
        reg_live(g, reg),
        reg.contains(a),
    ensures
        accepts(g, a, v),
{
    reveal(reg_live);
    choose|v: Seq<char>| accepts(g, a, v)
}

/// The whole state: the graph `g`, the words `ws` added so far, the last of
/// them `prev`, the path `sp` of its first `m` characters whose nodes may still
/// change, the registry `reg` of nodes that no longer change, and ranks for the
/// nodes off the path.
#[verifier::opaque]
pub open spec fn builder_inv(
    g: Seq<NodeModel>,
    ws: Set<Seq<char>>,
    prev: Seq<char>,
    sp: Seq<int>,
    reg: Seq<int>,
    rank: Seq<nat>,
    m: int,
    pending: bool,
) -> bool {
    &&& graph_wf(g)
    &&& sp.len() == m + 1
    &&& sp[0] == 0
    &&& 0 <= m <= prev.len()
    &&& forall|i: int| 0 <= i <= m ==> 0 <= #[trigger] sp[i] < g.len() && !reg.contains(sp[i])
    &&& forall|i: int, j: int| 0 <= i < j <= m ==> #[trigger] sp[i] != #[trigger] sp[j]
    &&& forall|k: int| 0 <= k < reg.len() ==> 0 <= #[trigger] reg[k] < g.len()
    &&& forall|k: int, e: int|
        0 <= k < reg.len() && 0 <= e < g[reg[k]].edges.len() ==> reg.contains(
            (#[trigger] g[reg[k]].edges[e]).1,
        )
    &&& forall|i: int| 0 <= i <= m ==> #[trigger] spine_ok(g, ws, prev, sp, m, reg, i, pending)
    &&& forall|u: Seq<char>| #[trigger] ws.contains(u) ==> !lex_lt(prev, u)
    &&& prev.len() > 0 ==> ws.contains(prev)
    &&& reg_distinct(g, reg)
    &&& rank.len() == g.len()
    &&& forall|x: int, e: int|
        0 <= x < g.len() && !sp.contains(x) && 0 <= e < g[x].edges.len() ==> !sp.contains(
            (#[trigger] g[x].edges[e]).1,
        ) && rank[g[x].edges[e].1] < rank[x]
}

proof fn lemma_target_of(es: Seq<(char, int)>, c: char)
    requires
        crate::token_set::labels_distinct(es),
        label_target(es, c) is Some,
    ensures
        exists|i: int| 0 <= i < es.len() && #[trigger] es[i] == (c, label_target(es, c)->0),
{
    assert(exists|i: int| 0 <= i < es.len() && es[i].0 == c);
    let i = choose|i: int| 0 <= i < es.len() && es[i].0 == c;
    lemma_label_at(es, c, i, 0);
    assert(es[i] == (c, label_target(es, c)->0));
}

/// Nodes in the registry read the same words in `g2` as in `g` when none of
/// them changed.
proof fn lemma_frozen_stable(g: Seq<NodeModel>, g2: Seq<NodeModel>, reg: Seq<int>, t: int, v: Seq<char>)
    requires
        graph_wf(g),
        forall|k: int| 0 <= k < reg.len() ==> 0 <= #[trigger] reg[k] < g.len(),
        forall|k: int, e: int|
            0 <= k < reg.len() && 0 <= e < g[reg[k]].edges.len() ==> reg.contains(
                (#[trigger] g[reg[k]].edges[e]).1,
            ),
        g.len() <= g2.len(),
        forall|k: int| 0 <= k < reg.len() ==> g2[#[trigger] reg[k]] == g[reg[k]],
        reg.contains(t),
    ensures
        accepts(g2, t, v) == accepts(g, t, v),
    decreases v.len(),
{
    let k = choose|k: int| 0 <= k < reg.len() && reg[k] == t;
    assert(g2[reg[k]] == g[reg[k]]);
    if v.len() > 0 {
        let es = g[t].edges;
        if label_target(es, v[0]) is Some {
            lemma_target_of(es, v[0]);
            let e = choose|e: int| 0 <= e < es.len() && #[trigger] es[e] == (v[0], label_target(es, v[0])->0);
            assert(reg.contains(g[reg[k]].edges[e].1));
            lemma_frozen_stable(g, g2, reg, label_target(es, v[0])->0, v.drop_first());
        }
    }
}

/// Two nodes with the same finality and the same edges read the same words.
proof fn lemma_same_node(g: Seq<NodeModel>, a: int, b: int, v: Seq<char>)
    requires
        0 <= a < g.len(),
        0 <= b < g.len(),
        same_state(g, a, b),
    ensures
        accepts(g, a, v) == accepts(g, b, v),
{
    if v.len() > 0 {
        assert(label_target(g[a].edges, v[0]) == label_target(g[b].edges, v[0]));
    }
}

/// Registered nodes keep reading different words when none of them changed.
proof fn lemma_reg_distinct_stable(g: Seq<NodeModel>, g2: Seq<NodeModel>, reg: Seq<int>)
    requires
        graph_wf(g),
        forall|k: int| 0 <= k < reg.len() ==> 0 <= #[trigger] reg[k] < g.len(),
        forall|k: int, e: int|
            0 <= k < reg.len() && 0 <= e < g[reg[k]].edges.len() ==> reg.contains(
                (#[trigger] g[reg[k]].edges[e]).1,
            ),
        g.len() <= g2.len(),
        forall|k: int| 0 <= k < reg.len() ==> g2[#[trigger] reg[k]] == g[reg[k]],
        reg_distinct(g, reg),
    ensures
        reg_distinct(g2, reg),
{
    assert(reg_apart(g2, reg)) by {
        reveal(reg_apart);
        assert forall|a: int, b: int| reg.contains(a) && reg.contains(b) && #[trigger] same_words(g2, a, b) implies a
            == b by {
            assert forall|v: Seq<char>| #[trigger] accepts(g, a, v) == accepts(g, b, v) by {
                lemma_frozen_stable(g, g2, reg, a, v);
                lemma_frozen_stable(g, g2, reg, b, v);
                assert(accepts(g2, a, v) == accepts(g2, b, v));
            }
            lemma_apart_use(g, reg, a, b);
        }
    }
    assert(reg_live(g2, reg)) by {
        reveal(reg_live);
        assert forall|a: int| #[trigger] reg.contains(a) implies exists|v: Seq<char>| #[trigger] accepts(g2, a, v) by {
            let v = lemma_live_use(g, reg, a);
            lemma_frozen_stable(g, g2, reg, a, v);
        }
    }
}

/// A node whose edges all lead into the registry and which reads the same
/// words as a registered node `y` has the same finality and edges as `y`.
proof fn lemma_same_words_state(g: Seq<NodeModel>, reg: Seq<int>, y: int, x: int)
    requires
        graph_wf(g),
        forall|k: int| 0 <= k < reg.len() ==> 0 <= #[trigger] reg[k] < g.len(),
        forall|k: int, e: int|
            0 <= k < reg.len() && 0 <= e < g[reg[k]].edges.len() ==> reg.contains(
                (#[trigger] g[reg[k]].edges[e]).1,
            ),
        reg_distinct(g, reg),
        reg.contains(y),
        0 <= x < g.len(),
        forall|c: char|
            (#[trigger] label_target(g[x].edges, c)) is Some ==> reg.contains(label_target(g[x].edges, c)->0),
        same_words(g, y, x),
    ensures
        same_state(g, y, x),
{
    let ky = choose|k: int| 0 <= k < reg.len() && reg[k] == y;
    assert(accepts(g, y, Seq::<char>::empty()) == accepts(g, x, Seq::<char>::empty()));
    assert forall|c: char| #[trigger] label_target(g[y].edges, c) == label_target(g[x].edges, c) by {
        let ey = g[y].edges;
        let ex = g[x].edges;
        if label_target(ey, c) is Some {
            let ty = label_target(ey, c)->0;
            lemma_target_of(ey, c);
            let e = choose|e: int| 0 <= e < ey.len() && #[trigger] ey[e] == (c, ty);
            assert(reg.contains(g[reg[ky]].edges[e].1));
            let v0 = lemma_live_use(g, reg, ty);
            let cv = seq![c] + v0;
            assert(cv[0] == c);
            assert(cv.drop_first() =~= v0);
            assert(accepts(g, y, cv));
            assert(accepts(g, x, cv));
            let tx = label_target(ex, c)->0;
            assert forall|v: Seq<char>| #[trigger] accepts(g, ty, v) == accepts(g, tx, v) by {
                let cw = seq![c] + v;
                assert(cw[0] == c);
                assert(cw.drop_first() =~= v);
                assert(accepts(g, y, cw) == accepts(g, x, cw));
            }
            lemma_apart_use(g, reg, ty, tx);
        } else if label_target(ex, c) is Some {
            let tx = label_target(ex, c)->0;
            let v0 = lemma_live_use(g, reg, tx);
            let cv = seq![c] + v0;
            assert(cv[0] == c);
            assert(cv.drop_first() =~= v0);
            assert(accepts(g, x, cv));
            assert(accepts(g, y, cv));
        }
    }
}

/// From the node `sp[i]` the graph reads exactly the words of `ws` that begin
/// with `prev[..i]`, those first characters left out.
proof fn lemma_spine_lang(
    g: Seq<NodeModel>,
    ws: Set<Seq<char>>,
    prev: Seq<char>,
    sp: Seq<int>,
    reg: Seq<int>,
    rank: Seq<nat>,
    m: int,
    i: int,
    v: Seq<char>,
)
    requires
        builder_inv(g, ws, prev, sp, reg, rank, m, false),
        0 <= i <= m,
    ensures
        accepts(g, sp[i], v) == ws.contains(prev.take(i) + v),
    decreases v.len(),
{
    reveal(builder_inv);
    assert(spine_ok(g, ws, prev, sp, m, reg, i, false));
    let x = sp[i];
    let pre = prev.take(i);
    if v.len() == 0 {
        assert(pre + v =~= pre);
    } else {
        let c = v[0];
        let rest = v.drop_first();
        assert(pre.push(c) + rest =~= pre + v);
        match label_target(g[x].edges, c) {
            Some(t) => {
                if i < m && c == prev[i] {
                    lemma_spine_lang(g, ws, prev, sp, reg, rank, m, i + 1, rest);
                    assert(prev.take(i + 1) =~= pre.push(c));
                } else {
                    assert(lang_is(g, t, ws, pre.push(c)));
                    assert(accepts(g, t, rest) == ws.contains(pre.push(c) + rest));
                }
            },
            None => {
                assert(!ws.contains(pre.push(c) + rest));
            },
        }
    }
}

/// The state of a new builder: one node, no words.
proof fn lemma_init()
    ensures
        builder_inv(
            seq![NodeModel { is_final: false, edges: Seq::empty() }],
            Set::empty(),
            Seq::empty(),
            seq![0int],
            Seq::empty(),
            seq![0nat],
            0,
            false,
        ),
{
    reveal(builder_inv);
    let g = seq![NodeModel { is_final: false, edges: Seq::<(char, int)>::empty() }];
    let sp = seq![0int];
    let e = Seq::<(char, int)>::empty();
    assert forall|c: char| #[trigger] label_target(e, c) is None by {
        lemma_label_absent(e, c, 0);
    }
    assert(g[0].edges == e);
    assert(spine_ok(g, Set::empty(), Seq::empty(), sp, 0, Seq::empty(), 0, false));
    assert(reg_distinct(g, Seq::empty())) by {
        reveal(reg_apart);
        reveal(reg_live);
    }
}

proof fn lemma_common_prefix(u: Seq<char>, w: Seq<char>, n: int)
    requires
        0 <= n <= u.len(),
        n <= w.len(),
        forall|j: int| 0 <= j < n ==> #[trigger] u[j] == w[j],
    ensures
        u.take(n) == w.take(n),
{
    assert(u.take(n) =~= w.take(n));
}

/// Registering a node that reads some word, whose edges lead into the
/// registry, and which no registered node equals.
proof fn lemma_register_distinct(g: Seq<NodeModel>, reg: Seq<int>, ch: int, v0: Seq<char>)
    requires
        graph_wf(g),
        forall|k: int| 0 <= k < reg.len() ==> 0 <= #[trigger] reg[k] < g.len(),
        forall|k: int, e: int|
            0 <= k < reg.len() && 0 <= e < g[reg[k]].edges.len() ==> reg.contains(
                (#[trigger] g[reg[k]].edges[e]).1,
            ),
        reg_distinct(g, reg),
        !reg.contains(ch),
        0 <= ch < g.len(),
        forall|c: char|
            (#[trigger] label_target(g[ch].edges, c)) is Some ==> reg.contains(label_target(g[ch].edges, c)->0),
        accepts(g, ch, v0),
        forall|q: int| 0 <= q < reg.len() ==> !same_state(g, #[trigger] reg[q], ch),
    ensures
        reg_distinct(g, reg.push(ch)),
{
    let reg2 = reg.push(ch);
    assert forall|a: int| #[trigger] reg2.contains(a) implies reg.contains(a) || a == ch by {
        let k = choose|k: int| 0 <= k < reg2.len() && reg2[k] == a;
        if k < reg.len() {
            assert(reg[k] == a);
        }
    }
    assert(reg_apart(g, reg2)) by {
        reveal(reg_apart);
        assert forall|a: int, b: int| reg2.contains(a) && reg2.contains(b) && #[trigger] same_words(g, a, b) implies a
            == b by {
            if a != b {
                if a == ch {
                    assert(same_words(g, b, ch)) by {
                        assert forall|v: Seq<char>| #[trigger] accepts(g, b, v) == accepts(g, ch, v) by {
                            assert(accepts(g, a, v) == accepts(g, b, v));
                        }
                    }
                    lemma_same_words_state(g, reg, b, ch);
                    let q = choose|q: int| 0 <= q < reg.len() && reg[q] == b;
                    assert(!same_state(g, reg[q], ch));
                } else if b == ch {
                    lemma_same_words_state(g, reg, a, ch);
                    let q = choose|q: int| 0 <= q < reg.len() && reg[q] == a;
                    assert(!same_state(g, reg[q], ch));
                } else {
                    lemma_apart_use(g, reg, a, b);
                }
            }
        }
    }
    assert(reg_live(g, reg2)) by {
        reveal(reg_live);
        assert forall|a: int| #[trigger] reg2.contains(a) implies exists|v: Seq<char>| #[trigger] accepts(g, a, v) by {
            if a == ch {
                assert(accepts(g, ch, v0));
            } else {
                let v = lemma_live_use(g, reg, a);
            }
        }
    }
}

/// Registering the last node of the path, which no registered node equals.
proof fn lemma_pop_register(
    g: Seq<NodeModel>,
    ws: Set<Seq<char>>,
    prev: Seq<char>,
    sp: Seq<int>,
    reg: Seq<int>,
    rank: Seq<nat>,
    m: int,
)
    requires
        builder_inv(g, ws, prev, sp, reg, rank, m, false),
        m > 0,
        forall|q: int| 0 <= q < reg.len() ==> !same_state(g, #[trigger] reg[q], sp[m]),
    ensures
        builder_inv(
            g,
            ws,
            prev,
            sp.drop_last(),
            reg.push(sp[m]),
            rank.update(sp[m], max_target_rank(g[sp[m]].edges, rank) + 1),
            m - 1,
            false,
        ),
{
    let ch = sp[m];
    let c = prev[m - 1];
    let sp2 = sp.drop_last();
    let reg2 = reg.push(ch);
    let rank2 = rank.update(ch, max_target_rank(g[ch].edges, rank) + 1);
    assert forall|v: Seq<char>| #[trigger] accepts(g, ch, v) == ws.contains(prev.take(m) + v) by {
        lemma_spine_lang(g, ws, prev, sp, reg, rank, m, m, v);
    }
    reveal(builder_inv);
    assert(prev.take(m) =~= prev.take(m - 1).push(c));
    assert forall|y: int| reg.contains(y) implies reg2.contains(y) by {
        let k = choose|k: int| 0 <= k < reg.len() && reg[k] == y;
        assert(reg2[k] == y);
    }
    assert(reg2[reg.len() as int] == ch);
    assert(spine_ok(g, ws, prev, sp, m, reg, m, false));
    assert forall|i: int| 0 <= i <= m - 1 implies #[trigger] spine_ok(g, ws, prev, sp2, m - 1, reg2, i, false) by {
        assert(spine_ok(g, ws, prev, sp, m, reg, i, false));
        assert(sp2[i] == sp[i]);
        if i == m - 1 {
            let x = sp[i];
            assert forall|d: char| (#[trigger] label_target(g[x].edges, d)) is Some implies {
                let t = label_target(g[x].edges, d)->0;
                reg2.contains(t) && lang_is(g, t, ws, prev.take(i).push(d))
            } by {
                if d == c {
                    assert(label_target(g[x].edges, d) == Some(ch));
                }
            }
        } else {
            assert(sp2[i + 1] == sp[i + 1]);
        }
    }
    assert forall|k: int, e: int|
        0 <= k < reg2.len() && 0 <= e < g[reg2[k]].edges.len() implies reg2.contains(
            (#[trigger] g[reg2[k]].edges[e]).1,
        ) by {
        if k == reg.len() {
            let es = g[ch].edges;
            let d = es[e].0;
            lemma_label_at(es, d, e, 0);
        } else {
            assert(reg2[k] == reg[k]);
        }
    }
    assert forall|i: int| 0 <= i <= m - 1 implies 0 <= #[trigger] sp2[i] < g.len() && !reg2.contains(sp2[i]) by {
        assert(sp2[i] == sp[i]);
        assert(sp[i] != sp[m]);
        if reg2.contains(sp2[i]) {
            let k = choose|k: int| 0 <= k < reg2.len() && reg2[k] == sp2[i];
            if k < reg.len() {
                assert(reg[k] == sp[i]);
            }
        }
    }
    assert forall|x: int, e: int|
        0 <= x < g.len() && !sp2.contains(x) && 0 <= e < g[x].edges.len() implies !sp2.contains(
            (#[trigger] g[x].edges[e]).1,
        ) && rank2[g[x].edges[e].1] < rank2[x] by {
        let t = g[x].edges[e].1;
        if x == ch {
            let es = g[ch].edges;
            let d = es[e].0;
            lemma_label_at(es, d, e, 0);
            assert(reg.contains(t));
            let k = choose|k: int| 0 <= k < reg.len() && reg[k] == t;
            if sp.contains(t) {
                let j = choose|j: int| 0 <= j < sp.len() && sp[j] == t;
                assert(!reg.contains(sp[j]));
            }
            if sp2.contains(t) {
                let j = choose|j: int| 0 <= j < sp2.len() && sp2[j] == t;
                assert(sp[j] == t);
            }
            lemma_max_target_rank(es, rank, e);
        } else {
            if sp.contains(x) {
                let j = choose|j: int| 0 <= j < sp.len() && sp[j] == x;
                if j < m {
                    assert(sp2[j] == x);
                }
            }
            assert(!sp.contains(t));
            if sp2.contains(t) {
                let j = choose|j: int| 0 <= j < sp2.len() && sp2[j] == t;
                assert(sp[j] == t);
            }
            assert(t != ch) by {
                assert(sp[m] == ch);
            }
        }
    }
    assert forall|i: int, j: int| 0 <= i < j <= m - 1 implies #[trigger] sp2[i] != #[trigger] sp2[j] by {
        assert(sp2[i] == sp[i]);
        assert(sp2[j] == sp[j]);
    }
    // the registry stays free of nodes that read the same words
    assert(!reg.contains(ch));
    assert forall|d: char| (#[trigger] label_target(g[ch].edges, d)) is Some implies reg.contains(
        label_target(g[ch].edges, d)->0,
    ) by {}
    assert(ws.contains(prev));
    let v0 = prev.skip(m);
    assert(prev.take(m) + v0 =~= prev);
    assert(accepts(g, ch, v0));
    lemma_register_distinct(g, reg, ch, v0);
}

/// Pointing the edge into the last node of the path at a registered node that
/// equals it.
proof fn lemma_pop_replace(
    g: Seq<NodeModel>,
    ws: Set<Seq<char>>,
    prev: Seq<char>,
    sp: Seq<int>,
    reg: Seq<int>,
    rank: Seq<nat>,
    m: int,
    y: int,
)
    requires
        builder_inv(g, ws, prev, sp, reg, rank, m, false),
        m > 0,
        reg.contains(y),
        same_state(g, y, sp[m]),
    ensures
        builder_inv(
            g.update(sp[m - 1], NodeModel { edges: set_label(g[sp[m - 1]].edges, prev[m - 1], y), ..g[sp[m - 1]] }),
            ws,
            prev,
            sp.drop_last(),
            reg,
            rank.update(sp[m], max_target_rank(g[sp[m]].edges, rank) + 1),
            m - 1,
            false,
        ),
{
    let ch = sp[m];
    let p = sp[m - 1];
    let c = prev[m - 1];
    let sp2 = sp.drop_last();
    let g2 = g.update(p, NodeModel { edges: set_label(g[p].edges, c, y), ..g[p] });
    let rank2 = rank.update(ch, max_target_rank(g[ch].edges, rank) + 1);
    assert forall|v: Seq<char>| #[trigger] accepts(g, ch, v) == ws.contains(prev.take(m) + v) by {
        lemma_spine_lang(g, ws, prev, sp, reg, rank, m, m, v);
    }
    reveal(builder_inv);
    assert(prev.take(m) =~= prev.take(m - 1).push(c));
    assert(0 <= y < g.len()) by {
        let k = choose|k: int| 0 <= k < reg.len() && reg[k] == y;
    }
    assert(!reg.contains(p));
    assert forall|k: int| 0 <= k < reg.len() implies g2[#[trigger] reg[k]] == g[reg[k]] by {
        assert(reg[k] != p);
    }
    assert forall|t: int, v: Seq<char>| reg.contains(t) implies #[trigger] accepts(g2, t, v) == accepts(g, t, v) by {
        lemma_frozen_stable(g, g2, reg, t, v);
    }
    assert forall|v: Seq<char>| #[trigger] accepts(g2, y, v) == ws.contains(prev.take(m - 1).push(c) + v) by {
        lemma_same_node(g, y, ch, v);
        assert(accepts(g2, y, v) == accepts(g, y, v));
        assert(prev.take(m) + v == prev.take(m - 1).push(c) + v);
    }
    lemma_set_label_wf(g, p, c, y);
    lemma_reg_distinct_stable(g, g2, reg);
    assert(spine_ok(g, ws, prev, sp, m, reg, m, false));
    assert forall|i: int| 0 <= i <= m - 1 implies #[trigger] spine_ok(g2, ws, prev, sp2, m - 1, reg, i, false) by {
        assert(spine_ok(g, ws, prev, sp, m, reg, i, false));
        assert(sp2[i] == sp[i]);
        let x = sp[i];
        let pre = prev.take(i);
        if i == m - 1 {
            assert(x == p);
            assert forall|d: char| (#[trigger] label_target(g2[x].edges, d)) is Some implies {
                let t = label_target(g2[x].edges, d)->0;
                reg.contains(t) && lang_is(g2, t, ws, pre.push(d))
            } by {
                lemma_set_label_target(g[p].edges, c, y, d);
                if d != c {
                    let t = label_target(g[x].edges, d)->0;
                    assert(reg.contains(t) && lang_is(g, t, ws, pre.push(d)));
                    assert forall|v: Seq<char>| #[trigger] accepts(g2, t, v) == ws.contains(pre.push(d) + v) by {
                        assert(accepts(g2, t, v) == accepts(g, t, v));
                    }
                }
            }
            assert forall|d: char| (#[trigger] label_target(g2[x].edges, d)) is None implies forall|v: Seq<char>|
                !(#[trigger] ws.contains(pre.push(d) + v)) by {
                lemma_set_label_target(g[p].edges, c, y, d);
            }
            assert forall|d: char| (#[trigger] label_target(g2[x].edges, d)) is Some implies i < prev.len() && (
            d as u32) <= (prev[i] as u32) by {
                lemma_set_label_target(g[p].edges, c, y, d);
                if d == c {
                    assert(label_target(g[x].edges, d) == Some(sp[i + 1]));
                }
            }
        } else {
            assert(x != p);
            assert(g2[x] == g[x]);
            assert(sp2[i + 1] == sp[i + 1]);
            assert forall|d: char| (#[trigger] label_target(g2[x].edges, d)) is Some && !(i < m - 1 && d == prev[i]) implies {
                let t = label_target(g2[x].edges, d)->0;
                reg.contains(t) && lang_is(g2, t, ws, pre.push(d))
            } by {
                let t = label_target(g[x].edges, d)->0;
                assert(reg.contains(t) && lang_is(g, t, ws, pre.push(d)));
                assert forall|v: Seq<char>| #[trigger] accepts(g2, t, v) == ws.contains(pre.push(d) + v) by {
                    assert(accepts(g2, t, v) == accepts(g, t, v));
                }
            }
        }
    }
    assert forall|k: int, e: int|
        0 <= k < reg.len() && 0 <= e < g2[reg[k]].edges.len() implies reg.contains(
            (#[trigger] g2[reg[k]].edges[e]).1,
        ) by {
        assert(g2[reg[k]] == g[reg[k]]);
    }
    assert forall|i: int| 0 <= i <= m - 1 implies 0 <= #[trigger] sp2[i] < g2.len() && !reg.contains(sp2[i]) by {
        assert(sp2[i] == sp[i]);
    }
    assert forall|x: int, e: int|
        0 <= x < g2.len() && !sp2.contains(x) && 0 <= e < g2[x].edges.len() implies !sp2.contains(
            (#[trigger] g2[x].edges[e]).1,
        ) && rank2[g2[x].edges[e].1] < rank2[x] by {
        assert(x != p) by {
            assert(sp2[m - 1] == p);
        }
        assert(g2[x] == g[x]);
        let t = g[x].edges[e].1;
        if x == ch {
            let es = g[ch].edges;
            let d = es[e].0;
            lemma_label_at(es, d, e, 0);
            assert(reg.contains(t));
            if sp.contains(t) {
                let j = choose|j: int| 0 <= j < sp.len() && sp[j] == t;
                assert(!reg.contains(sp[j]));
            }
            if sp2.contains(t) {
                let j = choose|j: int| 0 <= j < sp2.len() && sp2[j] == t;
                assert(sp[j] == t);
            }
            lemma_max_target_rank(es, rank, e);
        } else {
            if sp.contains(x) {
                let j = choose|j: int| 0 <= j < sp.len() && sp[j] == x;
                if j < m {
                    assert(sp2[j] == x);
                }
            }
            assert(!sp.contains(t));
            if sp2.contains(t) {
                let j = choose|j: int| 0 <= j < sp2.len() && sp2[j] == t;
                assert(sp[j] == t);
            }
            assert(t != ch) by {
                assert(sp[m] == ch);
            }
        }
    }
    assert forall|i: int, j: int| 0 <= i < j <= m - 1 implies #[trigger] sp2[i] != #[trigger] sp2[j] by {
        assert(sp2[i] == sp[i]);
        assert(sp2[j] == sp[j]);
    }
}

/// Starting to add `w` after the path has been cut back to the `cp` characters
/// that `w` shares with the last word.
proof fn lemma_begin(
    g: Seq<NodeModel>,
    ws: Set<Seq<char>>,
    prev: Seq<char>,
    sp: Seq<int>,
    reg: Seq<int>,
    rank: Seq<nat>,
    cp: int,
    w: Seq<char>,
)
    requires
        builder_inv(g, ws, prev, sp, reg, rank, cp, false),
        !lex_lt(w, prev),
        cp <= w.len(),
        prev.take(cp) == w.take(cp),
        cp < prev.len() && cp < w.len() ==> prev[cp] != w[cp],
    ensures
        builder_inv(g, ws.insert(w), w, sp, reg, rank, cp, true),
        cp == w.len() ==> w == prev,
{
    reveal(builder_inv);
    let ws2 = ws.insert(w);
    if cp == w.len() && cp < prev.len() {
        lemma_lex_first_diff(w, prev, cp);
    }
    if cp == w.len() {
        assert(prev.take(cp) =~= prev);
        assert(w.take(cp) =~= w);
    }
    if cp < prev.len() && cp < w.len() {
        lemma_char_code(w[cp], prev[cp]);
        lemma_lex_first_diff(w, prev, cp);
    }
    assert forall|u: Seq<char>| #[trigger] ws2.contains(u) implies !lex_lt(w, u) by {
        if u == w {
            lemma_lex_irreflexive(w);
        } else {
            assert(!lex_lt(prev, u));
            lemma_lex_total(u, prev);
            if lex_lt(w, u) {
                if lex_lt(u, prev) {
                    lemma_lex_trans(w, u, prev);
                }
            }
        }
    }
    assert forall|i: int| 0 <= i <= cp implies #[trigger] spine_ok(g, ws2, w, sp, cp, reg, i, true) by {
        assert(spine_ok(g, ws, prev, sp, cp, reg, i, false));
        let x = sp[i];
        let pre = w.take(i);
        assert(pre == prev.take(i)) by {
            assert(pre =~= w.take(cp).take(i));
            assert(prev.take(i) =~= prev.take(cp).take(i));
        }
        if i < cp {
            assert(w[i] == prev[i]) by {
                assert(w[i] == w.take(cp)[i]);
                assert(prev[i] == prev.take(cp)[i]);
            }
        }
        // the word being added starts with `pre` and goes on with `w[i]`
        assert forall|d: char, v: Seq<char>| (i >= w.len() || d != w[i]) implies w != #[trigger] (
        pre.push(d) + v) by {
            if i < w.len() && w == pre.push(d) + v {
                assert(w[i] == (pre.push(d) + v)[i]);
            }
            if i >= w.len() && w == pre.push(d) + v {
                assert(w.len() == (pre.push(d) + v).len());
            }
        }
        if i < w.len() {
            assert(w != pre);
        }
        assert forall|d: char| (#[trigger] label_target(g[x].edges, d)) is Some && !(i < cp && d == w[i]) implies {
            let t = label_target(g[x].edges, d)->0;
            reg.contains(t) && lang_is(g, t, ws2, pre.push(d))
        } by {
            let t = label_target(g[x].edges, d)->0;
            assert(reg.contains(t) && lang_is(g, t, ws, pre.push(d)));
            assert(i < w.len() ==> d != w[i]);
            assert forall|v: Seq<char>| #[trigger] accepts(g, t, v) == ws2.contains(pre.push(d) + v) by {
                assert(w != pre.push(d) + v);
            }
        }
        assert forall|d: char|
            (#[trigger] label_target(g[x].edges, d)) is None && !(i == cp && i < w.len() && d == w[i])
                implies forall|v: Seq<char>| !(#[trigger] ws2.contains(pre.push(d) + v)) by {
            if i < cp {
                assert(d != prev[i]);
            }
            assert forall|v: Seq<char>| !(#[trigger] ws2.contains(pre.push(d) + v)) by {
                assert(!ws.contains(pre.push(d) + v));
                assert(w != pre.push(d) + v);
            }
        }
        assert forall|d: char| (#[trigger] label_target(g[x].edges, d)) is Some implies i < w.len() && (if i
            == cp {
            (d as u32) < (w[i] as u32)
        } else {
            (d as u32) <= (w[i] as u32)
        }) by {
            assert(i < prev.len() && (d as u32) <= (prev[i] as u32));
        }
    }
}

/// Adding the node for character `k` of the word being added.
proof fn lemma_extend(
    g: Seq<NodeModel>,
    ws: Set<Seq<char>>,
    w: Seq<char>,
    sp: Seq<int>,
    reg: Seq<int>,
    rank: Seq<nat>,
    k: int,
    cp: int,
)
    requires
        builder_inv(g, ws, w, sp, reg, rank, k, true),
        0 <= cp <= k < w.len(),
        beyond(ws, w, cp),
    ensures
        ({
            let x = sp[k];
            let nx = g.len() as int;
            let g1 = g.push(NodeModel { is_final: false, edges: Seq::empty() });
            let g2 = g1.update(x, NodeModel { edges: set_label(g1[x].edges, w[k], nx), ..g1[x] });
            builder_inv(g2, ws, w, sp.push(nx), reg, rank.push(0), k + 1, true)
        }),
{
    reveal(builder_inv);
    let x = sp[k];
    let nx = g.len() as int;
    let g1 = g.push(NodeModel { is_final: false, edges: Seq::empty() });
    let g2 = g1.update(x, NodeModel { edges: set_label(g1[x].edges, w[k], nx), ..g1[x] });
    let sp2 = sp.push(nx);
    let rank2 = rank.push(0);
    let e0 = Seq::<(char, int)>::empty();
    assert(graph_wf(g1)) by {
        assert forall|n: int| 0 <= n < g1.len() implies labels_distinct(#[trigger] g1[n].edges) && forall|i: int|
            0 <= i < g1[n].edges.len() ==> 0 <= (#[trigger] g1[n].edges[i]).1 < g1.len() by {
            if n < g.len() {
                assert(g1[n] == g[n]);
            } else {
                assert(g1[n].edges == e0);
            }
        }
    }
    lemma_set_label_wf(g1, x, w[k], nx);
    assert(g1[x] == g[x]);
    assert(!reg.contains(x));
    assert(!reg.contains(nx)) by {
        if reg.contains(nx) {
            let j = choose|j: int| 0 <= j < reg.len() && reg[j] == nx;
        }
    }
    assert forall|j: int| 0 <= j < reg.len() implies g2[#[trigger] reg[j]] == g[reg[j]] by {
        assert(reg[j] != x);
        assert(reg[j] < g.len());
    }
    lemma_reg_distinct_stable(g, g2, reg);
    assert forall|t: int, v: Seq<char>| reg.contains(t) implies #[trigger] accepts(g2, t, v) == accepts(g, t, v) by {
        lemma_frozen_stable(g, g2, reg, t, v);
    }
    assert forall|d: char| #[trigger] label_target(e0, d) is None by {
        lemma_label_absent(e0, d, 0);
    }
    assert forall|i: int| 0 <= i <= k + 1 implies #[trigger] spine_ok(g2, ws, w, sp2, k + 1, reg, i, true) by {
        let pre = w.take(i);
        if i == k + 1 {
            assert(sp2[i] == nx);
            assert(g2[nx].edges == e0);
            assert(!g2[nx].is_final);
            assert forall|d: char, v: Seq<char>| !(i < w.len() && d == w[i]) implies !(#[trigger] ws.contains(
                pre.push(d) + v)) by {
                let u = pre.push(d) + v;
                if ws.contains(u) {
                    assert(pre.len() == k + 1);
                    assert(u.len() > cp + 1);
                    assert forall|j: int| 0 <= j < cp + 1 implies #[trigger] u[j] == w[j] by {
                        assert(u[j] == pre.push(d)[j]);
                        assert(pre.push(d)[j] == pre[j]);
                        assert(pre[j] == w[j]);
                    }
                    lemma_common_prefix(u, w, cp + 1);
                    assert(u == w);
                    assert(u[i] == d);
                }
            }
            if i < w.len() {
                assert(!ws.contains(pre)) by {
                    if ws.contains(pre) {
                        assert(pre.len() == k + 1);
                        assert forall|j: int| 0 <= j < cp + 1 implies #[trigger] pre[j] == w[j] by {
                            assert(pre[j] == w.take(k + 1)[j]);
                        }
                        lemma_common_prefix(pre, w, cp + 1);
                    }
                }
            }
        } else {
            assert(sp2[i] == sp[i]);
            assert(spine_ok(g, ws, w, sp, k, reg, i, true));
            let y = sp[i];
            if i < k {
                assert(y != x);
                assert(g2[y] == g[y]);
                assert(sp2[i + 1] == sp[i + 1]);
                assert forall|d: char| (#[trigger] label_target(g2[y].edges, d)) is Some && !(i < k + 1 && d == w[i]) implies {
                    let t = label_target(g2[y].edges, d)->0;
                    reg.contains(t) && lang_is(g2, t, ws, pre.push(d))
                } by {
                    let t = label_target(g[y].edges, d)->0;
                    assert(reg.contains(t) && lang_is(g, t, ws, pre.push(d)));
                    assert forall|v: Seq<char>| #[trigger] accepts(g2, t, v) == ws.contains(pre.push(d) + v) by {
                        assert(accepts(g2, t, v) == accepts(g, t, v));
                    }
                }
            } else {
                assert(y == x);
                assert(sp2[k + 1] == nx);
                lemma_set_label_target(g[x].edges, w[k], nx, w[k]);
                assert forall|d: char| (#[trigger] label_target(g2[y].edges, d)) is Some && !(i < k + 1 && d == w[i]) implies {
                    let t = label_target(g2[y].edges, d)->0;
                    reg.contains(t) && lang_is(g2, t, ws, pre.push(d))
                } by {
                    lemma_set_label_target(g[x].edges, w[k], nx, d);
                    let t = label_target(g[y].edges, d)->0;
                    assert(reg.contains(t) && lang_is(g, t, ws, pre.push(d)));
                    assert forall|v: Seq<char>| #[trigger] accepts(g2, t, v) == ws.contains(pre.push(d) + v) by {
                        assert(accepts(g2, t, v) == accepts(g, t, v));
                    }
                }
                assert forall|d: char| (#[trigger] label_target(g2[y].edges, d)) is None implies forall|v: Seq<char>|
                    !(#[trigger] ws.contains(pre.push(d) + v)) by {
                    lemma_set_label_target(g[x].edges, w[k], nx, d);
                }
                assert forall|d: char| (#[trigger] label_target(g2[y].edges, d)) is Some implies i < w.len() && (
                d as u32) <= (w[i] as u32) by {
                    lemma_set_label_target(g[x].edges, w[k], nx, d);
                }
            }
        }
    }
    assert forall|i: int| 0 <= i <= k + 1 implies 0 <= #[trigger] sp2[i] < g2.len() && !reg.contains(sp2[i]) by {
        if i <= k {
            assert(sp2[i] == sp[i]);
        }
    }
    assert forall|i: int, j: int| 0 <= i < j <= k + 1 implies #[trigger] sp2[i] != #[trigger] sp2[j] by {
        assert(sp2[i] == sp[i]);
        if j <= k {
            assert(sp2[j] == sp[j]);
        }
    }
    assert forall|q: int, e: int|
        0 <= q < reg.len() && 0 <= e < g2[reg[q]].edges.len() implies reg.contains(
            (#[trigger] g2[reg[q]].edges[e]).1,
        ) by {
        assert(g2[reg[q]] == g[reg[q]]);
    }
    assert forall|y: int, e: int|
        0 <= y < g2.len() && !sp2.contains(y) && 0 <= e < g2[y].edges.len() implies !sp2.contains(
            (#[trigger] g2[y].edges[e]).1,
        ) && rank2[g2[y].edges[e].1] < rank2[y] by {
        assert(y != nx) by {
            assert(sp2[k + 1] == nx);
        }
        assert(y != x) by {
            assert(sp2[k] == x);
        }
        assert(!sp.contains(y)) by {
            if sp.contains(y) {
                let j = choose|j: int| 0 <= j < sp.len() && sp[j] == y;
                assert(sp2[j] == y);
            }
        }
        assert(g2[y] == g[y]);
        let t = g[y].edges[e].1;
        assert(!sp.contains(t));
        assert(t < g.len());
        if sp2.contains(t) {
            let j = choose|j: int| 0 <= j < sp2.len() && sp2[j] == t;
            if j <= k {
                assert(sp[j] == t);
            }
        }
    }
}

/// Marking the node at the end of the added word final.
proof fn lemma_end(
    g: Seq<NodeModel>,
    ws: Set<Seq<char>>,
    w: Seq<char>,
    sp: Seq<int>,
    reg: Seq<int>,
    rank: Seq<nat>,
    m: int,
)
    requires
        builder_inv(g, ws, w, sp, reg, rank, m, true),
        m == w.len(),
        ws.contains(w),
    ensures
        builder_inv(g.update(sp[m], NodeModel { is_final: true, ..g[sp[m]] }), ws, w, sp, reg, rank, m, false),
{
    reveal(builder_inv);
    let x = sp[m];
    let g2 = g.update(x, NodeModel { is_final: true, ..g[x] });
    assert(!reg.contains(x));
    assert forall|j: int| 0 <= j < reg.len() implies g2[#[trigger] reg[j]] == g[reg[j]] by {
        assert(reg[j] != x);
    }
    lemma_reg_distinct_stable(g, g2, reg);
    assert forall|t: int, v: Seq<char>| reg.contains(t) implies #[trigger] accepts(g2, t, v) == accepts(g, t, v) by {
        lemma_frozen_stable(g, g2, reg, t, v);
    }
    assert(w.take(m) =~= w);
    assert forall|i: int| 0 <= i <= m implies #[trigger] spine_ok(g2, ws, w, sp, m, reg, i, false) by {
        assert(spine_ok(g, ws, w, sp, m, reg, i, true));
        let y = sp[i];
        let pre = w.take(i);
        if i < m {
            assert(y != x);
        }
        assert(g2[y].edges == g[y].edges);
        assert forall|d: char| (#[trigger] label_target(g2[y].edges, d)) is Some && !(i < m && d == w[i]) implies {
            let t = label_target(g2[y].edges, d)->0;
            reg.contains(t) && lang_is(g2, t, ws, pre.push(d))
        } by {
            let t = label_target(g[y].edges, d)->0;
            assert(reg.contains(t) && lang_is(g, t, ws, pre.push(d)));
            assert forall|v: Seq<char>| #[trigger] accepts(g2, t, v) == ws.contains(pre.push(d) + v) by {
                assert(accepts(g2, t, v) == accepts(g, t, v));
            }
        }
    }
    assert forall|q: int, e: int|
        0 <= q < reg.len() && 0 <= e < g2[reg[q]].edges.len() implies reg.contains(
            (#[trigger] g2[reg[q]].edges[e]).1,
        ) by {
        assert(g2[reg[q]] == g[reg[q]]);
    }
    assert forall|y: int, e: int|
        0 <= y < g2.len() && !sp.contains(y) && 0 <= e < g2[y].edges.len() implies !sp.contains(
            (#[trigger] g2[y].edges[e]).1,
        ) && rank[g2[y].edges[e].1] < rank[y] by {
        assert(g2[y].edges == g[y].edges);
    }
    assert(graph_wf(g2)) by {
        assert forall|n: int| 0 <= n < g2.len() implies labels_distinct(#[trigger] g2[n].edges) && forall|i: int|
            0 <= i < g2[n].edges.len() ==> 0 <= (#[trigger] g2[n].edges[i]).1 < g2.len() by {
            assert(g2[n].edges == g[n].edges);
        }
    }
}

/// Once the path is back at the root, ranks exist for every node.
proof fn lemma_finish(
    g: Seq<NodeModel>,
    ws: Set<Seq<char>>,
    prev: Seq<char>,
    sp: Seq<int>,
    reg: Seq<int>,
    rank: Seq<nat>,
)
    requires
        builder_inv(g, ws, prev, sp, reg, rank, 0, false),
    ensures
        has_ranks(g, rank.update(0, max_target_rank(g[0].edges, rank) + 1)),
{
    reveal(builder_inv);
    let rank2 = rank.update(0, max_target_rank(g[0].edges, rank) + 1);
    assert(spine_ok(g, ws, prev, sp, 0, reg, 0, false));
    assert forall|n: int, i: int|
        0 <= n < g.len() && 0 <= i < g[n].edges.len() implies rank2[(#[trigger] g[n].edges[i]).1] < rank2[n] by {
        let t = g[n].edges[i].1;
        if n == 0 {
            let es = g[0].edges;
            let d = es[i].0;
            lemma_label_at(es, d, i, 0);
            assert(reg.contains(t));
            assert(t != 0) by {
                assert(!reg.contains(sp[0]));
            }
            lemma_max_target_rank(es, rank, i);
        } else {
            assert(!sp.contains(n)) by {
                if sp.contains(n) {
                    let j = choose|j: int| 0 <= j < sp.len() && sp[j] == n;
                }
            }
            assert(!sp.contains(t));
            assert(t != 0) by {
                assert(sp[0] == 0);
            }
        }
    }
}

/// Facts of the builder's state that its code needs.
proof fn lemma_inv_basic(
    g: Seq<NodeModel>,
    ws: Set<Seq<char>>,
    prev: Seq<char>,
    sp: Seq<int>,
    reg: Seq<int>,
    rank: Seq<nat>,
    m: int,
    pending: bool,
)
    requires
        builder_inv(g, ws, prev, sp, reg, rank, m, pending),
    ensures
        graph_wf(g),
        sp.len() == m + 1,
        sp[0] == 0,
        0 <= m <= prev.len(),
        forall|i: int| 0 <= i <= m ==> 0 <= #[trigger] sp[i] < g.len(),
        forall|k: int| 0 <= k < reg.len() ==> 0 <= #[trigger] reg[k] < g.len(),
        rank.len() == g.len(),
        forall|u: Seq<char>| #[trigger] ws.contains(u) ==> !lex_lt(prev, u),
        reg_distinct(g, reg),
        !reg.contains(sp[0]),
        prev.len() > 0 ==> ws.contains(prev),
{
    reveal(builder_inv);
}

/// No word holds `*`.
pub open spec fn no_star_words(ws: Set<Seq<char>>) -> bool {
    forall|w: Seq<char>| #[trigger] ws.contains(w) ==> !w.contains('*')
}

/// Pointing an edge labelled other than `*` somewhere keeps a graph free of `*` edges.
proof fn lemma_star_free_set_label(g: Seq<NodeModel>, n: int, c: char, m: int)
    requires
        star_free(g),
        graph_wf(g),
        0 <= n < g.len(),
        c != '*',
    ensures
        star_free(g.update(n, NodeModel { edges: set_label(g[n].edges, c, m), ..g[n] })),
{
    let g2 = g.update(n, NodeModel { edges: set_label(g[n].edges, c, m), ..g[n] });
    assert forall|k: int| 0 <= k < g2.len() implies #[trigger] label_target(g2[k].edges, '*') is None by {
        if k == n {
            lemma_set_label_target(g[n].edges, c, m, '*');
        } else {
            assert(g2[k] == g[k]);
        }
    }
}

/// Adding a node without edges, or changing a node's finality, keeps a graph free of `*` edges.
proof fn lemma_star_free_node(g: Seq<NodeModel>, x: int, f: bool)
    requires
        star_free(g),
        0 <= x < g.len(),
    ensures
        star_free(g.push(NodeModel { is_final: f, edges: Seq::empty() })),
        star_free(g.update(x, NodeModel { is_final: f, ..g[x] })),
{
    let e = Seq::<(char, int)>::empty();
    lemma_label_absent(e, '*', 0);
    let g1 = g.push(NodeModel { is_final: f, edges: e });
    assert forall|k: int| 0 <= k < g1.len() implies #[trigger] label_target(g1[k].edges, '*') is None by {
        if k < g.len() {
            assert(g1[k] == g[k]);
        }
    }
    let g2 = g.update(x, NodeModel { is_final: f, ..g[x] });
    assert forall|k: int| 0 <= k < g2.len() implies #[trigger] label_target(g2[k].edges, '*') is None by {
        assert(g2[k].edges == g[k].edges);
    }
}

/// Once the path is back at the root, every node that a nonempty word leads
/// to from the root is registered.
proof fn lemma_reach_reg(
    g: Seq<NodeModel>,
    ws: Set<Seq<char>>,
    prev: Seq<char>,
    sp: Seq<int>,
    reg: Seq<int>,
    rank: Seq<nat>,
    u: Seq<char>,
)
    requires
        builder_inv(g, ws, prev, sp, reg, rank, 0, false),
        u.len() > 0,
        walk(g, 0, u) is Some,
    ensures
        reg.contains(walk(g, 0, u)->0),
    decreases u.len(),
{
    reveal(builder_inv);
    let u1 = u.drop_last();
    let c = u.last();
    if u1.len() == 0 {
        assert(walk(g, 0, u1) == Some(0int));
        assert(spine_ok(g, ws, prev, sp, 0, reg, 0, false));
        assert(label_target(g[sp[0]].edges, c) is Some);
    } else {
        lemma_reach_reg(g, ws, prev, sp, reg, rank, u1);
        let m1 = walk(g, 0, u1)->0;
        let es = g[m1].edges;
        let k = choose|k: int| 0 <= k < reg.len() && reg[k] == m1;
        lemma_target_of(es, c);
        let e = choose|e: int| 0 <= e < es.len() && #[trigger] es[e] == (c, label_target(es, c)->0);
        assert(reg.contains(g[reg[k]].edges[e].1));
    }
}

/// Reading `u` to `m` and then `v` from `m` is reading `u + v`.
proof fn lemma_walk_accepts_iff(g: Seq<NodeModel>, r: int, u: Seq<char>, v: Seq<char>)
    requires
        graph_wf(g),
        0 <= r < g.len(),
        walk(g, r, u) is Some,
    ensures
        accepts(g, r, u + v) == accepts(g, walk(g, r, u)->0, v),
    decreases u.len(),
{
    if u.len() == 0 {
        assert(u + v =~= v);
    } else {
        let u1 = u.drop_last();
        let c = u.last();
        let m1 = walk(g, r, u1)->0;
        lemma_walk_in_graph(g, r, u1);
        let cv = seq![c] + v;
        assert(cv[0] == c);
        assert(cv.drop_first() =~= v);
        assert(accepts(g, m1, cv) == accepts(g, walk(g, r, u)->0, v));
        lemma_walk_accepts_iff(g, r, u1, cv);
        assert(u1 + cv =~= u + v);
    }
}

/// A word read from `x` is no longer than the rank of `x`.
proof fn lemma_rank_len(g: Seq<NodeModel>, rank: Seq<nat>, x: int, v: Seq<char>)
    requires
        graph_wf(g),
        has_ranks(g, rank),
        accepts(g, x, v),
    ensures
        v.len() <= rank[x],
    decreases v.len(),
{
    if v.len() > 0 {
        let es = g[x].edges;
        let t = label_target(es, v[0])->0;
        lemma_target_of(es, v[0]);
        let e = choose|e: int| 0 <= e < es.len() && #[trigger] es[e] == (v[0], t);
        assert(rank[g[x].edges[e].1] < rank[x]);
        lemma_rank_len(g, rank, t, v.drop_first());
    }
}

/// `u` written `k` times.
spec fn repeat(u: Seq<char>, k: nat) -> Seq<char>
    decreases k,
{
    if k == 0 {
        Seq::empty()
    } else {
        u + repeat(u, (k - 1) as nat)
    }
}

proof fn lemma_repeat_len(u: Seq<char>, k: nat)
    requires
        u.len() > 0,
    ensures
        repeat(u, k).len() >= k,
    decreases k,
{
    if k > 0 {
        lemma_repeat_len(u, (k - 1) as nat);
    }
}

/// If `u` leads from the root to `y` and both read the same words, any word
/// `y` reads may be preceded by `u` any number of times.
proof fn lemma_pump(g: Seq<NodeModel>, u: Seq<char>, y: int, v0: Seq<char>, k: nat)
    requires
        graph_wf(g),
        0 < g.len(),
        walk(g, 0, u) == Some(y),
        same_words(g, 0, y),
        accepts(g, y, v0),
    ensures
        accepts(g, y, repeat(u, k) + v0),
    decreases k,
{
    if k == 0 {
        assert(repeat(u, k) + v0 =~= v0);
    } else {
        lemma_pump(g, u, y, v0, (k - 1) as nat);
        let x = repeat(u, (k - 1) as nat) + v0;
        lemma_walk_accepts_iff(g, 0, u, x);
        assert(accepts(g, 0, u + x) == accepts(g, y, u + x));
        assert(u + x =~= repeat(u, k) + v0);
    }
}

/// In a graph with ranks, no node that a nonempty word leads to from the root
/// reads the same words as the root, if it reads any.
proof fn lemma_no_loop(g: Seq<NodeModel>, rank: Seq<nat>, u: Seq<char>, y: int, v0: Seq<char>)
    requires
        graph_wf(g),
        0 < g.len(),
        has_ranks(g, rank),
        u.len() > 0,
        walk(g, 0, u) == Some(y),
        accepts(g, y, v0),
    ensures
        !same_words(g, 0, y),
{
    if same_words(g, 0, y) {
        let k = (rank[y] + 1) as nat;
        lemma_pump(g, u, y, v0, k);
        lemma_rank_len(g, rank, y, repeat(u, k) + v0);
        lemma_repeat_len(u, k);
    }
}

/// Once the path is back at the root, distinct nodes that words lead to from
/// the root read different words.
proof fn lemma_minimal(
    g: Seq<NodeModel>,
    ws: Set<Seq<char>>,
    prev: Seq<char>,
    sp: Seq<int>,
    reg: Seq<int>,
    rank: Seq<nat>,
    rank2: Seq<nat>,
)
    requires
        builder_inv(g, ws, prev, sp, reg, rank, 0, false),
        has_ranks(g, rank2),
    ensures
        forall|u1: Seq<char>, u2: Seq<char>|
            #![trigger walk(g, 0, u1), walk(g, 0, u2)]
            walk(g, 0, u1) is Some && walk(g, 0, u2) is Some && same_words(g, walk(g, 0, u1)->0, walk(g, 0, u2)->0)
                ==> walk(g, 0, u1) == walk(g, 0, u2),
{
    lemma_inv_basic(g, ws, prev, sp, reg, rank, 0, false);
    assert forall|u1: Seq<char>, u2: Seq<char>|
        #![trigger walk(g, 0, u1), walk(g, 0, u2)]
        walk(g, 0, u1) is Some && walk(g, 0, u2) is Some && same_words(g, walk(g, 0, u1)->0, walk(g, 0, u2)->0)
            implies walk(g, 0, u1) == walk(g, 0, u2) by {
        let n1 = walk(g, 0, u1)->0;
        let n2 = walk(g, 0, u2)->0;
        if u1.len() > 0 {
            lemma_reach_reg(g, ws, prev, sp, reg, rank, u1);
        }
        if u2.len() > 0 {
            lemma_reach_reg(g, ws, prev, sp, reg, rank, u2);
        }
        if u1.len() > 0 && u2.len() > 0 {
            lemma_apart_use(g, reg, n1, n2);
        } else if u1.len() == 0 && u2.len() > 0 {
            assert(n1 == 0);
            let v0 = lemma_live_use(g, reg, n2);
            lemma_no_loop(g, rank2, u2, n2, v0);
        } else if u1.len() > 0 && u2.len() == 0 {
            assert(n2 == 0);
            assert(same_words(g, 0, n1)) by {
                assert forall|v: Seq<char>| #[trigger] accepts(g, 0, v) == accepts(g, n1, v) by {
                    assert(accepts(g, n1, v) == accepts(g, n2, v));
                }
            }
            let v0 = lemma_live_use(g, reg, n1);
            lemma_no_loop(g, rank2, u1, n1, v0);
        }
    }
}

// ---------------------------------------------------------------------------
// The builder.
// ---------------------------------------------------------------------------

/// A node on the path of the last word added, with the edge that leads to it.
struct UncheckedNode {
    parent: usize,
    ch: char,
    child: usize,
}

/// Builds a set from words added in order, sharing the nodes of equal
/// endings: a node whose edges can no longer change is replaced by an equal
/// one built before, if there is one.
pub struct Builder {
    previous_word: Vec<char>,
    root: TokenSet,
    unchecked_nodes: Vec<UncheckedNode>,
    minimized_nodes: Vec<usize>,
    words: Ghost<Set<Seq<char>>>,
    spine: Ghost<Seq<int>>,
    rank: Ghost<Seq<nat>>,
}

proof fn lemma_unchecked_push(un1: Seq<UncheckedNode>, e: UncheckedNode, sp1: Seq<int>, w: Seq<char>, i: int, next: int)
    requires
        un1.len() == i,
        sp1.len() == i + 1,
        i < w.len(),
        e.parent == sp1[i],
        e.ch == w[i],
        e.child == next,
        forall|j: int|
            0 <= j < un1.len() ==> {
                let u = #[trigger] un1[j];
                &&& u.parent == sp1[j]
                &&& u.ch == w[j]
                &&& u.child == sp1[j + 1]
            },
    ensures
        un1.push(e).len() == i + 1,
        forall|j: int|
            0 <= j < un1.push(e).len() ==> {
                let u = #[trigger] un1.push(e)[j];
                &&& u.parent == sp1.push(next)[j]
                &&& u.ch == w[j]
                &&& u.child == sp1.push(next)[j + 1]
            },
{
    assert forall|j: int| 0 <= j < un1.push(e).len() implies {
        let u = #[trigger] un1.push(e)[j];
        &&& u.parent == sp1.push(next)[j]
        &&& u.ch == w[j]
        &&& u.child == sp1.push(next)[j + 1]
    } by {
        if j < i {
            assert(un1.push(e)[j] == un1[j]);
        }
    }
}

/// The length of the common prefix of `a` and `b`.
fn common_prefix(a: &Vec<char>, b: &Vec<char>) -> (r: usize)
    ensures
        r <= a@.len(),
        r <= b@.len(),
        a@.take(r as int) == b@.take(r as int),
        r < a@.len() && r < b@.len() ==> a@[r as int] != b@[r as int],
{
    let mut i: usize = 0;
    while i < a.len() && i < b.len() && a[i] == b[i]
        invariant
            i <= a@.len(),
            i <= b@.len(),
            forall|j: int| 0 <= j < i ==> #[trigger] a@[j] == b@[j],
        decreases a.len() - i,
    {
        i = i + 1;
    }
    proof {
        lemma_common_prefix(a@, b@, i as int);
    }
    i
}

impl Builder {
    /// The words added so far.
    pub closed spec fn words(&self) -> Set<Seq<char>> {
        self.words@
    }

    /// The last word added, or the empty word.
    pub closed spec fn last_word(&self) -> Seq<char> {
        self.previous_word@
    }

    /// The set being built.
    pub closed spec fn set(&self) -> TokenSet {
        self.root
    }

    spec fn reg(&self) -> Seq<int> {
        self.minimized_nodes@.map_values(|x: usize| x as int)
    }

    /// The builder's state is consistent.
    pub closed spec fn inv(&self) -> bool {
        &&& self.root.wf()
        &&& self.root.root() == 0
        &&& builder_inv(
            self.root.graph(),
            self.words@,
            self.previous_word@,
            self.spine@,
            self.reg(),
            self.rank@,
            self.unchecked_nodes@.len() as int,
            false,
        )
        &&& forall|i: int|
            0 <= i < self.unchecked_nodes@.len() ==> {
                let u = #[trigger] self.unchecked_nodes@[i];
                &&& u.parent == self.spine@[i]
                &&& u.ch == self.previous_word@[i]
                &&& u.child == self.spine@[i + 1]
            }
        &&& no_star_words(self.words@) ==> star_free(self.root.graph())
    }

    /// More words can be added: `finish` has not been called since the last one.
    pub closed spec fn in_progress(&self) -> bool {
        self.unchecked_nodes@.len() == self.previous_word@.len()
    }

    /// A builder with no words, whose set is empty.
    pub fn new() -> (b: Builder)
        ensures
            b.inv(),
            b.in_progress(),
            b.words() == Set::<Seq<char>>::empty(),
            b.last_word() == Seq::<char>::empty(),
    {
        let root = TokenSet::new();
        let minimized_nodes: Vec<usize> = Vec::new();
        proof {
            lemma_init();
            assert(minimized_nodes@.map_values(|x: usize| x as int) =~= Seq::<int>::empty());
            lemma_label_absent(root.graph()[0].edges, '*', 0);
        }
        let ghost sp0 = seq![0int];
        let ghost rank0 = seq![0nat];
        Builder {
            previous_word: Vec::new(),
            root,
            unchecked_nodes: Vec::new(),
            minimized_nodes,
            words: Ghost(Set::empty()),
            spine: Ghost(sp0),
            rank: Ghost(rank0),
        }
    }

    /// The set being built.
    pub fn root(&self) -> (r: &TokenSet)
        ensures
            *r == self.set(),
    {
        &self.root
    }

    /// The set built, taken out of the builder.
    pub fn into_root(self) -> (r: TokenSet)
        ensures
            r == self.set(),
    {
        self.root
    }

    /// Settles the path of the last word down to its first `down_to`
    /// characters: each node below is replaced by an equal registered node,
    /// or registered itself.
    fn minimize(&mut self, down_to: usize)
        requires
            old(self).inv(),
        ensures
            final(self).inv(),
            final(self).unchecked_nodes@.len() == (if down_to < old(self).unchecked_nodes@.len() {
                down_to as int
            } else {
                old(self).unchecked_nodes@.len() as int
            }),
            final(self).words() == old(self).words(),
            final(self).last_word() == old(self).last_word(),
    {
        while self.unchecked_nodes.len() > down_to
            invariant
                self.inv(),
                self.words() == old(self).words(),
                self.last_word() == old(self).last_word(),
                self.unchecked_nodes@.len() >= (if down_to < old(self).unchecked_nodes@.len() {
                    down_to as int
                } else {
                    old(self).unchecked_nodes@.len() as int
                }),
                self.unchecked_nodes@.len() <= old(self).unchecked_nodes@.len(),
            decreases self.unchecked_nodes.len(),
        {
            let ghost g = self.root.graph();
            let ghost ws = self.words@;
            let ghost prev = self.previous_word@;
            let ghost sp = self.spine@;
            let ghost reg = self.reg();
            let ghost rank = self.rank@;
            let ghost m = self.unchecked_nodes@.len() as int;
            let ghost unchecked = self.unchecked_nodes@;
            proof {
                lemma_inv_basic(g, ws, prev, sp, reg, rank, m, false);
            }
            let u = self.unchecked_nodes.pop().unwrap();
            proof {
                assert(u == unchecked[m - 1]);
                assert(self.unchecked_nodes@ =~= unchecked.drop_last());
            }
            let mut k: usize = 0;
            let mut found: Option<usize> = None;
            while k < self.minimized_nodes.len() && found.is_none()
                invariant
                    self.root.graph() == g,
                    self.reg() == reg,
                    self.root.wf(),
                    u.child < g.len(),
                    k <= self.minimized_nodes@.len(),
                    forall|q: int| 0 <= q < reg.len() ==> 0 <= #[trigger] reg[q] < g.len(),
                    found matches Some(y) ==> reg.contains(y as int) && same_state(g, y as int, u.child as int),
                    found is None ==> forall|q: int| 0 <= q < k ==> !same_state(g, #[trigger] reg[q], u.child as int),
                decreases self.minimized_nodes.len() - k,
            {
                let y = self.minimized_nodes[k];
                proof {
                    assert(reg[k as int] == y as int);
                }
                if self.root.same_node(y, u.child) {
                    found = Some(y);
                }
                k = k + 1;
            }
            match found {
                Some(y) => {
                    self.root.set_edge(u.parent, u.ch, y);
                    proof {
                        lemma_pop_replace(g, ws, prev, sp, reg, rank, m, y as int);
                        if no_star_words(ws) {
                            assert(ws.contains(prev));
                            assert(prev[m - 1] != '*') by {
                                if prev[m - 1] == '*' {
                                    assert(prev.contains('*'));
                                }
                            }
                            lemma_star_free_set_label(g, u.parent as int, u.ch, y as int);
                        }
                    }
                },
                None => {
                    self.minimized_nodes.push(u.child);
                    proof {
                        assert(self.reg() =~= reg.push(u.child as int));
                        lemma_pop_register(g, ws, prev, sp, reg, rank, m);
                    }
                },
            }
            self.spine = Ghost(sp.drop_last());
            self.rank = Ghost(rank.update(sp[m], max_target_rank(g[sp[m]].edges, rank) + 1));
            proof {
                assert forall|i: int| 0 <= i < self.unchecked_nodes@.len() implies {
                    let v = #[trigger] self.unchecked_nodes@[i];
                    &&& v.parent == self.spine@[i]
                    &&& v.ch == self.previous_word@[i]
                    &&& v.child == self.spine@[i + 1]
                } by {
                    assert(self.unchecked_nodes@[i] == unchecked[i]);
                }
            }
        }
    }

    /// Adds `word`, which must come no earlier than the last word added.
    pub fn insert(&mut self, word: &str)
        requires
            old(self).inv(),
            old(self).in_progress(),
            !lex_lt(word@, old(self).last_word()),
        ensures
            final(self).inv(),
            final(self).in_progress(),
            final(self).words() == old(self).words().insert(word@),
            final(self).last_word() == word@,
            final(self).set().words() == final(self).words(),
    {
        let w = chars_of(word);
        let cp = common_prefix(&self.previous_word, &w);
        self.minimize(cp);
        let ghost g = self.root.graph();
        let ghost ws = self.words@;
        let ghost prev = self.previous_word@;
        let ghost sp = self.spine@;
        let ghost reg = self.reg();
        let ghost rank = self.rank@;
        proof {
            lemma_inv_basic(g, ws, prev, sp, reg, rank, cp as int, false);
            lemma_begin(g, ws, prev, sp, reg, rank, cp as int, w@);
            if (cp as int) < w@.len() {
                lemma_beyond(ws, prev, w@, cp as int);
            }
        }
        let ghost ws2 = ws.insert(w@);
        let ghost un0 = self.unchecked_nodes@;
        proof {
            assert(un0.len() == cp);
            assert forall|j: int| 0 <= j < cp implies #[trigger] w@[j] == prev[j] by {
                assert(w@[j] == w@.take(cp as int)[j]);
                assert(prev[j] == prev.take(cp as int)[j]);
            }
        }
        proof {
            if no_star_words(ws2) {
                assert forall|u: Seq<char>| #[trigger] ws.contains(u) implies !u.contains('*') by {
                    assert(ws2.contains(u));
                }
            }
        }
        self.words = Ghost(ws2);
        self.previous_word = w;
        let mut node: usize = if cp == 0 {
            0
        } else {
            self.unchecked_nodes[cp - 1].child
        };
        let mut i: usize = cp;
        while i < self.previous_word.len()
            invariant
                self.root.wf(),
                self.root.root() == 0,
                self.words@ == ws2,
                self.previous_word@ == w@,
                cp <= i <= w@.len(),
                (cp as int) < w@.len() ==> beyond(ws2, w@, cp as int),
                builder_inv(self.root.graph(), ws2, w@, self.spine@, self.reg(), self.rank@, i as int, true),
                no_star_words(ws2) ==> star_free(self.root.graph()),
                self.unchecked_nodes@.len() == i,
                node == self.spine@[i as int],
                forall|j: int|
                    0 <= j < self.unchecked_nodes@.len() ==> {
                        let u = #[trigger] self.unchecked_nodes@[j];
                        &&& u.parent == self.spine@[j]
                        &&& u.ch == self.previous_word@[j]
                        &&& u.child == self.spine@[j + 1]
                    },
            decreases self.previous_word.len() - i,
        {
            let ghost g1 = self.root.graph();
            let ghost sp1 = self.spine@;
            let ghost rank1 = self.rank@;
            let ghost un1 = self.unchecked_nodes@;
            proof {
                lemma_inv_basic(g1, ws2, w@, sp1, self.reg(), rank1, i as int, true);
                lemma_extend(g1, ws2, w@, sp1, self.reg(), rank1, i as int, cp as int);
            }
            let c = self.previous_word[i];
            let next = self.root.add_node(false);
            let ghost g1b = self.root.graph();
            proof {
                if no_star_words(ws2) {
                    lemma_star_free_node(g1, node as int, false);
                }
            }
            self.root.set_edge(node, c, next);
            proof {
                if no_star_words(ws2) {
                    assert(ws2.contains(w@));
                    assert(c != '*') by {
                        if c == '*' {
                            assert(w@.contains('*'));
                        }
                    }
                    lemma_star_free_set_label(g1b, node as int, c, next as int);
                }
            }
            let entry = UncheckedNode { parent: node, ch: c, child: next };
            let ghost e = entry;
            self.unchecked_nodes.push(entry);
            self.spine = Ghost(sp1.push(next as int));
            self.rank = Ghost(rank1.push(0));
            proof {
                lemma_unchecked_push(un1, e, sp1, w@, i as int, next as int);
                assert(self.unchecked_nodes@ == un1.push(e));
                assert(self.spine@ == sp1.push(next as int));
            }
            node = next;
            i = i + 1;
        }
        let ghost g3 = self.root.graph();
        proof {
            lemma_inv_basic(g3, ws2, w@, self.spine@, self.reg(), self.rank@, i as int, true);
            lemma_end(g3, ws2, w@, self.spine@, self.reg(), self.rank@, i as int);
        }
        self.root.set_final(node, true);
        proof {
            if no_star_words(ws2) {
                lemma_star_free_node(g3, node as int, true);
            }
            assert forall|v: Seq<char>| #[trigger] self.root.words().contains(v) == ws2.contains(v) by {
                lemma_spine_lang(self.root.graph(), ws2, w@, self.spine@, self.reg(), self.rank@, i as int, 0, v);
                assert(w@.take(0) + v =~= v);
            }
            assert(self.root.words() =~= ws2);
        }
    }

    /// Settles the whole path: the set is then complete, and no walk through
    /// it comes back to a node.
    pub fn finish(&mut self)
        requires
            old(self).inv(),
        ensures
            final(self).inv(),
            final(self).words() == old(self).words(),
            final(self).last_word() == old(self).last_word(),
            final(self).set().words() == final(self).words(),
            final(self).set().is_acyclic(),
            final(self).set().is_minimal(),
            no_star_words(final(self).words()) ==> final(self).set().has_no_wildcards(),
    {
        self.minimize(0);
        proof {
            let g = self.root.graph();
            lemma_inv_basic(g, self.words@, self.previous_word@, self.spine@, self.reg(), self.rank@, 0, false);
            lemma_finish(g, self.words@, self.previous_word@, self.spine@, self.reg(), self.rank@);
            let rank2 = self.rank@.update(0, max_target_rank(g[0].edges, self.rank@) + 1);
            assert(has_ranks(self.root.graph(), rank2));
            assert forall|v: Seq<char>| #[trigger] self.root.words().contains(v) == self.words@.contains(v) by {
                lemma_spine_lang(g, self.words@, self.previous_word@, self.spine@, self.reg(), self.rank@, 0, 0, v);
                assert(self.previous_word@.take(0) + v =~= v);
            }
            assert(self.root.words() =~= self.words@);
            lemma_minimal(g, self.words@, self.previous_word@, self.spine@, self.reg(), self.rank@, rank2);
            if no_star_words(self.words@) {
                lemma_star_free_no_wildcards(self.root);
            }
        }
    }
}

impl TokenSet {
    /// The set of the given words, which must come in order, each no earlier
    /// than the one before.
    pub fn from_array(arr: &[String]) -> (r: TokenSet)
        requires
            sorted_words(strings_view(arr@)),
        ensures
            r.wf(),
            r.is_acyclic(),
            r.is_minimal(),
            forall|w: Seq<char>| #[trigger] r.words().contains(w) <==> strings_view(arr@).contains(w),
            (forall|w: Seq<char>| #[trigger] strings_view(arr@).contains(w) ==> !w.contains('*')) ==> r.has_no_wildcards()
                && star_free(r.graph()),
    {
        let ghost ws = strings_view(arr@);
        let mut builder = Builder::new();
        let mut i: usize = 0;
        proof {
            assert(builder.words() =~= Set::new(|w: Seq<char>| ws.take(0).contains(w)));
        }
        while i < arr.len()
            invariant
                ws == strings_view(arr@),
                sorted_words(ws),
                i <= arr@.len(),
                builder.inv(),
                builder.in_progress(),
                builder.words() == Set::new(|w: Seq<char>| ws.take(i as int).contains(w)),
                i > 0 ==> builder.last_word() == ws[i - 1],
                i == 0 ==> builder.last_word() == Seq::<char>::empty(),
            decreases arr.len() - i,
        {
            let word = arr[i].as_str();
            proof {
                assert(ws[i as int] == arr@[i as int]@);
                if i > 0 {
                    assert(!lex_lt(ws[i as int], ws[i - 1]));
                }
            }
            builder.insert(word);
            proof {
                assert(builder.words() =~= Set::new(|w: Seq<char>| ws.take(i + 1).contains(w))) by {
                    assert forall|w: Seq<char>| builder.words().contains(w) == ws.take(i + 1).contains(w) by {
                        if ws.take(i + 1).contains(w) {
                            let j = choose|j: int| 0 <= j < i + 1 && #[trigger] ws.take(i + 1)[j] == w;
                            if j < i {
                                assert(ws.take(i as int)[j] == w);
                            }
                        }
                        if ws.take(i as int).contains(w) {
                            let j = choose|j: int| 0 <= j < i && #[trigger] ws.take(i as int)[j] == w;
                            assert(ws.take(i + 1)[j] == w);
                        }
                        if w == ws[i as int] {
                            assert(ws.take(i + 1)[i as int] == w);
                        }
                    }
                }
            }
            i = i + 1;
        }
        builder.finish();
        let r = builder.into_root();
        proof {
            assert(ws.take(ws.len() as int) =~= ws);
            if forall|w: Seq<char>| #[trigger] ws.contains(w) ==> !w.contains('*') {
                assert forall|w: Seq<char>| #[trigger] builder.words().contains(w) implies !w.contains('*') by {
                    assert(ws.take(ws.len() as int).contains(w));
                }
            }
        }
        r
    }
}


/// Whether the word `a` comes before the word `b`.
pub fn word_before(a: &str, b: &str) -> (r: bool)
    ensures
        r == lex_lt(a@, b@),
{
    let x = chars_of(a);
    let y = chars_of(b);
    let mut k: usize = 0;
    while k < x.len() && k < y.len() && x[k] == y[k]
        invariant
            0 <= k <= x@.len(),
            k <= y@.len(),
            x@.take(k as int) == y@.take(k as int),
        decreases x.len() - k,
    {
        proof {
            assert(x@.take(k + 1) =~= x@.take(k as int).push(x@[k as int]));
            assert(y@.take(k + 1) =~= y@.take(k as int).push(y@[k as int]));
        }
        k = k + 1;
    }
    proof {
        lemma_lex_first_diff(x@, y@, k as int);
    }
    if k < x.len() && k < y.len() {
        (x[k] as u32) < (y[k] as u32)
    } else {
        k == x.len() && k < y.len()
    }
}

/// Whether each word comes no earlier than the one before it.
pub fn words_in_order(ws: &Vec<String>) -> (r: bool)
    ensures
        r == sorted_words(strings_view(ws@)),
{
    let ghost v = strings_view(ws@);
    let mut i: usize = 1;
    while i < ws.len()
        invariant
            v == strings_view(ws@),
            1 <= i,
            forall|j: int| 0 < j < i && j < v.len() ==> !lex_lt(#[trigger] v[j], v[j - 1]),
        decreases ws.len() - i,
    {
        if word_before(ws[i].as_str(), ws[i - 1].as_str()) {
            proof {
                assert(v[i as int] == ws@[i as int]@);
                assert(v[i - 1] == ws@[i - 1]@);
            }
            return false;
        }
        i = i + 1;
    }
    true
}

} // verus!
