use vstd::prelude::*;
use vstd::utf8::is_ascii_chars;
use crate::token_set::{
    TokenSet, NodeModel, label_target, set_label, graph_wf, accepts, labels_distinct, lemma_label_at,
    lemma_set_label_target,
};
use crate::token_set_intersect::{extends, lemma_accepts_mono, lemma_extends_trans};
use crate::token_set::Clause;
use crate::token_set_pattern::pattern_matches;
use crate::token_set::accepts_wild;

verus! {

// ---------------------------------------------------------------------------
// What the fuzzy set holds.
// ---------------------------------------------------------------------------

/// Whether the set built for the string `s` with `e` edits allowed ends a word
/// at the path `p`, read from the node where `s` starts. At each step the
/// first character may be kept; and, while edits remain, a character may be
/// inserted before it (an edge `*`), it may be dropped, it may be replaced (an
/// edge `*`), or the first two may be swapped.
pub open spec fn fuzzy_final(s: Seq<char>, e: nat, p: Seq<char>) -> bool
    decreases e, s.len(),
{
    let keep = s.len() > 0 && ((s.len() == 1 && p == seq![s[0]]) || (p.len() > 0 && p[0] == s[0]
        && fuzzy_final(s.drop_first(), e, p.drop_first())));
    if e == 0 {
        keep
    } else {
        let insert = (s.len() == 0 && p == seq!['*']) || (p.len() > 0 && p[0] == '*' && fuzzy_final(
            s,
            (e - 1) as nat,
            p.drop_first(),
        ));
        let delete = (s.len() > 1 && fuzzy_final(s.drop_first(), (e - 1) as nat, p)) || (s.len() == 1
            && p.len() == 0);
        let replace = s.len() > 0 && ((s.len() == 1 && p == seq!['*']) || (p.len() > 0 && p[0] == '*'
            && fuzzy_final(s.drop_first(), (e - 1) as nat, p.drop_first())));
        let swap = s.len() > 1 && p.len() > 0 && p[0] == s[1] && fuzzy_final(
            seq![s[0]] + s.subrange(2, s.len() as int),
            (e - 1) as nat,
            p.drop_first(),
        );
        keep || insert || delete || replace || swap
    }
}

/// The paths of `fuzzy_final` that keep the first character.
pub open spec fn keep_case(s: Seq<char>, e: nat, p: Seq<char>) -> bool {
    s.len() > 0 && ((s.len() == 1 && p == seq![s[0]]) || (p.len() > 0 && p[0] == s[0] && fuzzy_final(
        s.drop_first(),
        e,
        p.drop_first(),
    )))
}

/// The paths of `fuzzy_final` that insert a character first.
pub open spec fn insert_case(s: Seq<char>, e: nat, p: Seq<char>) -> bool {
    e > 0 && ((s.len() == 0 && p == seq!['*']) || (p.len() > 0 && p[0] == '*' && fuzzy_final(
        s,
        (e - 1) as nat,
        p.drop_first(),
    )))
}

/// The paths of `fuzzy_final` that drop the first character.
pub open spec fn delete_case(s: Seq<char>, e: nat, p: Seq<char>) -> bool {
    e > 0 && ((s.len() > 1 && fuzzy_final(s.drop_first(), (e - 1) as nat, p)) || (s.len() == 1
        && p.len() == 0))
}

/// The paths of `fuzzy_final` that replace the first character.
pub open spec fn replace_case(s: Seq<char>, e: nat, p: Seq<char>) -> bool {
    e > 0 && s.len() > 0 && ((s.len() == 1 && p == seq!['*']) || (p.len() > 0 && p[0] == '*'
        && fuzzy_final(s.drop_first(), (e - 1) as nat, p.drop_first())))
}

/// The paths of `fuzzy_final` that swap the first two characters.
pub open spec fn swap_case(s: Seq<char>, e: nat, p: Seq<char>) -> bool {
    e > 0 && s.len() > 1 && p.len() > 0 && p[0] == s[1] && fuzzy_final(
        seq![s[0]] + s.subrange(2, s.len() as int),
        (e - 1) as nat,
        p.drop_first(),
    )
}

proof fn lemma_fuzzy_cases(s: Seq<char>, e: nat, p: Seq<char>)
    ensures
        fuzzy_final(s, e, p) == (keep_case(s, e, p) || insert_case(s, e, p) || delete_case(s, e, p)
            || replace_case(s, e, p) || swap_case(s, e, p)),
{
}

// ---------------------------------------------------------------------------
// Words one edit away.
// ---------------------------------------------------------------------------

/// `c` inserted before position `i` of `s`.
pub open spec fn insert_at(s: Seq<char>, i: int, c: char) -> Seq<char> {
    s.take(i) + seq![c] + s.skip(i)
}

/// `s` without its character at `i`.
pub open spec fn delete_at(s: Seq<char>, i: int) -> Seq<char> {
    s.take(i) + s.skip(i + 1)
}

/// `s` with its character at `i` replaced by `c`.
pub open spec fn replace_at(s: Seq<char>, i: int, c: char) -> Seq<char> {
    s.take(i) + seq![c] + s.skip(i + 1)
}

/// `s` with its characters at `i` and `i + 1` swapped.
pub open spec fn swap_at(s: Seq<char>, i: int) -> Seq<char> {
    s.take(i) + seq![s[i + 1], s[i]] + s.skip(i + 2)
}

/// `p` reads as `w` where each `*` of `p` may stand for any character.
pub open spec fn covers(p: Seq<char>, w: Seq<char>) -> bool {
    p.len() == w.len() && forall|i: int| 0 <= i < p.len() ==> #[trigger] p[i] == w[i] || p[i] == '*'
}

/// A string that is not empty is among its own fuzzy paths.
proof fn lemma_fuzzy_word(s: Seq<char>, e: nat)
    requires
        s.len() > 0,
    ensures
        fuzzy_final(s, e, s),
    decreases s.len(),
{
    if s.len() == 1 {
        assert(s =~= seq![s[0]]);
    } else {
        lemma_fuzzy_word(s.drop_first(), e);
    }
}

/// Keeping the first `i` characters of `s` before a path of `s[i..]`.
proof fn lemma_fuzzy_prefix(s: Seq<char>, e: nat, i: int, p: Seq<char>)
    requires
        0 <= i <= s.len(),
        fuzzy_final(s.skip(i), e, p),
    ensures
        fuzzy_final(s, e, s.take(i) + p),
    decreases i,
{
    if i == 0 {
        assert(s.skip(0) =~= s);
        assert(s.take(0) + p =~= p);
    } else {
        let t = s.skip(i - 1);
        let q = seq![s[i - 1]] + p;
        assert(t.drop_first() =~= s.skip(i));
        assert(q[0] == s[i - 1]);
        assert(q.drop_first() =~= p);
        assert(t[0] == s[i - 1]);
        assert(keep_case(t, e, q));
        lemma_fuzzy_cases(t, e, q);
        lemma_fuzzy_prefix(s, e, i - 1, q);
        assert(s.take(i - 1) + q =~= s.take(i) + p);
    }
}

/// With at least one edit allowed, the fuzzy paths of `s` include `s` with a
/// `*` inserted or put in place of a character, `s` with a character dropped,
/// and `s` with two neighbours swapped; and `s` itself, if it is not empty.
pub proof fn law_fuzzy_one_edit(s: Seq<char>, e: nat, i: int)
    requires
        e >= 1,
    ensures
        s.len() > 0 ==> fuzzy_final(s, e, s),
        0 <= i <= s.len() ==> fuzzy_final(s, e, insert_at(s, i, '*')),
        0 <= i < s.len() ==> fuzzy_final(s, e, delete_at(s, i)),
        0 <= i < s.len() ==> fuzzy_final(s, e, replace_at(s, i, '*')),
        0 <= i && i + 1 < s.len() ==> fuzzy_final(s, e, swap_at(s, i)),
{
    let em = (e - 1) as nat;
    if s.len() > 0 {
        lemma_fuzzy_word(s, e);
    }
    if 0 <= i <= s.len() {
        let t = s.skip(i);
        let p = seq!['*'] + t;
        assert(p[0] == '*');
        assert(p.drop_first() =~= t);
        if t.len() == 0 {
            assert(p =~= seq!['*']);
        } else {
            lemma_fuzzy_word(t, em);
        }
        assert(insert_case(t, e, p));
        lemma_fuzzy_cases(t, e, p);
        lemma_fuzzy_prefix(s, e, i, p);
        assert(s.take(i) + p =~= insert_at(s, i, '*'));
    }
    if 0 <= i < s.len() {
        let t = s.skip(i);
        assert(t.drop_first() =~= s.skip(i + 1));
        if t.len() > 1 {
            lemma_fuzzy_word(s.skip(i + 1), em);
        }
        assert(delete_case(t, e, s.skip(i + 1)));
        lemma_fuzzy_cases(t, e, s.skip(i + 1));
        lemma_fuzzy_prefix(s, e, i, s.skip(i + 1));
        let p = seq!['*'] + s.skip(i + 1);
        assert(p[0] == '*');
        assert(p.drop_first() =~= s.skip(i + 1));
        if t.len() == 1 {
            assert(p =~= seq!['*']);
        }
        assert(replace_case(t, e, p));
        lemma_fuzzy_cases(t, e, p);
        lemma_fuzzy_prefix(s, e, i, p);
        assert(s.take(i) + p =~= replace_at(s, i, '*'));
    }
    if 0 <= i && i + 1 < s.len() {
        let t = s.skip(i);
        let q = seq![t[0]] + t.subrange(2, t.len() as int);
        lemma_fuzzy_word(q, em);
        let p = seq![t[1]] + q;
        assert(p[0] == t[1]);
        assert(p.drop_first() =~= q);
        assert(swap_case(t, e, p));
        lemma_fuzzy_cases(t, e, p);
        lemma_fuzzy_prefix(s, e, i, p);
        assert(s.take(i) + p =~= swap_at(s, i));
    }
}

/// A set that holds a path with `*` in it matches every word that the path
/// covers.
pub proof fn law_wildcard_cover(t: TokenSet, p: Seq<char>, w: Seq<char>)
    requires
        t.wf(),
        t.words().contains(p),
        covers(p, w),
    ensures
        t.matches_word(w),
{
    lemma_cover(t.graph(), t.root(), p, w);
}

/// Whatever a set matches, an edge labelled `*` reading any character, is
/// covered by one of its words.
pub proof fn law_wildcard_path(t: TokenSet, w: Seq<char>)
    requires
        t.matches_word(w),
    ensures
        exists|p: Seq<char>| #[trigger] t.words().contains(p) && covers(p, w),
{
    let p = lemma_wild_path(t.graph(), t.root(), w);
    assert(t.words().contains(p));
}

proof fn lemma_wild_path(g: Seq<NodeModel>, n: int, w: Seq<char>) -> (p: Seq<char>)
    requires
        accepts_wild(g, n, w),
    ensures
        accepts(g, n, p),
        covers(p, w),
    decreases w.len(),
{
    if w.len() == 0 {
        Seq::empty()
    } else {
        let rest = w.drop_first();
        let lit = label_target(g[n].edges, w[0]);
        let c = if lit is Some && accepts_wild(g, lit->0, rest) {
            w[0]
        } else {
            '*'
        };
        let t = label_target(g[n].edges, c)->0;
        let q = lemma_wild_path(g, t, rest);
        let p = seq![c] + q;
        assert(p[0] == c);
        assert(p.drop_first() =~= q);
        assert forall|i: int| 0 <= i < p.len() implies #[trigger] p[i] == w[i] || p[i] == '*' by {
            if i > 0 {
                assert(p[i] == q[i - 1]);
                assert(w[i] == rest[i - 1]);
            }
        }
        p
    }
}

proof fn lemma_cover(g: Seq<NodeModel>, n: int, p: Seq<char>, w: Seq<char>)
    requires
        accepts(g, n, p),
        covers(p, w),
    ensures
        accepts_wild(g, n, w),
    decreases p.len(),
{
    if p.len() > 0 {
        let t = label_target(g[n].edges, p[0])->0;
        assert(covers(p.drop_first(), w.drop_first())) by {
            assert forall|i: int| 0 <= i < p.drop_first().len() implies #[trigger] p.drop_first()[i]
                == w.drop_first()[i] || p.drop_first()[i] == '*' by {
                assert(p[i + 1] == w[i + 1] || p[i + 1] == '*');
            }
        }
        lemma_cover(g, t, p.drop_first(), w.drop_first());
        assert(p[0] == w[0] || p[0] == '*');
    }
}

proof fn lemma_covers_star(a: Seq<char>, b: Seq<char>, c: char)
    ensures
        covers(a + seq!['*'] + b, a + seq![c] + b),
{
    let p = a + seq!['*'] + b;
    let w = a + seq![c] + b;
    assert forall|i: int| 0 <= i < p.len() implies #[trigger] p[i] == w[i] || p[i] == '*' by {
        if i < a.len() {
            assert(p[i] == a[i] && w[i] == a[i]);
        } else if i > a.len() {
            assert(p[i] == b[i - a.len() - 1] && w[i] == b[i - a.len() - 1]);
        }
    }
}

proof fn lemma_covers_self(p: Seq<char>)
    ensures
        covers(p, p),
{
}

/// The set built for `s` with at least one edit allowed matches `s`, and
/// every word one edit away from it: a character inserted anywhere, one
/// dropped, one replaced by another, or two neighbours swapped.
pub proof fn law_fuzzy_set_one_edit(t: TokenSet, s: Seq<char>, e: nat, i: int, c: char)
    requires
        t.wf(),
        e >= 1,
        forall|w: Seq<char>| #[trigger] t.words().contains(w) <==> fuzzy_final(s, e, w),
    ensures
        s.len() > 0 ==> t.matches_word(s),
        0 <= i <= s.len() ==> t.matches_word(insert_at(s, i, c)),
        0 <= i < s.len() ==> t.matches_word(delete_at(s, i)),
        0 <= i < s.len() ==> t.matches_word(replace_at(s, i, c)),
        0 <= i && i + 1 < s.len() ==> t.matches_word(swap_at(s, i)),
{
    law_fuzzy_one_edit(s, e, i);
    if s.len() > 0 {
        assert(t.words().contains(s));
        lemma_covers_self(s);
        law_wildcard_cover(t, s, s);
    }
    if 0 <= i <= s.len() {
        assert(t.words().contains(insert_at(s, i, '*')));
        lemma_covers_star(s.take(i), s.skip(i), c);
        law_wildcard_cover(t, insert_at(s, i, '*'), insert_at(s, i, c));
    }
    if 0 <= i < s.len() {
        assert(t.words().contains(delete_at(s, i)));
        lemma_covers_self(delete_at(s, i));
        law_wildcard_cover(t, delete_at(s, i), delete_at(s, i));
        assert(t.words().contains(replace_at(s, i, '*')));
        lemma_covers_star(s.take(i), s.skip(i + 1), c);
        law_wildcard_cover(t, replace_at(s, i, '*'), replace_at(s, i, c));
    }
    if 0 <= i && i + 1 < s.len() {
        assert(t.words().contains(swap_at(s, i)));
        lemma_covers_self(swap_at(s, i));
        law_wildcard_cover(t, swap_at(s, i), swap_at(s, i));
    }
}

/// Each node `o` of the graph is reached from the root by the path `pref[o]`,
/// and a final node ends a path that the whole string `s0` with `d` edits
/// allows.
pub open spec fn trie_inv(g: Seq<NodeModel>, pref: Seq<Seq<char>>, s0: Seq<char>, d: nat) -> bool {
    &&& graph_wf(g)
    &&& g.len() > 0
    &&& pref.len() == g.len()
    &&& pref[0] == Seq::<char>::empty()
    &&& forall|o: int, i: int|
        0 <= o < g.len() && 0 <= i < g[o].edges.len() ==> pref[(#[trigger] g[o].edges[i]).1]
            == pref[o].push(g[o].edges[i].0)
    &&& forall|o: int| 0 <= o < g.len() && #[trigger] g[o].is_final ==> fuzzy_final(s0, d, pref[o])
}

/// Every path that `s` with `e` edits allows from node `o` is, after `u`, one
/// that the whole string allows.
pub open spec fn derived(s0: Seq<char>, d: nat, u: Seq<char>, s: Seq<char>, e: nat) -> bool {
    forall|p: Seq<char>| #[trigger] fuzzy_final(s, e, p) ==> fuzzy_final(s0, d, u + p)
}

proof fn lemma_trie_sound(g: Seq<NodeModel>, pref: Seq<Seq<char>>, s0: Seq<char>, d: nat, o: int, w: Seq<char>)
    requires
        trie_inv(g, pref, s0, d),
        0 <= o < g.len(),
        accepts(g, o, w),
    ensures
        fuzzy_final(s0, d, pref[o] + w),
    decreases w.len(),
{
    if w.len() == 0 {
        assert(pref[o] + w =~= pref[o]);
    } else {
        let es = g[o].edges;
        let i = choose|i: int| 0 <= i < es.len() && es[i].0 == w[0];
        lemma_label_at(es, w[0], i, 0);
        let t = es[i].1;
        assert(pref[t] == pref[o].push(w[0]));
        lemma_trie_sound(g, pref, s0, d, t, w.drop_first());
        assert(pref[o].push(w[0]) + w.drop_first() =~= pref[o] + w);
    }
}

proof fn lemma_trie_add(g: Seq<NodeModel>, pref: Seq<Seq<char>>, s0: Seq<char>, d: nat, o: int, c: char)
    requires
        trie_inv(g, pref, s0, d),
        0 <= o < g.len(),
        label_target(g[o].edges, c) is None,
    ensures
        ({
            let g1 = g.push(NodeModel { is_final: false, edges: Seq::empty() });
            let g2 = g1.update(o, NodeModel { edges: set_label(g1[o].edges, c, g.len() as int), ..g1[o] });
            &&& trie_inv(g2, pref.push(pref[o].push(c)), s0, d)
            &&& extends(g, g2)
            &&& label_target(g2[o].edges, c) == Some(g.len() as int)
        }),
{
    let g1 = g.push(NodeModel { is_final: false, edges: Seq::empty() });
    let x = g.len() as int;
    let g2 = g1.update(o, NodeModel { edges: set_label(g1[o].edges, c, x), ..g1[o] });
    let pref2 = pref.push(pref[o].push(c));
    assert(g1[o] == g[o]);
    lemma_set_label_target(g[o].edges, c, x, c);
    let es = g[o].edges;
    let es2 = set_label(es, c, x);
    assert(es2 == es.push((c, x)));
    assert(graph_wf(g2)) by {
        assert forall|n: int| 0 <= n < g2.len() implies labels_distinct(#[trigger] g2[n].edges) && forall|i: int|
            0 <= i < g2[n].edges.len() ==> 0 <= (#[trigger] g2[n].edges[i]).1 < g2.len() by {
            if n == o {
                assert forall|i: int| 0 <= i < es2.len() implies 0 <= (#[trigger] es2[i]).1 < g2.len() by {
                    if i < es.len() {
                        assert(es2[i] == es[i]);
                    }
                }
            } else if n < g.len() {
                assert(g2[n] == g[n]);
            }
        }
    }
    assert forall|n: int, i: int|
        0 <= n < g2.len() && 0 <= i < g2[n].edges.len() implies pref2[(#[trigger] g2[n].edges[i]).1]
        == pref2[n].push(g2[n].edges[i].0) by {
        if n == o {
            if i < es.len() {
                assert(es2[i] == es[i]);
                assert(es[i].1 < g.len());
            }
        } else {
            assert(g2[n] == g[n]);
            assert(g[n].edges[i].1 < g.len());
        }
    }
    assert forall|n: int| 0 <= n < g2.len() && #[trigger] g2[n].is_final implies fuzzy_final(s0, d, pref2[n]) by {
        assert(pref2[n] == pref[n]);
    }
    assert forall|n: int, e: char|
        0 <= n < g.len() && (#[trigger] label_target(g[n].edges, e)) is Some implies label_target(
            g2[n].edges,
            e,
        ) == label_target(g[n].edges, e) by {
        if n == o {
            lemma_set_label_target(g[o].edges, c, x, e);
        } else {
            assert(g2[n] == g[n]);
        }
    }
}

proof fn lemma_trie_final(g: Seq<NodeModel>, pref: Seq<Seq<char>>, s0: Seq<char>, d: nat, x: int)
    requires
        trie_inv(g, pref, s0, d),
        0 <= x < g.len(),
        fuzzy_final(s0, d, pref[x]),
    ensures
        trie_inv(g.update(x, NodeModel { is_final: true, ..g[x] }), pref, s0, d),
        extends(g, g.update(x, NodeModel { is_final: true, ..g[x] })),
{
    let g2 = g.update(x, NodeModel { is_final: true, ..g[x] });
    assert forall|n: int| 0 <= n < g2.len() implies labels_distinct(#[trigger] g2[n].edges) && forall|i: int|
        0 <= i < g2[n].edges.len() ==> 0 <= (#[trigger] g2[n].edges[i]).1 < g2.len() by {
        assert(g2[n].edges == g[n].edges);
    }
    assert forall|n: int, i: int|
        0 <= n < g2.len() && 0 <= i < g2[n].edges.len() implies pref[(#[trigger] g2[n].edges[i]).1]
        == pref[n].push(g2[n].edges[i].0) by {
        assert(g2[n].edges == g[n].edges);
    }
    assert forall|n: int, e: char|
        0 <= n < g.len() && (#[trigger] label_target(g[n].edges, e)) is Some implies label_target(
            g2[n].edges,
            e,
        ) == label_target(g[n].edges, e) by {
        assert(g2[n].edges == g[n].edges);
    }
}

// ---------------------------------------------------------------------------
// Building the set.
// ---------------------------------------------------------------------------

/// `v` without its first character.
fn tail(v: &Vec<char>) -> (r: Vec<char>)
    requires
        v@.len() > 0,
    ensures
        r@ == v@.drop_first(),
{
    let mut r: Vec<char> = Vec::new();
    let mut i: usize = 1;
    while i < v.len()
        invariant
            1 <= i <= v@.len(),
            r@ == v@.subrange(1, i as int),
        decreases v.len() - i,
    {
        r.push(v[i]);
        i = i + 1;
        proof {
            assert(r@ =~= v@.subrange(1, i as int));
        }
    }
    proof {
        assert(v@.drop_first() =~= v@.subrange(1, v@.len() as int));
    }
    r
}

/// `v` with its first two characters swapped and the first then left out:
/// the first character, followed by all after the second.
fn swap_rest(v: &Vec<char>) -> (r: Vec<char>)
    requires
        v@.len() > 1,
    ensures
        r@ == seq![v@[0]] + v@.subrange(2, v@.len() as int),
{
    let mut r: Vec<char> = Vec::new();
    r.push(v[0]);
    let mut i: usize = 2;
    while i < v.len()
        invariant
            2 <= i <= v@.len(),
            r@ == seq![v@[0]] + v@.subrange(2, i as int),
        decreases v.len() - i,
    {
        r.push(v[i]);
        i = i + 1;
        proof {
            assert(r@ =~= seq![v@[0]] + v@.subrange(2, i as int));
        }
    }
    r
}

impl TokenSet {
    /// The child of `o` along `c`, made if there is none.
    fn child_or_new(
        &mut self,
        o: usize,
        c: char,
        Ghost(s0): Ghost<Seq<char>>,
        Ghost(d): Ghost<nat>,
        Ghost(pref): Ghost<Seq<Seq<char>>>,
    ) -> (r: (usize, Ghost<Seq<Seq<char>>>))
        requires
            old(self).wf(),
            old(self).root() == 0,
            trie_inv(old(self).graph(), pref, s0, d),
            o < old(self).graph().len(),
        ensures
            final(self).wf(),
            final(self).root() == 0,
            trie_inv(final(self).graph(), r.1@, s0, d),
            extends(old(self).graph(), final(self).graph()),
            r.1@.len() >= pref.len(),
            forall|i: int| 0 <= i < pref.len() ==> #[trigger] r.1@[i] == pref[i],
            r.0 < final(self).graph().len(),
            label_target(final(self).graph()[o as int].edges, c) == Some(r.0 as int),
            r.1@[r.0 as int] == pref[o as int].push(c),
    {
        let ghost g = self.graph();
        match self.get_edge(o, c) {
            Some(x) => {
                proof {
                    let es = g[o as int].edges;
                    let i = choose|i: int| 0 <= i < es.len() && es[i].0 == c;
                    lemma_label_at(es, c, i, 0);
                }
                (x, Ghost(pref))
            },
            None => {
                proof {
                    lemma_trie_add(g, pref, s0, d, o as int, c);
                }
                let x = self.add_node(false);
                self.set_edge(o, c, x);
                let ghost pref2 = pref.push(pref[o as int].push(c));
                (x, Ghost(pref2))
            },
        }
    }

    /// Marks `x` final, where its path is one the whole string allows.
    fn mark_final(
        &mut self,
        x: usize,
        Ghost(s0): Ghost<Seq<char>>,
        Ghost(d): Ghost<nat>,
        Ghost(pref): Ghost<Seq<Seq<char>>>,
    )
        requires
            old(self).wf(),
            old(self).root() == 0,
            trie_inv(old(self).graph(), pref, s0, d),
            x < old(self).graph().len(),
            fuzzy_final(s0, d, pref[x as int]),
        ensures
            final(self).wf(),
            final(self).root() == 0,
            trie_inv(final(self).graph(), pref, s0, d),
            extends(old(self).graph(), final(self).graph()),
            final(self).graph()[x as int].is_final,
    {
        proof {
            lemma_trie_final(self.graph(), pref, s0, d, x as int);
        }
        self.set_final(x, true);
    }

    /// Adds under node `o` the paths that `s` with `e` edits allows.
    fn fuzzy_frame(
        &mut self,
        o: usize,
        e: usize,
        s: &Vec<char>,
        Ghost(s0): Ghost<Seq<char>>,
        Ghost(d): Ghost<nat>,
        Ghost(pref): Ghost<Seq<Seq<char>>>,
    ) -> (pref2: Ghost<Seq<Seq<char>>>)
        requires
            old(self).wf(),
            old(self).root() == 0,
            trie_inv(old(self).graph(), pref, s0, d),
            o < old(self).graph().len(),
            derived(s0, d, pref[o as int], s@, e as nat),
        ensures
            final(self).wf(),
            final(self).root() == 0,
            trie_inv(final(self).graph(), pref2@, s0, d),
            extends(old(self).graph(), final(self).graph()),
            pref2@.len() >= pref.len(),
            forall|i: int| 0 <= i < pref.len() ==> #[trigger] pref2@[i] == pref[i],
            forall|p: Seq<char>| #[trigger] fuzzy_final(s@, e as nat, p) ==> accepts(final(self).graph(), o as int, p),
        decreases e, s@.len(),
    {
        let ghost g0 = self.graph();
        let ghost u = pref[o as int];
        let ghost mut pr = pref;
        let ghost sv = s@;
        let ghost en = e as nat;
        // The paths that keep the first character.
        let ghost mut g_keep = g0;
        if s.len() > 0 {
            let c = s[0];
            let (x, p1) = self.child_or_new(o, c, Ghost(s0), Ghost(d), Ghost(pr));
            let ghost g_c = self.graph();
            proof {
                pr = p1@;
            }
            if s.len() == 1 {
                proof {
                    assert(fuzzy_final(sv, en, seq![c]));
                    assert(u + seq![c] =~= u.push(c));
                }
                self.mark_final(x, Ghost(s0), Ghost(d), Ghost(pr));
            }
            let rest = tail(s);
            proof {
                assert forall|p: Seq<char>| #[trigger] fuzzy_final(rest@, en, p) implies fuzzy_final(
                    s0,
                    d,
                    pr[x as int] + p,
                ) by {
                    let cp = seq![c] + p;
                    assert(cp[0] == c);
                    assert(cp.drop_first() =~= p);
                    assert(fuzzy_final(sv, en, cp));
                    assert(u + cp =~= u.push(c) + p);
                }
            }
            let ghost g1 = self.graph();
            let p2 = self.fuzzy_frame(x, e, &rest, Ghost(s0), Ghost(d), Ghost(pr));
            proof {
                assert forall|i: int| 0 <= i < pref.len() implies #[trigger] p2@[i] == pref[i] by {
                    assert(pr[i] == pref[i]);
                }
                pr = p2@;
                g_keep = self.graph();
                lemma_extends_trans(g0, g1, g_keep);
                lemma_extends_trans(g_c, g1, g_keep);
                assert(label_target(g_c[o as int].edges, c) is Some);
                assert forall|p: Seq<char>| #[trigger] keep_case(sv, en, p) implies accepts(
                    g_keep,
                    o as int,
                    p,
                ) by {
                    assert(label_target(g_keep[o as int].edges, c) == Some(x as int));
                    assert(p.len() > 0);
                    assert(p[0] == c);
                    assert(0 <= x < g_keep.len());
                    assert(0 <= o < g_keep.len());
                    if sv.len() == 1 && p == seq![sv[0]] {
                        assert(g_keep[x as int].is_final);
                        assert(p.drop_first() =~= Seq::<char>::empty());
                    } else {
                        assert(fuzzy_final(rest@, en, p.drop_first()));
                    }
                    assert(accepts(g_keep, x as int, p.drop_first()));
                }
            }
        }
        if e == 0 {
            proof {
                assert forall|p: Seq<char>| #[trigger] fuzzy_final(sv, en, p) implies accepts(
                    self.graph(),
                    o as int,
                    p,
                ) by {
                    lemma_fuzzy_cases(sv, en, p);
                    assert(keep_case(sv, en, p));
                }
            }
            return Ghost(pr);
        }
        let ghost em = (en - 1) as nat;
        // The paths that insert a character first.
        let (y, p3) = self.child_or_new(o, '*', Ghost(s0), Ghost(d), Ghost(pr));
        let ghost g_y = self.graph();
        proof {
            pr = p3@;
        }
        if s.len() == 0 {
            proof {
                assert(fuzzy_final(sv, en, seq!['*']));
                assert(u + seq!['*'] =~= u.push('*'));
            }
            self.mark_final(y, Ghost(s0), Ghost(d), Ghost(pr));
        }
        proof {
            assert forall|p: Seq<char>| #[trigger] fuzzy_final(sv, em, p) implies fuzzy_final(
                s0,
                d,
                pr[y as int] + p,
            ) by {
                let cp = seq!['*'] + p;
                assert(cp[0] == '*');
                assert(cp.drop_first() =~= p);
                assert(fuzzy_final(sv, en, cp));
                assert(u + cp =~= u.push('*') + p);
            }
        }
        let ghost g2 = self.graph();
        let p4 = self.fuzzy_frame(y, e - 1, s, Ghost(s0), Ghost(d), Ghost(pr));
        let ghost g_ins = self.graph();
        proof {
            assert forall|i: int| 0 <= i < pref.len() implies #[trigger] p4@[i] == pref[i] by {
                assert(pr[i] == pref[i]);
            }
            pr = p4@;
            lemma_extends_trans(g_keep, g2, g_ins);
            lemma_extends_trans(g_y, g2, g_ins);
            assert(label_target(g_y[o as int].edges, '*') is Some);
            assert forall|p: Seq<char>| #[trigger] insert_case(sv, en, p) implies accepts(g_ins, o as int, p) by {
                assert(label_target(g_ins[o as int].edges, '*') == Some(y as int));
                assert(p.len() > 0);
                assert(p[0] == '*');
                assert(0 <= y < g_ins.len());
                assert(0 <= o < g_ins.len());
                if sv.len() == 0 && p == seq!['*'] {
                    assert(g_ins[y as int].is_final);
                    assert(p.drop_first() =~= Seq::<char>::empty());
                }
                assert(accepts(g_ins, y as int, p.drop_first()));
            }
        }
        // The paths that drop the first character.
        let ghost mut g_del = g_ins;
        if s.len() > 1 {
            let rest = tail(s);
            proof {
                assert forall|p: Seq<char>| #[trigger] fuzzy_final(rest@, em, p) implies fuzzy_final(
                    s0,
                    d,
                    pr[o as int] + p,
                ) by {
                    assert(fuzzy_final(sv, en, p));
                }
            }
            let p5 = self.fuzzy_frame(o, e - 1, &rest, Ghost(s0), Ghost(d), Ghost(pr));
            proof {
                assert forall|i: int| 0 <= i < pref.len() implies #[trigger] p5@[i] == pref[i] by {
                    assert(pr[i] == pref[i]);
                }
                pr = p5@;
                g_del = self.graph();
            }
        }
        if s.len() == 1 {
            proof {
                assert(fuzzy_final(sv, en, Seq::empty()));
                assert(u + Seq::<char>::empty() =~= u);
            }
            self.mark_final(o, Ghost(s0), Ghost(d), Ghost(pr));
            proof {
                g_del = self.graph();
            }
        }
        proof {
            assert forall|p: Seq<char>| #[trigger] delete_case(sv, en, p) implies accepts(g_del, o as int, p) by {
                if sv.len() == 1 && p.len() == 0 {
                    assert(g_del[o as int].is_final);
                }
            }
        }
        // The paths that replace the first character.
        let ghost mut g_rep = g_del;
        if s.len() > 0 {
            let (z, p6) = self.child_or_new(o, '*', Ghost(s0), Ghost(d), Ghost(pr));
            let ghost g_z = self.graph();
            proof {
                pr = p6@;
            }
            if s.len() == 1 {
                proof {
                    assert(fuzzy_final(sv, en, seq!['*']));
                    assert(u + seq!['*'] =~= u.push('*'));
                }
                self.mark_final(z, Ghost(s0), Ghost(d), Ghost(pr));
            }
            let rest = tail(s);
            proof {
                assert forall|p: Seq<char>| #[trigger] fuzzy_final(rest@, em, p) implies fuzzy_final(
                    s0,
                    d,
                    pr[z as int] + p,
                ) by {
                    let cp = seq!['*'] + p;
                    assert(cp[0] == '*');
                    assert(cp.drop_first() =~= p);
                    assert(fuzzy_final(sv, en, cp));
                    assert(u + cp =~= u.push('*') + p);
                }
            }
            let ghost g3 = self.graph();
            let p7 = self.fuzzy_frame(z, e - 1, &rest, Ghost(s0), Ghost(d), Ghost(pr));
            proof {
                assert forall|i: int| 0 <= i < pref.len() implies #[trigger] p7@[i] == pref[i] by {
                    assert(pr[i] == pref[i]);
                }
                pr = p7@;
                g_rep = self.graph();
                lemma_extends_trans(g_del, g3, g_rep);
                lemma_extends_trans(g_z, g3, g_rep);
                assert(label_target(g_z[o as int].edges, '*') is Some);
                assert forall|p: Seq<char>| #[trigger] replace_case(sv, en, p) implies accepts(
                    g_rep,
                    o as int,
                    p,
                ) by {
                    assert(label_target(g_rep[o as int].edges, '*') == Some(z as int));
                    assert(p.len() > 0);
                    assert(p[0] == '*');
                    assert(0 <= z < g_rep.len());
                    assert(0 <= o < g_rep.len());
                    if sv.len() == 1 && p == seq!['*'] {
                        assert(g_rep[z as int].is_final);
                        assert(p.drop_first() =~= Seq::<char>::empty());
                    } else {
                        assert(fuzzy_final(rest@, em, p.drop_first()));
                    }
                    assert(accepts(g_rep, z as int, p.drop_first()));
                }
            }
        }
        // The paths that swap the first two characters.
        let ghost mut g_swap = g_rep;
        if s.len() > 1 {
            let b = s[1];
            let (t, p8) = self.child_or_new(o, b, Ghost(s0), Ghost(d), Ghost(pr));
            let ghost g_t = self.graph();
            proof {
                pr = p8@;
            }
            let swapped = swap_rest(s);
            proof {
                assert forall|p: Seq<char>| #[trigger] fuzzy_final(swapped@, em, p) implies fuzzy_final(
                    s0,
                    d,
                    pr[t as int] + p,
                ) by {
                    let cp = seq![b] + p;
                    assert(cp[0] == b);
                    assert(cp.drop_first() =~= p);
                    assert(fuzzy_final(sv, en, cp));
                    assert(u + cp =~= u.push(b) + p);
                }
            }
            let ghost g4 = self.graph();
            let p9 = self.fuzzy_frame(t, e - 1, &swapped, Ghost(s0), Ghost(d), Ghost(pr));
            proof {
                assert forall|i: int| 0 <= i < pref.len() implies #[trigger] p9@[i] == pref[i] by {
                    assert(pr[i] == pref[i]);
                }
                pr = p9@;
                g_swap = self.graph();
                lemma_extends_trans(g_rep, g4, g_swap);
                lemma_extends_trans(g_t, g4, g_swap);
                assert(label_target(g_t[o as int].edges, b) is Some);
                assert forall|p: Seq<char>| #[trigger] swap_case(sv, en, p) implies accepts(g_swap, o as int, p) by {
                    assert(label_target(g_swap[o as int].edges, b) == Some(t as int));
                    assert(accepts(g_swap, t as int, p.drop_first()));
                }
            }
        }
        proof {
            let gf = self.graph();
            lemma_extends_trans(g_keep, g_ins, g_del);
            lemma_extends_trans(g_keep, g_del, g_rep);
            lemma_extends_trans(g_keep, g_rep, gf);
            lemma_extends_trans(g_ins, g_del, g_rep);
            lemma_extends_trans(g_ins, g_rep, gf);
            lemma_extends_trans(g_del, g_rep, gf);
            assert forall|p: Seq<char>| #[trigger] fuzzy_final(sv, en, p) implies accepts(gf, o as int, p) by {
                lemma_fuzzy_cases(sv, en, p);
                if keep_case(sv, en, p) {
                    lemma_accepts_mono(g_keep, gf, o as int, p);
                } else if insert_case(sv, en, p) {
                    lemma_accepts_mono(g_ins, gf, o as int, p);
                } else if delete_case(sv, en, p) {
                    lemma_accepts_mono(g_del, gf, o as int, p);
                } else if replace_case(sv, en, p) {
                    lemma_accepts_mono(g_rep, gf, o as int, p);
                } else {
                    assert(swap_case(sv, en, p));
                }
            }
        }
        Ghost(pr)
    }
}

impl TokenSet {
    /// The set of the paths that `s` allows with up to `edit_distance` edits:
    /// an edge `*` stands for an inserted or a replaced character, which an
    /// intersection matches with any character. The string must be ASCII.
    pub fn from_fuzzy_string(s: &str, edit_distance: usize) -> (r: TokenSet)
        requires
            is_ascii_chars(s@),
        ensures
            r.wf(),
            forall|w: Seq<char>| #[trigger] r.words().contains(w) <==> fuzzy_final(s@, edit_distance as nat, w),
    {
        let cs = crate::text::chars_of(s);
        let mut r = TokenSet::new();
        let ghost pref0 = seq![Seq::<char>::empty()];
        let ghost d = edit_distance as nat;
        proof {
            assert(trie_inv(r.graph(), pref0, s@, d));
            assert forall|p: Seq<char>| #[trigger] fuzzy_final(s@, d, p) implies fuzzy_final(s@, d, pref0[0] + p) by {
                assert(pref0[0] + p =~= p);
            }
        }
        let pref = r.fuzzy_frame(0, edit_distance, &cs, Ghost(s@), Ghost(d), Ghost(pref0));
        proof {
            assert forall|w: Seq<char>| #[trigger] r.words().contains(w) <==> fuzzy_final(s@, d, w) by {
                if accepts(r.graph(), 0, w) {
                    lemma_trie_sound(r.graph(), pref@, s@, d, 0, w);
                    assert(pref@[0] + w =~= w);
                }
            }
        }
        r
    }
}

impl TokenSet {
    /// The set for a query clause: fuzzy when the clause allows edits,
    /// otherwise the set of what its term matches as a pattern.
    pub fn from_clause(clause: &Clause) -> (r: TokenSet)
        requires
            clause.edit_distance is Some ==> is_ascii_chars(clause.term@),
        ensures
            r.wf(),
            match clause.edit_distance {
                Some(d) => forall|w: Seq<char>| #[trigger] r.words().contains(w) <==> fuzzy_final(
                    clause.term@,
                    d as nat,
                    w,
                ),
                None => forall|w: Seq<char>| #[trigger] r.matches_word(w) <==> pattern_matches(clause.term@, w),
            },
    {
        match clause.edit_distance {
            Some(d) => TokenSet::from_fuzzy_string(clause.term.as_str(), d),
            None => TokenSet::from_string(clause.term.as_str()),
        }
    }
}


// ---------------------------------------------------------------------------
// Words within a number of edits.
// ---------------------------------------------------------------------------

/// `w` is at most `k` edits from `s` (the Levenshtein distance): each edit
/// inserts, drops or replaces one character.
pub open spec fn within_edits(s: Seq<char>, w: Seq<char>, k: nat) -> bool
    decreases s.len() + w.len(),
{
    if s.len() == 0 {
        w.len() <= k
    } else if w.len() == 0 {
        s.len() <= k
    } else {
        (s[0] == w[0] && within_edits(s.drop_first(), w.drop_first(), k)) || (k > 0 && (within_edits(
            s.drop_first(),
            w,
            (k - 1) as nat,
        ) || within_edits(s, w.drop_first(), (k - 1) as nat) || within_edits(
            s.drop_first(),
            w.drop_first(),
            (k - 1) as nat,
        )))
    }
}

/// `n` stars.
pub open spec fn stars(n: nat) -> Seq<char> {
    Seq::new(n, |i: int| '*')
}

proof fn lemma_stars(n: nat, k: nat)
    requires
        1 <= n <= k,
    ensures
        fuzzy_final(Seq::empty(), k, stars(n)),
    decreases n,
{
    let p = stars(n);
    if n == 1 {
        assert(p =~= seq!['*']);
    } else {
        lemma_stars((n - 1) as nat, (k - 1) as nat);
        assert(p.drop_first() =~= stars((n - 1) as nat));
    }
    assert(insert_case(Seq::empty(), k, p));
    lemma_fuzzy_cases(Seq::empty(), k, p);
}

proof fn lemma_covers_cons(c: char, q: Seq<char>, w: Seq<char>)
    requires
        w.len() > 0,
        c == w[0] || c == '*',
        covers(q, w.drop_first()),
    ensures
        covers(seq![c] + q, w),
{
    let p = seq![c] + q;
    assert forall|i: int| 0 <= i < p.len() implies #[trigger] p[i] == w[i] || p[i] == '*' by {
        if i > 0 {
            assert(p[i] == q[i - 1]);
            assert(w.drop_first()[i - 1] == w[i]);
        }
    }
}

/// A path of `s` with up to `k` edits that covers `w`, where `w` is within
/// `k` edits of `s`.
proof fn lemma_within_edits(s: Seq<char>, w: Seq<char>, k: nat) -> (p: Seq<char>)
    requires
        within_edits(s, w, k),
        s.len() > 0 || w.len() > 0,
    ensures
        fuzzy_final(s, k, p),
        covers(p, w),
    decreases s.len() + w.len(),
{
    if s.len() == 0 {
        assert(s =~= Seq::<char>::empty());
        lemma_stars(w.len(), k);
        stars(w.len())
    } else if w.len() == 0 {
        if s.len() == 1 {
            assert(delete_case(s, k, Seq::empty()));
        } else {
            let q = lemma_within_edits(s.drop_first(), w, (k - 1) as nat);
            assert(q.len() == 0);
            assert(q =~= Seq::<char>::empty());
            assert(delete_case(s, k, q));
        }
        lemma_fuzzy_cases(s, k, Seq::empty());
        Seq::empty()
    } else {
        let s1 = s.drop_first();
        let w1 = w.drop_first();
        if s[0] == w[0] && within_edits(s1, w1, k) {
            let q = if s1.len() == 0 && w1.len() == 0 {
                Seq::empty()
            } else if s1.len() == 0 {
                lemma_stars(w1.len(), k);
                stars(w1.len())
            } else {
                lemma_within_edits(s1, w1, k)
            };
            let p = seq![s[0]] + q;
            assert(p.drop_first() =~= q);
            if s1.len() == 0 && w1.len() == 0 {
                assert(p =~= seq![s[0]]);
            } else if s1.len() == 0 {
                assert(s1 =~= Seq::<char>::empty());
                assert(fuzzy_final(s1, k, q));
            }
            assert(keep_case(s, k, p));
            lemma_fuzzy_cases(s, k, p);
            assert(covers(q, w1)) by {
                if s1.len() == 0 && w1.len() == 0 {
                }
            }
            lemma_covers_cons(s[0], q, w);
            p
        } else if k > 0 && within_edits(s1, w, (k - 1) as nat) {
            if s1.len() == 0 {
                assert(s1 =~= Seq::<char>::empty());
                let p = stars(w.len());
                assert(p[0] == '*');
                if w.len() == 1 {
                    assert(p =~= seq!['*']);
                } else {
                    lemma_stars((w.len() - 1) as nat, (k - 1) as nat);
                    assert(p.drop_first() =~= stars((w.len() - 1) as nat));
                }
                assert(replace_case(s, k, p));
                lemma_fuzzy_cases(s, k, p);
                p
            } else {
                let q = lemma_within_edits(s1, w, (k - 1) as nat);
                assert(delete_case(s, k, q));
                lemma_fuzzy_cases(s, k, q);
                q
            }
        } else if k > 0 && within_edits(s, w1, (k - 1) as nat) {
            let q = lemma_within_edits(s, w1, (k - 1) as nat);
            let p = seq!['*'] + q;
            assert(p.drop_first() =~= q);
            assert(insert_case(s, k, p));
            lemma_fuzzy_cases(s, k, p);
            lemma_covers_cons('*', q, w);
            p
        } else {
            assert(k > 0 && within_edits(s1, w1, (k - 1) as nat));
            if s1.len() == 0 {
                assert(s1 =~= Seq::<char>::empty());
            }
            let q = if s1.len() == 0 && w1.len() == 0 {
                Seq::empty()
            } else if s1.len() == 0 {
                lemma_stars(w1.len(), (k - 1) as nat);
                stars(w1.len())
            } else {
                lemma_within_edits(s1, w1, (k - 1) as nat)
            };
            let p = seq!['*'] + q;
            assert(p.drop_first() =~= q);
            if s1.len() == 0 && w1.len() == 0 {
                assert(p =~= seq!['*']);
            }
            assert(replace_case(s, k, p));
            lemma_fuzzy_cases(s, k, p);
            lemma_covers_cons('*', q, w);
            p
        }
    }
}

/// The set built for `s` with `k` edits allowed matches every word within
/// `k` edits of `s` (inserting, dropping or replacing characters), but for
/// the empty word when `s` is empty.
pub proof fn law_fuzzy_set_within_edits(t: TokenSet, s: Seq<char>, k: nat, w: Seq<char>)
    requires
        t.wf(),
        forall|x: Seq<char>| #[trigger] t.words().contains(x) <==> fuzzy_final(s, k, x),
        within_edits(s, w, k),
        s.len() > 0 || w.len() > 0,
    ensures
        t.matches_word(w),
{
    let p = lemma_within_edits(s, w, k);
    assert(t.words().contains(p));
    law_wildcard_cover(t, p, w);
}

} // verus!
