use vstd::prelude::*;
use crate::marker::{Marker, MarkerTree, valid_path, path_markers};
use crate::record::{preorder_node, preorder_forest, accepted, offered, entries_view, recorded, VisitWithPath, CreateVisitorFn};
use crate::apply::{ApplyVisitors, Pending, entry_node, entry_forest, lookup_node, lookup_forest, prefix_paths, prefix_hits, tag};

verus! {

proof fn lemma_concat_contains<A>(a: Seq<A>, b: Seq<A>, x: A)
    ensures
        (a + b).contains(x) == (a.contains(x) || b.contains(x)),
{
    if (a + b).contains(x) {
        let i = choose|i: int| 0 <= i < (a + b).len() && (a + b)[i] == x;
        if i < a.len() {
            assert(a[i] == x);
        } else {
            assert(b[i - a.len()] == x);
        }
    }
    if a.contains(x) {
        let i = choose|i: int| 0 <= i < a.len() && a[i] == x;
        assert((a + b)[i] == x);
    }
    if b.contains(x) {
        let i = choose|i: int| 0 <= i < b.len() && b[i] == x;
        assert((a + b)[a.len() + i] == x);
    }
}

proof fn lemma_prefix_paths_contains(i: usize, s: Seq<Seq<usize>>, p: Seq<usize>)
    ensures
        prefix_paths(i, s).contains(p) == (p.len() >= 1 && p[0] == i && s.contains(p.drop_first())),
{
    let ps = prefix_paths(i, s);
    if ps.contains(p) {
        let j = choose|j: int| 0 <= j < ps.len() && ps[j] == p;
        assert(p.drop_first() =~= s[j]);
    }
    if p.len() >= 1 && p[0] == i && s.contains(p.drop_first()) {
        let j = choose|j: int| 0 <= j < s.len() && s[j] == p.drop_first();
        assert(ps[j] =~= p);
    }
}

proof fn lemma_prefix_hits_contains(i: usize, s: Seq<(Seq<usize>, usize)>, p: Seq<usize>, x: usize)
    ensures
        prefix_hits(i, s).contains((p, x)) == (p.len() >= 1 && p[0] == i && s.contains((p.drop_first(), x))),
{
    let ps = prefix_hits(i, s);
    if ps.contains((p, x)) {
        let j = choose|j: int| 0 <= j < ps.len() && ps[j] == (p, x);
        assert(p.drop_first() =~= s[j].0);
    }
    if p.len() >= 1 && p[0] == i && s.contains((p.drop_first(), x)) {
        let j = choose|j: int| 0 <= j < s.len() && s[j] == (p.drop_first(), x);
        assert(ps[j].0 =~= p);
    }
}

proof fn lemma_tag_contains(s: Seq<Seq<usize>>, id: usize, p: Seq<usize>, x: usize)
    ensures
        tag(s, id).contains((p, x)) == (x == id && s.contains(p)),
{
    let ts = tag(s, id);
    if ts.contains((p, x)) {
        let j = choose|j: int| 0 <= j < ts.len() && ts[j] == (p, x);
        assert(s[j] == p);
    }
    if x == id && s.contains(p) {
        let j = choose|j: int| 0 <= j < s.len() && s[j] == p;
        assert(ts[j] == (p, x));
    }
}

/// A path is found in a forest exactly when its first index is one of the
/// first `n` trees and the rest of it is found in that tree.
proof fn lemma_entry_forest_contains(nodes: Seq<MarkerTree>, n: int, key: Marker, chain: Seq<Marker>, d: nat, p: Seq<usize>)
    requires
        0 <= n <= nodes.len(),
        nodes.len() <= usize::MAX,
    ensures
        entry_forest(nodes, n, key, chain, d).contains(p) == (p.len() >= 1 && p[0] < n
            && entry_node(nodes[p[0] as int], key, chain, d).contains(p.drop_first())),
    decreases n,
{
    if n > 0 {
        lemma_entry_forest_contains(nodes, n - 1, key, chain, d, p);
        lemma_concat_contains(
            entry_forest(nodes, n - 1, key, chain, d),
            prefix_paths((n - 1) as usize, entry_node(nodes[n - 1], key, chain, d)),
            p,
        );
        lemma_prefix_paths_contains((n - 1) as usize, entry_node(nodes[n - 1], key, chain, d), p);
    }
}

proof fn lemma_lookup_node_contains(t: MarkerTree, pend: Seq<Pending>, m: int, d: nat, q: Seq<usize>, x: usize)
    requires
        0 <= m <= pend.len(),
    ensures
        lookup_node(t, pend, m, d).contains((q, x)) == exists|j: int| 0 <= j < m && x == pend[j].id
            && #[trigger] entry_node(t, pend[j].key, pend[j].chain@, d).contains(q),
    decreases m,
{
    if m > 0 {
        let e = pend[m - 1];
        lemma_lookup_node_contains(t, pend, m - 1, d, q, x);
        lemma_concat_contains(
            lookup_node(t, pend, m - 1, d),
            tag(entry_node(t, e.key, e.chain@, d), e.id),
            (q, x),
        );
        lemma_tag_contains(entry_node(t, e.key, e.chain@, d), e.id, q, x);
        if exists|j: int| 0 <= j < m && x == pend[j].id && #[trigger] entry_node(t, pend[j].key, pend[j].chain@, d).contains(q) {
            let j = choose|j: int| 0 <= j < m && x == pend[j].id && #[trigger] entry_node(t, pend[j].key, pend[j].chain@, d).contains(q);
            if j < m - 1 {
                assert(lookup_node(t, pend, m - 1, d).contains((q, x)));
            }
        }
    }
}

proof fn lemma_lookup_forest_contains(nodes: Seq<MarkerTree>, n: int, pend: Seq<Pending>, d: nat, p: Seq<usize>, x: usize)
    requires
        0 <= n <= nodes.len(),
        nodes.len() <= usize::MAX,
    ensures
        lookup_forest(nodes, n, pend, d).contains((p, x)) == (p.len() >= 1 && p[0] < n
            && lookup_node(nodes[p[0] as int], pend, pend.len() as int, d).contains((p.drop_first(), x))),
    decreases n,
{
    if n > 0 {
        let s = lookup_node(nodes[n - 1], pend, pend.len() as int, d);
        lemma_lookup_forest_contains(nodes, n - 1, pend, d, p, x);
        lemma_concat_contains(lookup_forest(nodes, n - 1, pend, d), prefix_hits((n - 1) as usize, s), (p, x));
        lemma_prefix_hits_contains((n - 1) as usize, s, p, x);
    }
}

proof fn lemma_markers_step(nodes: Seq<MarkerTree>, q: Seq<usize>, c: Seq<Marker>, from: int)
    requires
        q.len() >= 1,
        q[0] < nodes.len(),
        0 <= from < c.len(),
        q.len() + from == c.len(),
    ensures
        (path_markers(nodes, q) == c.subrange(from, c.len() as int)) == (nodes[q[0] as int].marker == c[from]
            && path_markers(nodes[q[0] as int].children@, q.drop_first()) == c.subrange(from + 1, c.len() as int)),
{
    let child = nodes[q[0] as int];
    let rest = path_markers(child.children@, q.drop_first());
    let pm = path_markers(nodes, q);
    assert(pm == seq![child.marker] + rest);
    if pm == c.subrange(from, c.len() as int) {
        assert(pm[0] == c[from]);
        assert(rest =~= pm.drop_first());
        assert(c.subrange(from + 1, c.len() as int) =~= c.subrange(from, c.len() as int).drop_first());
    }
    if child.marker == c[from] && rest == c.subrange(from + 1, c.len() as int) {
        assert(pm =~= c.subrange(from, c.len() as int));
    }
}

/// Within node `t`, a chain expected with marker `key` at depth `d` reaches
/// exactly the paths below `t` whose markers are the rest of the chain,
/// provided `t` carries both `key` and the chain's marker at `d`.
proof fn lemma_entry_node_chain(t: MarkerTree, key: Marker, c: Seq<Marker>, d: nat, q: Seq<usize>)
    requires
        d < c.len(),
    ensures
        entry_node(t, key, c, d).contains(q) == (t.marker == key && key == c[d as int]
            && q.len() + d + 1 == c.len()
            && (q.len() == 0 || valid_path(t.children@, q))
            && path_markers(t.children@, q) == c.subrange(d + 1 as int, c.len() as int)),
    decreases t,
{
    let ch = t.children@;
    assert(t.children.len() == ch.len());
    if t.marker != key || t.marker != c[d as int] {
    } else if d + 1 == c.len() {
        if q.len() == 0 {
            assert(q =~= Seq::<usize>::empty());
            assert(path_markers(ch, q) =~= c.subrange(d + 1 as int, c.len() as int));
            assert(entry_node(t, key, c, d)[0] == q);
        } else {
            assert(!(seq![Seq::<usize>::empty()].contains(q))) by {
                if seq![Seq::<usize>::empty()].contains(q) {
                    let i = choose|i: int| 0 <= i < 1 && seq![Seq::<usize>::empty()][i] == q;
                }
            }
        }
    } else {
        lemma_entry_forest_contains(ch, ch.len() as int, c[d + 1 as int], c, d + 1, q);
        if q.len() >= 1 && q[0] < ch.len() {
            let child = ch[q[0] as int];
            lemma_entry_node_chain(child, c[d + 1 as int], c, d + 1, q.drop_first());
            if q.len() + d + 1 == c.len() {
                lemma_markers_step(ch, q, c, d + 1 as int);
            }
            if q.len() == 1 {
                assert(path_markers(child.children@, q.drop_first()) =~= Seq::<Marker>::empty());
            }
        }
    }
}

proof fn lemma_path_markers_len(nodes: Seq<MarkerTree>, p: Seq<usize>)
    requires
        valid_path(nodes, p),
    ensures
        path_markers(nodes, p).len() == p.len(),
    decreases p.len(),
{
    if p.len() > 1 {
        lemma_path_markers_len(nodes[p[0] as int].children@, p.drop_first());
    } else {
        assert(path_markers(nodes[p[0] as int].children@, p.drop_first()) == Seq::<Marker>::empty());
    }
}

/// The paths that a chain reaches from the root of a forest are exactly the
/// nodes whose chain it is, and only if it is keyed on its first marker.
proof fn lemma_entry_forest_chain(nodes: Seq<MarkerTree>, key: Marker, c: Seq<Marker>, p: Seq<usize>)
    requires
        nodes.len() <= usize::MAX,
        c.len() > 0,
    ensures
        entry_forest(nodes, nodes.len() as int, key, c, 0).contains(p)
            == (key == c[0] && valid_path(nodes, p) && path_markers(nodes, p) == c),
{
    lemma_entry_forest_contains(nodes, nodes.len() as int, key, c, 0, p);
    if valid_path(nodes, p) {
        lemma_path_markers_len(nodes, p);
    }
    if p.len() >= 1 && p[0] < nodes.len() {
        let t = nodes[p[0] as int];
        lemma_entry_node_chain(t, key, c, 0, p.drop_first());
        assert(c.subrange(0, c.len() as int) =~= c);
        if p.len() == c.len() {
            lemma_markers_step(nodes, p, c, 0);
        }
        if p.len() == 1 {
            assert(path_markers(t.children@, p.drop_first()) =~= Seq::<Marker>::empty());
        }
    }
}

/// Whatever its key, a chain reaches only paths of its own length that end
/// on its last marker.
proof fn lemma_entry_forest_ends_on_last(nodes: Seq<MarkerTree>, key: Marker, c: Seq<Marker>, p: Seq<usize>)
    requires
        nodes.len() <= usize::MAX,
        c.len() > 0,
        entry_forest(nodes, nodes.len() as int, key, c, 0).contains(p),
    ensures
        valid_path(nodes, p),
        p.len() == c.len(),
        path_markers(nodes, p).last() == c.last(),
{
    lemma_entry_forest_contains(nodes, nodes.len() as int, key, c, 0, p);
    let t = nodes[p[0] as int];
    let q = p.drop_first();
    lemma_entry_node_chain(t, key, c, 0, q);
    let pm = path_markers(nodes, p);
    assert(pm == seq![t.marker] + path_markers(t.children@, q));
    if q.len() > 0 {
        assert(pm.last() == path_markers(t.children@, q).last());
    }
}

/// What a pass applies, for a single pending registration.
proof fn lemma_lookup_single(nodes: Seq<MarkerTree>, pend: Seq<Pending>, d: nat, p: Seq<usize>, x: usize)
    requires
        nodes.len() <= usize::MAX,
    ensures
        lookup_forest(nodes, nodes.len() as int, pend, d).contains((p, x)) == exists|j: int| 0 <= j < pend.len()
            && x == pend[j].id && #[trigger] entry_forest(nodes, nodes.len() as int, pend[j].key, pend[j].chain@, d).contains(p),
{
    lemma_lookup_forest_contains(nodes, nodes.len() as int, pend, d, p, x);
    if p.len() >= 1 && p[0] < nodes.len() {
        let t = nodes[p[0] as int];
        lemma_lookup_node_contains(t, pend, pend.len() as int, d, p.drop_first(), x);
    }
    assert forall|j: int| 0 <= j < pend.len() implies #[trigger] entry_forest(nodes, nodes.len() as int, pend[j].key, pend[j].chain@, d).contains(p)
        == (p.len() >= 1 && p[0] < nodes.len() && entry_node(nodes[p[0] as int], pend[j].key, pend[j].chain@, d).contains(p.drop_first())) by {
        lemma_entry_forest_contains(nodes, nodes.len() as int, pend[j].key, pend[j].chain@, d, p);
    }
    if p.len() >= 1 && p[0] < nodes.len() {
        let t = nodes[p[0] as int];
        if lookup_forest(nodes, nodes.len() as int, pend, d).contains((p, x)) {
            let j = choose|j: int| 0 <= j < pend.len() && x == pend[j].id
                && #[trigger] entry_node(t, pend[j].key, pend[j].chain@, d).contains(p.drop_first());
            assert(entry_forest(nodes, nodes.len() as int, pend[j].key, pend[j].chain@, d).contains(p));
        }
        if exists|j: int| 0 <= j < pend.len() && x == pend[j].id
            && #[trigger] entry_forest(nodes, nodes.len() as int, pend[j].key, pend[j].chain@, d).contains(p) {
            let j = choose|j: int| 0 <= j < pend.len() && x == pend[j].id
                && #[trigger] entry_forest(nodes, nodes.len() as int, pend[j].key, pend[j].chain@, d).contains(p);
            assert(entry_node(t, pend[j].key, pend[j].chain@, d).contains(p.drop_first()));
        }
    }
}

/// Registrations do not interfere: the pass applies registration `x` at
/// path `p` exactly when one of its registrations with that id, on its own,
/// would be carried along `p`.
pub proof fn lemma_registrations_apply_independently(a: ApplyVisitors, nodes: Seq<MarkerTree>, p: Seq<usize>, x: usize)
    requires
        nodes.len() <= usize::MAX,
    ensures
        a.plan(nodes).contains((p, x)) == exists|j: int| 0 <= j < a.visitors@.len()
            && x == a.visitors@[j].id
            && #[trigger] entry_forest(nodes, nodes.len() as int, a.visitors@[j].key, a.visitors@[j].chain@, a.index as nat).contains(p),
{
    lemma_lookup_single(nodes, a.visitors@, a.index as nat, p, x);
}

/// At depth 0 a registration is applied exactly at the nodes whose chain,
/// marker by marker from the root, is the registration's chain, and only if
/// it is keyed on that chain's first marker. A node that shares the target's
/// marker under a different chain (a clone) is never touched, and a chain that
/// does not describe the path to a node never reaches it, whatever markers
/// happen to coincide.
pub proof fn lemma_applied_nodes_follow_chains(a: ApplyVisitors, nodes: Seq<MarkerTree>, p: Seq<usize>, x: usize)
    requires
        nodes.len() <= usize::MAX,
        a.index == 0,
        a.wf(),
    ensures
        a.plan(nodes).contains((p, x)) == exists|j: int| 0 <= j < a.visitors@.len()
            && x == (#[trigger] a.visitors@[j]).id
            && a.visitors@[j].key == a.visitors@[j].chain@[0]
            && valid_path(nodes, p) && path_markers(nodes, p) == a.visitors@[j].chain@,
{
    lemma_registrations_apply_independently(a, nodes, p, x);
    assert forall|j: int| 0 <= j < a.visitors@.len() implies
        #[trigger] entry_forest(nodes, nodes.len() as int, a.visitors@[j].key, a.visitors@[j].chain@, 0).contains(p)
            == (a.visitors@[j].key == a.visitors@[j].chain@[0] && valid_path(nodes, p)
                && path_markers(nodes, p) == a.visitors@[j].chain@) by {
        lemma_entry_forest_chain(nodes, a.visitors@[j].key, a.visitors@[j].chain@, p);
    }
    if a.plan(nodes).contains((p, x)) {
        let j = choose|j: int| 0 <= j < a.visitors@.len() && x == a.visitors@[j].id
            && #[trigger] entry_forest(nodes, nodes.len() as int, a.visitors@[j].key, a.visitors@[j].chain@, 0).contains(p);
        assert(a.visitors@[j].id == x);
    }
    if exists|j: int| 0 <= j < a.visitors@.len() && x == (#[trigger] a.visitors@[j]).id
            && a.visitors@[j].key == a.visitors@[j].chain@[0]
            && valid_path(nodes, p) && path_markers(nodes, p) == a.visitors@[j].chain@ {
        let j = choose|j: int| 0 <= j < a.visitors@.len() && x == (#[trigger] a.visitors@[j]).id
            && a.visitors@[j].key == a.visitors@[j].chain@[0]
            && valid_path(nodes, p) && path_markers(nodes, p) == a.visitors@[j].chain@;
        assert(entry_forest(nodes, nodes.len() as int, a.visitors@[j].key, a.visitors@[j].chain@, 0).contains(p));
    }
}

proof fn lemma_concat_no_duplicates<A>(a: Seq<A>, b: Seq<A>)
    requires
        a.no_duplicates(),
        b.no_duplicates(),
        forall|x: A| a.contains(x) ==> !b.contains(x),
    ensures
        (a + b).no_duplicates(),
{
    let s = a + b;
    assert forall|i: int, j: int| 0 <= i < s.len() && 0 <= j < s.len() && i != j implies s[i] != s[j] by {
        if i < a.len() && j >= a.len() {
            assert(a.contains(s[i]));
            assert(b[j - a.len()] == s[j]);
        } else if j < a.len() && i >= a.len() {
            assert(a.contains(s[j]));
            assert(b[i - a.len()] == s[i]);
        } else if i >= a.len() {
            assert(b[i - a.len()] == s[i] && b[j - a.len()] == s[j]);
        }
    }
}

proof fn lemma_entry_node_no_duplicates(t: MarkerTree, key: Marker, c: Seq<Marker>, d: nat)
    ensures
        entry_node(t, key, c, d).no_duplicates(),
    decreases t, 0int,
{
    assert(t.children.len() == t.children@.len());
    if t.marker == key && d + 1 < c.len() {
        lemma_entry_forest_no_duplicates(t.children@, t.children@.len() as int, c[d + 1 as int], c, d + 1);
    }
}

proof fn lemma_entry_forest_no_duplicates(nodes: Seq<MarkerTree>, n: int, key: Marker, c: Seq<Marker>, d: nat)
    requires
        0 <= n <= nodes.len(),
        nodes.len() <= usize::MAX,
    ensures
        entry_forest(nodes, n, key, c, d).no_duplicates(),
    decreases nodes, n,
{
    if n > 0 {
        let i = (n - 1) as usize;
        let first = entry_forest(nodes, n - 1, key, c, d);
        let inner = entry_node(nodes[n - 1], key, c, d);
        let second = prefix_paths(i, inner);
        lemma_entry_forest_no_duplicates(nodes, n - 1, key, c, d);
        lemma_entry_node_no_duplicates(nodes[n - 1], key, c, d);
        assert forall|a: int, b: int| 0 <= a < second.len() && 0 <= b < second.len() && a != b implies second[a] != second[b] by {
            if second[a] == second[b] {
                assert(inner[a] =~= second[a].drop_first());
                assert(inner[b] =~= second[b].drop_first());
            }
        }
        assert forall|x: Seq<usize>| first.contains(x) implies !second.contains(x) by {
            lemma_entry_forest_contains(nodes, n - 1, key, c, d, x);
            lemma_prefix_paths_contains(i, inner, x);
        }
        lemma_concat_no_duplicates(first, second);
    }
}

proof fn lemma_lookup_one(nodes: Seq<MarkerTree>, n: int, e: Pending, d: nat)
    requires
        0 <= n <= nodes.len(),
    ensures
        lookup_forest(nodes, n, seq![e], d) == tag(entry_forest(nodes, n, e.key, e.chain@, d), e.id),
    decreases n,
{
    if n <= 0 {
        assert(tag(Seq::<Seq<usize>>::empty(), e.id) =~= Seq::<(Seq<usize>, usize)>::empty());
    } else {
        let i = (n - 1) as usize;
        let inner = entry_node(nodes[n - 1], e.key, e.chain@, d);
        lemma_lookup_one(nodes, n - 1, e, d);
        assert(lookup_node(nodes[n - 1], seq![e], 0, d) == Seq::<(Seq<usize>, usize)>::empty());
        assert(lookup_node(nodes[n - 1], seq![e], 1, d) =~= tag(inner, e.id));
        assert(prefix_hits(i, tag(inner, e.id)) =~= tag(prefix_paths(i, inner), e.id));
        assert(tag(entry_forest(nodes, n - 1, e.key, e.chain@, d) + prefix_paths(i, inner), e.id)
            =~= tag(entry_forest(nodes, n - 1, e.key, e.chain@, d), e.id) + tag(prefix_paths(i, inner), e.id));
    }
}

/// A single registration whose chain leads to node `p` and to no other node
/// is applied exactly once, at `p`, and nowhere else.
pub proof fn lemma_single_registration_targets_its_node(a: ApplyVisitors, nodes: Seq<MarkerTree>, p: Seq<usize>)
    requires
        nodes.len() <= usize::MAX,
        a.index == 0,
        a.visitors@.len() == 1,
        a.visitors@[0].chain@.len() > 0,
        a.visitors@[0].key == a.visitors@[0].chain@[0],
        valid_path(nodes, p),
        path_markers(nodes, p) == a.visitors@[0].chain@,
        forall|q: Seq<usize>| valid_path(nodes, q) && path_markers(nodes, q) == a.visitors@[0].chain@ ==> q == p,
    ensures
        a.plan(nodes) == seq![(p, a.visitors@[0].id)],
{
    let e = a.visitors@[0];
    let s = entry_forest(nodes, nodes.len() as int, e.key, e.chain@, 0);
    assert(a.visitors@ =~= seq![e]);
    lemma_lookup_one(nodes, nodes.len() as int, e, 0);
    lemma_entry_forest_no_duplicates(nodes, nodes.len() as int, e.key, e.chain@, 0);
    assert forall|q: Seq<usize>| s.contains(q) == (q == p) by {
        lemma_entry_forest_chain(nodes, e.key, e.chain@, q);
    }
    assert(s.contains(p));
    if s.len() >= 2 {
        assert(s.contains(s[0]) && s.contains(s[1]));
        assert(s[0] == s[1]);
    }
    assert(s[0] == p);
    assert(s =~= seq![p]);
    assert(tag(s, e.id) =~= seq![(p, e.id)]);
}

/// A registration whose chain's last marker is carried by no node at the
/// chain's depth applies nowhere, whatever it is keyed on.
pub proof fn lemma_unmatched_chain_is_ignored(a: ApplyVisitors, nodes: Seq<MarkerTree>)
    requires
        nodes.len() <= usize::MAX,
        a.index == 0,
        a.visitors@.len() == 1,
        a.visitors@[0].chain@.len() > 0,
        forall|q: Seq<usize>| valid_path(nodes, q) && q.len() == a.visitors@[0].chain@.len()
            ==> #[trigger] path_markers(nodes, q).last() != a.visitors@[0].chain@.last(),
    ensures
        a.plan(nodes).len() == 0,
{
    if a.plan(nodes).len() > 0 {
        let h = a.plan(nodes)[0];
        assert(a.plan(nodes).contains(h));
        lemma_registrations_apply_independently(a, nodes, h.0, h.1);
        let e = a.visitors@[0];
        lemma_entry_forest_ends_on_last(nodes, e.key, e.chain@, h.0);
    }
}

/// A registration listed twice is applied twice at each node it reaches,
/// one application right after the other.
pub proof fn lemma_duplicate_applies_twice(t: MarkerTree, e: Pending, d: nat)
    ensures
        lookup_node(t, seq![e, e], 2, d) == lookup_node(t, seq![e], 1, d) + lookup_node(t, seq![e], 1, d),
{
    let one = tag(entry_node(t, e.key, e.chain@, d), e.id);
    assert(lookup_node(t, seq![e], 0, d) == Seq::<(Seq<usize>, usize)>::empty());
    assert(lookup_node(t, seq![e, e], 0, d) == Seq::<(Seq<usize>, usize)>::empty());
    assert(lookup_node(t, seq![e], 1, d) =~= one);
    assert(lookup_node(t, seq![e, e], 1, d) =~= one);
    assert(lookup_node(t, seq![e, e], 2, d) =~= one + one);
}

proof fn lemma_preorder_node_chains(t: MarkerTree, prefix: Seq<Marker>, c: Seq<Marker>)
    requires
        preorder_node(t, prefix).contains(c),
    ensures
        exists|q: Seq<usize>| (q.len() == 0 || valid_path(t.children@, q))
            && c == prefix.push(t.marker) + #[trigger] path_markers(t.children@, q),
    decreases t, 0int,
{
    let here = prefix.push(t.marker);
    let rest = preorder_forest(t.children@, t.children@.len() as int, here);
    lemma_concat_contains(seq![here], rest, c);
    if seq![here].contains(c) {
        let q = Seq::<usize>::empty();
        assert(path_markers(t.children@, q) == Seq::<Marker>::empty());
        assert(c == here + path_markers(t.children@, q));
    } else {
        assert(t.children.len() == t.children@.len());
        lemma_preorder_forest_chains(t.children@, t.children@.len() as int, here, c);
        let q = choose|q: Seq<usize>| valid_path(t.children@, q) && c == here + #[trigger] path_markers(t.children@, q);
        assert(c == here + path_markers(t.children@, q));
    }
}

proof fn lemma_preorder_forest_chains(nodes: Seq<MarkerTree>, n: int, prefix: Seq<Marker>, c: Seq<Marker>)
    requires
        0 <= n <= nodes.len(),
        nodes.len() <= usize::MAX,
        preorder_forest(nodes, n, prefix).contains(c),
    ensures
        exists|q: Seq<usize>| valid_path(nodes, q) && c == prefix + #[trigger] path_markers(nodes, q),
    decreases nodes, n,
{
    if n > 0 {
        let t = nodes[n - 1];
        lemma_concat_contains(preorder_forest(nodes, n - 1, prefix), preorder_node(t, prefix), c);
        if preorder_forest(nodes, n - 1, prefix).contains(c) {
            lemma_preorder_forest_chains(nodes, n - 1, prefix, c);
        } else {
            lemma_preorder_node_chains(t, prefix, c);
            let q = choose|q: Seq<usize>| (q.len() == 0 || valid_path(t.children@, q))
                && c == prefix.push(t.marker) + #[trigger] path_markers(t.children@, q);
            let full = seq![(n - 1) as usize] + q;
            assert(full.drop_first() =~= q);
            assert(valid_path(nodes, full));
            assert(path_markers(nodes, full) == seq![t.marker] + path_markers(t.children@, q));
            assert(c =~= prefix + path_markers(nodes, full));
        }
    }
}

/// Every chain that the recording pass offers, starting from `prefix`, is
/// `prefix` followed by the markers of an actual node of the forest.
pub proof fn lemma_recorded_chains_are_node_chains(nodes: Seq<MarkerTree>, prefix: Seq<Marker>, c: Seq<Marker>)
    requires
        nodes.len() <= usize::MAX,
        preorder_forest(nodes, nodes.len() as int, prefix).contains(c),
    ensures
        exists|q: Seq<usize>| valid_path(nodes, q) && c == prefix + #[trigger] path_markers(nodes, q),
{
    lemma_preorder_forest_chains(nodes, nodes.len() as int, prefix, c);
}

proof fn lemma_accepted_were_offered<F>(s: Seq<(Seq<Marker>, Option<F>)>, e: (Seq<Marker>, F))
    requires
        accepted(s).contains(e),
    ensures
        offered(s).contains(e.0),
    decreases s.len(),
{
    let rest = accepted(s.drop_last());
    if rest.contains(e) {
        lemma_accepted_were_offered(s.drop_last(), e);
        let i = choose|i: int| 0 <= i < offered(s.drop_last()).len() && offered(s.drop_last())[i] == e.0;
        assert(offered(s)[i] == e.0);
    } else {
        match s.last().1 {
            Some(f) => {
                let i = choose|i: int| 0 <= i < rest.push((s.last().0, f)).len() && rest.push((s.last().0, f))[i] == e;
                assert(i == rest.len());
                assert(offered(s)[s.len() - 1] == e.0);
            },
            None => {},
        }
    }
}

/// Every registration that a recording pass over a forest appends holds the
/// chain of an actual node of that forest, after the chain it started from.
pub proof fn lemma_recorded_entries_are_node_chains<F, V: CreateVisitorFn<F>>(
    before: VisitWithPath<F, V>,
    after: VisitWithPath<F, V>,
    nodes: Seq<MarkerTree>,
    k: int,
)
    requires
        nodes.len() <= usize::MAX,
        recorded(before, after, preorder_forest(nodes, nodes.len() as int, before.spans@)),
        before.visitors@.len() <= k < after.visitors@.len(),
    ensures
        exists|q: Seq<usize>| valid_path(nodes, q)
            && after.visitors@[k].0@ == before.spans@ + #[trigger] path_markers(nodes, q),
{
    let a0 = before.creator.answers();
    let a1 = after.creator.answers();
    let fresh = a1.subrange(a0.len() as int, a1.len() as int);
    let e0 = entries_view(before.visitors@);
    let e = entries_view(after.visitors@)[k];
    assert(e0.len() == before.visitors@.len());
    assert(entries_view(after.visitors@).len() == after.visitors@.len());
    assert((e0 + accepted(fresh)).len() == after.visitors@.len());
    assert(e == (e0 + accepted(fresh))[k]);
    assert(e.0 == after.visitors@[k].0@);
    assert(accepted(fresh)[k - e0.len()] == e);
    assert(accepted(fresh).contains(e));
    lemma_accepted_were_offered(fresh, e);
    lemma_recorded_chains_are_node_chains(nodes, before.spans@, e.0);
}

} // verus!
