use vstd::prelude::*;
use crate::marker::{Marker, MarkerTree, valid_path, path_markers};
use crate::laws::lemma_applied_nodes_follow_chains;

verus! {

/// A registration waiting at some depth: it is looked at on nodes whose marker
/// is `key`, and `id` names the transform to apply at the end of `chain`.
#[derive(Debug)]
pub struct Pending {
    pub key: Marker,
    pub chain: Vec<Marker>,
    pub id: usize,
}

/// A transform to apply: the node reached by `path` (child indices from the
/// forest the pass started on) and the registration `id`.
#[derive(Debug)]
pub struct Hit {
    pub path: Vec<usize>,
    pub id: usize,
}

/// The applying pass: the registrations pending at depth `index`.
#[derive(Debug)]
pub struct ApplyVisitors {
    pub visitors: Vec<Pending>,
    pub index: usize,
}

pub open spec fn paths_view(s: Seq<Vec<usize>>) -> Seq<Seq<usize>> {
    s.map_values(|v: Vec<usize>| v@)
}

pub open spec fn hits_view(s: Seq<Hit>) -> Seq<(Seq<usize>, usize)> {
    s.map_values(|h: Hit| (h.path@, h.id))
}

pub open spec fn prefix_paths(i: usize, s: Seq<Seq<usize>>) -> Seq<Seq<usize>> {
    s.map_values(|p: Seq<usize>| seq![i] + p)
}

pub open spec fn prefix_hits(i: usize, s: Seq<(Seq<usize>, usize)>) -> Seq<(Seq<usize>, usize)> {
    s.map_values(|h: (Seq<usize>, usize)| (seq![i] + h.0, h.1))
}

pub open spec fn tag(s: Seq<Seq<usize>>, id: usize) -> Seq<(Seq<usize>, usize)> {
    s.map_values(|p: Seq<usize>| (p, id))
}

/// Where one chain, expected with marker `key` at depth `d`, applies within
/// node `t`: paths relative to `t`, the empty path being `t` itself. The node
/// takes part only if its marker is both `key` and the chain's marker at `d`;
/// at the chain's last index it is the target, before it the search goes on
/// among the node's children only, expecting the chain's next marker.
pub open spec fn entry_node(t: MarkerTree, key: Marker, chain: Seq<Marker>, d: nat) -> Seq<Seq<usize>>
    decreases t, 0int,
{
    if d >= chain.len() || t.marker != key || t.marker != chain[d as int] {
        Seq::empty()
    } else if d + 1 == chain.len() {
        seq![Seq::empty()]
    } else {
        entry_forest(t.children@, t.children@.len() as int, chain[d + 1 as int], chain, d + 1)
    }
}

/// Where one chain applies within the first `n` nodes of a forest, in order.
pub open spec fn entry_forest(nodes: Seq<MarkerTree>, n: int, key: Marker, chain: Seq<Marker>, d: nat) -> Seq<Seq<usize>>
    decreases nodes, n,
{
    if n <= 0 || n > nodes.len() {
        Seq::empty()
    } else {
        entry_forest(nodes, n - 1, key, chain, d)
            + prefix_paths((n - 1) as usize, entry_node(nodes[n - 1], key, chain, d))
    }
}

/// The node that `h` names has exactly the chain, marker by marker from the
/// root, of a registration with `h`'s id.
pub open spec fn follows_registered_chain(nodes: Seq<MarkerTree>, pend: Seq<Pending>, h: Hit) -> bool {
    exists|j: int| 0 <= j < pend.len() && h.id == (#[trigger] pend[j]).id
        && valid_path(nodes, h.path@) && path_markers(nodes, h.path@) == pend[j].chain@
}

/// What the first `n` pending registrations apply within node `t`, in their order.
pub open spec fn lookup_node(t: MarkerTree, pend: Seq<Pending>, n: int, d: nat) -> Seq<(Seq<usize>, usize)>
    decreases n,
{
    if n <= 0 || n > pend.len() {
        Seq::empty()
    } else {
        lookup_node(t, pend, n - 1, d)
            + tag(entry_node(t, pend[n - 1].key, pend[n - 1].chain@, d), pend[n - 1].id)
    }
}

/// What the pending registrations apply within the first `n` nodes of a forest:
/// node by node, and at each node registration by registration.
pub open spec fn lookup_forest(nodes: Seq<MarkerTree>, n: int, pend: Seq<Pending>, d: nat) -> Seq<(Seq<usize>, usize)>
    decreases n,
{
    if n <= 0 || n > nodes.len() {
        Seq::empty()
    } else {
        lookup_forest(nodes, n - 1, pend, d)
            + prefix_hits((n - 1) as usize, lookup_node(nodes[n - 1], pend, pend.len() as int, d))
    }
}

fn prefixed_paths(i: usize, paths: Vec<Vec<usize>>) -> (r: Vec<Vec<usize>>)
    ensures
        paths_view(r@) == prefix_paths(i, paths_view(paths@)),
{
    let mut r: Vec<Vec<usize>> = Vec::new();
    let mut k: usize = 0;
    while k < paths.len()
        invariant
            k <= paths@.len(),
            r@.len() == k,
            forall|j: int| 0 <= j < k ==> #[trigger] r@[j]@ == seq![i] + paths@[j]@,
        decreases paths@.len() - k,
    {
        let mut p: Vec<usize> = Vec::new();
        p.push(i);
        let mut m: usize = 0;
        while m < paths[k].len()
            invariant
                k < paths@.len(),
                m <= paths@[k as int]@.len(),
                p@ == seq![i] + paths@[k as int]@.subrange(0, m as int),
            decreases paths@[k as int]@.len() - m,
        {
            p.push(paths[k][m]);
            m = m + 1;
        }
        assert(paths@[k as int]@.subrange(0, m as int) =~= paths@[k as int]@);
        r.push(p);
        k = k + 1;
    }
    assert(paths_view(r@) =~= prefix_paths(i, paths_view(paths@)));
    r
}

fn descend_node(t: &MarkerTree, key: Marker, chain: &Vec<Marker>, d: usize) -> (r: Vec<Vec<usize>>)
    requires
        d < chain@.len(),
    ensures
        paths_view(r@) == entry_node(*t, key, chain@, d as nat),
    decreases t,
{
    if t.marker != key || t.marker != chain[d] {
        let v: Vec<Vec<usize>> = Vec::new();
        assert(paths_view(v@) =~= Seq::<Seq<usize>>::empty());
        v
    } else if d == chain.len() - 1 {
        let v: Vec<Vec<usize>> = vec![Vec::new()];
        assert(paths_view(v@) =~= seq![Seq::<usize>::empty()]);
        v
    } else {
        descend_forest(&t.children, chain[d + 1], chain, d + 1)
    }
}

fn descend_forest(nodes: &Vec<MarkerTree>, key: Marker, chain: &Vec<Marker>, d: usize) -> (r: Vec<Vec<usize>>)
    requires
        d < chain@.len(),
    ensures
        paths_view(r@) == entry_forest(nodes@, nodes@.len() as int, key, chain@, d as nat),
    decreases nodes,
{
    let mut r: Vec<Vec<usize>> = Vec::new();
    let mut i: usize = 0;
    assert(paths_view(r@) =~= Seq::<Seq<usize>>::empty());
    while i < nodes.len()
        invariant
            i <= nodes@.len(),
            d < chain@.len(),
            paths_view(r@) == entry_forest(nodes@, i as int, key, chain@, d as nat),
        decreases nodes@.len() - i,
    {
        let sub = descend_node(&nodes[i], key, chain, d);
        let pre = prefixed_paths(i, sub);
        let ghost before = r@;
        let mut pre = pre;
        let ghost added = pre@;
        r.append(&mut pre);
        assert(paths_view(r@) =~= paths_view(before) + paths_view(added));
        i = i + 1;
    }
    r
}

fn tagged(paths: Vec<Vec<usize>>, id: usize) -> (r: Vec<Hit>)
    ensures
        hits_view(r@) == tag(paths_view(paths@), id),
{
    let mut r: Vec<Hit> = Vec::new();
    let mut k: usize = 0;
    while k < paths.len()
        invariant
            k <= paths@.len(),
            r@.len() == k,
            forall|j: int| 0 <= j < k ==> #[trigger] r@[j].path@ == paths@[j]@ && r@[j].id == id,
        decreases paths@.len() - k,
    {
        r.push(Hit { path: copy_vec(&paths[k]), id });
        k = k + 1;
    }
    assert(hits_view(r@) =~= tag(paths_view(paths@), id));
    r
}

fn prefixed_hits(i: usize, hits: Vec<Hit>) -> (r: Vec<Hit>)
    ensures
        hits_view(r@) == prefix_hits(i, hits_view(hits@)),
{
    let mut r: Vec<Hit> = Vec::new();
    let mut k: usize = 0;
    while k < hits.len()
        invariant
            k <= hits@.len(),
            r@.len() == k,
            forall|j: int| 0 <= j < k ==> #[trigger] r@[j].path@ == seq![i] + hits@[j].path@
                && r@[j].id == hits@[j].id,
        decreases hits@.len() - k,
    {
        let mut p: Vec<usize> = Vec::new();
        p.push(i);
        let mut m: usize = 0;
        while m < hits[k].path.len()
            invariant
                k < hits@.len(),
                m <= hits@[k as int].path@.len(),
                p@ == seq![i] + hits@[k as int].path@.subrange(0, m as int),
            decreases hits@[k as int].path@.len() - m,
        {
            p.push(hits[k].path[m]);
            m = m + 1;
        }
        assert(hits@[k as int].path@.subrange(0, m as int) =~= hits@[k as int].path@);
        r.push(Hit { path: p, id: hits[k].id });
        k = k + 1;
    }
    assert(hits_view(r@) =~= prefix_hits(i, hits_view(hits@)));
    r
}

impl ApplyVisitors {
    /// Every pending chain reaches at least the depth of the pass.
    pub open spec fn wf(&self) -> bool {
        forall|j: int| 0 <= j < self.visitors@.len() ==> self.index < #[trigger] self.visitors@[j].chain@.len()
    }

    /// What the pass applies within the forest `nodes`.
    pub open spec fn plan(&self, nodes: Seq<MarkerTree>) -> Seq<(Seq<usize>, usize)> {
        lookup_forest(nodes, nodes.len() as int, self.visitors@, self.index as nat)
    }

    /// A pass at depth 0 over the given lookup; each chain must be non-empty.
    pub fn new(visitors: Vec<Pending>) -> (r: Self)
        requires
            forall|j: int| 0 <= j < visitors@.len() ==> #[trigger] visitors@[j].chain@.len() > 0,
        ensures
            r.visitors@ == visitors@,
            r.index == 0,
            r.wf(),
    {
        ApplyVisitors { visitors, index: 0 }
    }

    /// The depth-0 pass for a list of chains: registration `j` is keyed on the
    /// first marker of `chains[j]` and has id `j`.
    pub fn from_chains(chains: &Vec<Vec<Marker>>) -> (r: Self)
        requires
            forall|j: int| 0 <= j < chains@.len() ==> #[trigger] chains@[j]@.len() > 0,
        ensures
            r.index == 0,
            r.wf(),
            r.visitors@.len() == chains@.len(),
            forall|j: int| 0 <= j < chains@.len() ==> {
                &&& (#[trigger] r.visitors@[j]).chain@ == chains@[j]@
                &&& r.visitors@[j].key == chains@[j]@[0]
                &&& r.visitors@[j].id == j
            },
    {
        let mut visitors: Vec<Pending> = Vec::new();
        let mut j: usize = 0;
        while j < chains.len()
            invariant
                j <= chains@.len(),
                visitors@.len() == j,
                forall|k: int| 0 <= k < chains@.len() ==> #[trigger] chains@[k]@.len() > 0,
                forall|k: int| 0 <= k < j ==> {
                    &&& (#[trigger] visitors@[k]).chain@ == chains@[k]@
                    &&& visitors@[k].key == chains@[k]@[0]
                    &&& visitors@[k].id == k
                },
            decreases chains@.len() - j,
        {
            let chain = copy_vec(&chains[j]);
            visitors.push(Pending { key: chains[j][0], chain, id: j });
            j = j + 1;
        }
        ApplyVisitors { visitors, index: 0 }
    }

    /// What the pending registrations keyed on `t`'s marker apply within `t`,
    /// registration by registration (paths relative to `t`).
    pub fn visit_if_required(&self, t: &MarkerTree) -> (r: Vec<Hit>)
        requires
            self.wf(),
        ensures
            hits_view(r@) == lookup_node(*t, self.visitors@, self.visitors@.len() as int, self.index as nat),
    {
        let mut r: Vec<Hit> = Vec::new();
        let mut j: usize = 0;
        assert(hits_view(r@) =~= Seq::<(Seq<usize>, usize)>::empty());
        while j < self.visitors.len()
            invariant
                j <= self.visitors@.len(),
                self.wf(),
                hits_view(r@) == lookup_node(*t, self.visitors@, j as int, self.index as nat),
            decreases self.visitors@.len() - j,
        {
            let e = &self.visitors[j];
            let paths = descend_node(t, e.key, &e.chain, self.index);
            let mut hits = tagged(paths, e.id);
            let ghost before = r@;
            let ghost added = hits@;
            r.append(&mut hits);
            assert(hits_view(r@) =~= hits_view(before) + hits_view(added));
            j = j + 1;
        }
        r
    }

    /// The applying pass over a forest: the node and registration of every
    /// transform to apply, node by node in order, and at each node in the
    /// order of the pending list.
    pub fn visit_nodes(&self, nodes: &Vec<MarkerTree>) -> (r: Vec<Hit>)
        requires
            self.wf(),
        ensures
            hits_view(r@) == self.plan(nodes@),
            self.index == 0 ==> forall|k: int| 0 <= k < r@.len()
                ==> #[trigger] follows_registered_chain(nodes@, self.visitors@, r@[k]),
            self.index == 0 ==> forall|j: int, p: Seq<usize>| 0 <= j < self.visitors@.len()
                && self.visitors@[j].key == self.visitors@[j].chain@[0]
                && valid_path(nodes@, p) && #[trigger] path_markers(nodes@, p) == (#[trigger] self.visitors@[j]).chain@
                ==> hits_view(r@).contains((p, self.visitors@[j].id)),
    {
        let mut r: Vec<Hit> = Vec::new();
        let mut i: usize = 0;
        assert(hits_view(r@) =~= Seq::<(Seq<usize>, usize)>::empty());
        while i < nodes.len()
            invariant
                i <= nodes@.len(),
                self.wf(),
                hits_view(r@) == lookup_forest(nodes@, i as int, self.visitors@, self.index as nat),
            decreases nodes@.len() - i,
        {
            let sub = self.visit_if_required(&nodes[i]);
            let mut pre = prefixed_hits(i, sub);
            let ghost before = r@;
            let ghost added = pre@;
            r.append(&mut pre);
            assert(hits_view(r@) =~= hits_view(before) + hits_view(added));
            i = i + 1;
        }
        proof {
            if self.index == 0 {
                assert(nodes.len() == nodes@.len());
                assert forall|k: int| 0 <= k < r@.len()
                    implies #[trigger] follows_registered_chain(nodes@, self.visitors@, r@[k]) by {
                    assert(hits_view(r@)[k] == (r@[k].path@, r@[k].id));
                    assert(self.plan(nodes@).contains((r@[k].path@, r@[k].id)));
                    lemma_applied_nodes_follow_chains(*self, nodes@, r@[k].path@, r@[k].id);
                }
                assert forall|j: int, p: Seq<usize>| 0 <= j < self.visitors@.len()
                    && self.visitors@[j].key == self.visitors@[j].chain@[0]
                    && valid_path(nodes@, p) && #[trigger] path_markers(nodes@, p) == (#[trigger] self.visitors@[j]).chain@
                    implies hits_view(r@).contains((p, self.visitors@[j].id)) by {
                    lemma_applied_nodes_follow_chains(*self, nodes@, p, self.visitors@[j].id);
                }
            }
        }
        r
    }
}

pub(crate) fn copy_vec<T: Copy>(c: &Vec<T>) -> (r: Vec<T>)
    ensures
        r@ == c@,
{
    let mut r: Vec<T> = Vec::new();
    let mut k: usize = 0;
    while k < c.len()
        invariant
            k <= c@.len(),
            r@ == c@.subrange(0, k as int),
        decreases c@.len() - k,
    {
        r.push(c[k]);
        assert(c@.subrange(0, k + 1) =~= c@.subrange(0, k as int).push(c@[k as int]));
        k = k + 1;
    }
    assert(c@.subrange(0, k as int) =~= c@);
    r
}

} // verus!
