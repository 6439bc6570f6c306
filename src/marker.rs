use vstd::prelude::*;

verus! {

/// Position marker of a node: the byte range it was parsed from. Distinct
/// nodes may carry equal markers (a cloned subtree keeps its markers).
#[derive(Clone, Copy, Debug, PartialEq, Eq, Hash, Structural)]
pub struct Marker {
    pub lo: u32,
    pub hi: u32,
}

/// The traversal-significant skeleton of a syntax tree: each node's marker and
/// its significant children, in traversal order.
#[derive(Debug)]
pub struct MarkerTree {
    pub marker: Marker,
    pub children: Vec<MarkerTree>,
}

impl MarkerTree {
    pub fn leaf(marker: Marker) -> (r: MarkerTree)
        ensures
            r.marker == marker,
            r.children@.len() == 0,
    {
        MarkerTree { marker, children: Vec::new() }
    }

    pub fn node(marker: Marker, children: Vec<MarkerTree>) -> (r: MarkerTree)
        ensures
            r.marker == marker,
            r.children@ == children@,
    {
        MarkerTree { marker, children }
    }
}

/// `p` leads, one child index per level, from the forest `nodes` to a node.
pub open spec fn valid_path(nodes: Seq<MarkerTree>, p: Seq<usize>) -> bool
    decreases p.len(),
{
    if p.len() == 0 {
        false
    } else if p[0] >= nodes.len() {
        false
    } else if p.len() == 1 {
        true
    } else {
        valid_path(nodes[p[0] as int].children@, p.drop_first())
    }
}

/// The markers met along path `p`, root first and the target last: the node's chain.
pub open spec fn path_markers(nodes: Seq<MarkerTree>, p: Seq<usize>) -> Seq<Marker>
    decreases p.len(),
{
    if p.len() == 0 || p[0] >= nodes.len() {
        Seq::empty()
    } else {
        seq![nodes[p[0] as int].marker] + path_markers(nodes[p[0] as int].children@, p.drop_first())
    }
}

} // verus!
