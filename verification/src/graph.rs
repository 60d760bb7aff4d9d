//! Directed multigraph view of a netlist and reachability reasoning.
//!
//! Nodes are instance indices; an `Edge` records one output-to-input
//! connection (an arc of the multigraph), labeled with its source and target
//! ports so that parallel arcs between the same pair of instances stay
//! distinct.

use vstd::prelude::*;

verus! {

/// One output-to-input connection: output port `src_port` of instance `src`
/// drives input port `dst_port` of instance `dst`.
#[derive(Clone, Copy, PartialEq, Eq, Structural, Debug)]
pub struct Edge {
    pub src: usize,
    pub src_port: usize,
    pub dst: usize,
    pub dst_port: usize,
}

/// Every edge of `es` joins nodes below `n`.
pub open spec fn edges_bounded(es: Set<Edge>, n: nat) -> bool {
    forall|e: Edge| es.contains(e) ==> e.src < n && e.dst < n
}

/// `v` can be reached from `u` along edges of `es` in at most `k` steps.
pub open spec fn reach_k(es: Set<Edge>, u: int, v: int, k: nat) -> bool
    decreases k,
{
    u == v || (k > 0 && exists|e: Edge|
        es.contains(e) && e.src == u && reach_k(es, e.dst as int, v, (k - 1) as nat))
}

/// `v` can be reached from `u` along edges of `es`.
pub open spec fn reach(es: Set<Edge>, u: int, v: int) -> bool {
    exists|k: nat| reach_k(es, u, v, k)
}

/// `u` and `v` lie on a common directed cycle (or are equal).
pub open spec fn mutual(es: Set<Edge>, u: int, v: int) -> bool {
    reach(es, u, v) && reach(es, v, u)
}

/// Some directed cycle runs through `es`.
pub open spec fn has_cycle(es: Set<Edge>) -> bool {
    exists|e: Edge| es.contains(e) && reach(es, e.dst as int, e.src as int)
}

pub proof fn lemma_reach_refl(es: Set<Edge>, u: int)
    ensures
        reach(es, u, u),
{
    assert(reach_k(es, u, u, 0));
}

pub proof fn lemma_reach_k_mono(es: Set<Edge>, u: int, v: int, k1: nat, k2: nat)
    requires
        reach_k(es, u, v, k1),
        k1 <= k2,
    ensures
        reach_k(es, u, v, k2),
    decreases k1,
{
    if u != v {
        let e = choose|e: Edge|
            es.contains(e) && e.src == u && reach_k(es, e.dst as int, v, (k1 - 1) as nat);
        lemma_reach_k_mono(es, e.dst as int, v, (k1 - 1) as nat, (k2 - 1) as nat);
    }
}

pub proof fn lemma_reach_one(es: Set<Edge>, e: Edge)
    requires
        es.contains(e),
    ensures
        reach(es, e.src as int, e.dst as int),
{
    assert(reach_k(es, e.dst as int, e.dst as int, 0));
    assert(reach_k(es, e.src as int, e.dst as int, 1));
}

pub proof fn lemma_reach_k_trans(es: Set<Edge>, u: int, v: int, w: int, k1: nat, k2: nat)
    requires
        reach_k(es, u, v, k1),
        reach_k(es, v, w, k2),
    ensures
        reach_k(es, u, w, (k1 + k2) as nat),
    decreases k1,
{
    if u == v {
        lemma_reach_k_mono(es, v, w, k2, (k1 + k2) as nat);
    } else {
        let e = choose|e: Edge|
            es.contains(e) && e.src == u && reach_k(es, e.dst as int, v, (k1 - 1) as nat);
        lemma_reach_k_trans(es, e.dst as int, v, w, (k1 - 1) as nat, k2);
        assert(reach_k(es, e.dst as int, w, ((k1 - 1) + k2) as nat));
        lemma_reach_k_mono(es, e.dst as int, w, ((k1 - 1) + k2) as nat, (k1 + k2 - 1) as nat);
    }
}

pub proof fn lemma_reach_trans(es: Set<Edge>, u: int, v: int, w: int)
    requires
        reach(es, u, v),
        reach(es, v, w),
    ensures
        reach(es, u, w),
{
    let k1 = choose|k: nat| reach_k(es, u, v, k);
    let k2 = choose|k: nat| reach_k(es, v, w, k);
    lemma_reach_k_trans(es, u, v, w, k1, k2);
}

/// Appending one edge to a walk keeps its endpoint reachable.
pub proof fn lemma_reach_extend(es: Set<Edge>, u: int, e: Edge)
    requires
        reach(es, u, e.src as int),
        es.contains(e),
    ensures
        reach(es, u, e.dst as int),
{
    lemma_reach_one(es, e);
    lemma_reach_trans(es, u, e.src as int, e.dst as int);
}

/// Along edges that all go strictly forward in a placement `pos`, reaching a
/// different node means moving strictly forward.
proof fn lemma_pos_reach(es: Set<Edge>, pos: Seq<int>, n: nat, u: int, v: int, k: nat)
    requires
        edges_bounded(es, n),
        pos.len() == n,
        forall|e: Edge| #[trigger] es.contains(e) ==> pos[e.src as int] < pos[e.dst as int],
        reach_k(es, u, v, k),
        u != v,
    ensures
        0 <= v < n && (0 <= u < n ==> pos[u] < pos[v]),
    decreases k,
{
    let e = choose|e: Edge|
        es.contains(e) && e.src == u && reach_k(es, e.dst as int, v, (k - 1) as nat);
    if e.dst == v {
    } else {
        lemma_pos_reach(es, pos, n, e.dst as int, v, (k - 1) as nat);
    }
}

/// A graph whose every edge goes strictly forward in some placement is
/// acyclic.
pub proof fn lemma_pos_no_cycle(es: Set<Edge>, pos: Seq<int>, n: nat)
    requires
        edges_bounded(es, n),
        pos.len() == n,
        forall|e: Edge| #[trigger] es.contains(e) ==> pos[e.src as int] < pos[e.dst as int],
    ensures
        !has_cycle(es),
{
    assert forall|e: Edge| es.contains(e) implies !reach(es, e.dst as int, e.src as int) by {
        if reach(es, e.dst as int, e.src as int) {
            let k = choose|k: nat| reach_k(es, e.dst as int, e.src as int, k);
            if e.dst == e.src {
                assert(pos[e.src as int] < pos[e.dst as int]);
            } else {
                lemma_pos_reach(es, pos, n, e.dst as int, e.src as int, k);
            }
        }
    }
}

/// Reaching within the sub-graph whose arcs keep both ends reachable from
/// `root`: a walk from `root` never leaves it.
pub proof fn lemma_reach_restrict(es: Set<Edge>, es2: Set<Edge>, root: int, u: int, v: int, k: nat)
    requires
        reach(es, root, u),
        reach_k(es, u, v, k),
        forall|e: Edge|
            es.contains(e) && reach(es, root, e.src as int) && reach(es, root, e.dst as int)
                ==> es2.contains(e),
    ensures
        reach_k(es2, u, v, k),
    decreases k,
{
    if u != v {
        let e = choose|e: Edge|
            es.contains(e) && e.src == u && reach_k(es, e.dst as int, v, (k - 1) as nat);
        lemma_reach_extend(es, root, e);
        assert(es2.contains(e));
        lemma_reach_restrict(es, es2, root, e.dst as int, v, (k - 1) as nat);
        assert(reach_k(es2, e.dst as int, v, (k - 1) as nat));
    }
}

/// The same connection read against the direction of the arrow.
pub open spec fn flip(e: Edge) -> Edge {
    Edge { src: e.dst, src_port: e.dst_port, dst: e.src, dst_port: e.src_port }
}

proof fn lemma_reach_k_flip(fs: Set<Edge>, es: Set<Edge>, u: int, v: int, k: nat)
    requires
        forall|e: Edge| #[trigger] fs.contains(e) ==> es.contains(flip(e)),
        reach_k(fs, u, v, k),
    ensures
        reach(es, v, u),
    decreases k,
{
    if u == v {
        lemma_reach_refl(es, u);
    } else {
        let e = choose|e: Edge|
            fs.contains(e) && e.src == u && reach_k(fs, e.dst as int, v, (k - 1) as nat);
        lemma_reach_k_flip(fs, es, e.dst as int, v, (k - 1) as nat);
        assert(es.contains(flip(e)) && flip(e).src == e.dst && flip(e).dst == u);
        lemma_reach_extend(es, v, flip(e));
    }
}

/// Reachability in a graph of flipped edges is reachability against the
/// arrows of the graph itself.
pub proof fn lemma_reach_flip(fs: Set<Edge>, es: Set<Edge>, u: int, v: int)
    requires
        forall|e: Edge| #[trigger] fs.contains(e) ==> es.contains(flip(e)),
        forall|e: Edge| #[trigger] es.contains(e) ==> fs.contains(flip(e)),
    ensures
        reach(fs, u, v) <==> reach(es, v, u),
{
    if reach(fs, u, v) {
        let k = choose|k: nat| reach_k(fs, u, v, k);
        lemma_reach_k_flip(fs, es, u, v, k);
    }
    if reach(es, v, u) {
        let k = choose|k: nat| reach_k(es, v, u, k);
        lemma_reach_k_flip(es, fs, v, u, k);
    }
}

} // verus!
