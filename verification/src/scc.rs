//! Strongly connected components of the connectivity multigraph.
//!
//! `sccs` partitions the nodes `0..n` into maximal sets of mutually
//! reachable nodes. The partition is computed per root node from an exact
//! forward and backward reachable set, each obtained by a verified
//! breadth-first search: one search pair per component root, quadratic in
//! the worst case where a single-pass algorithm would be linear. The
//! contract states the exact partition either way.

use vstd::prelude::*;
use crate::graph::{Edge, edges_bounded, flip, mutual, reach, reach_k, lemma_reach_refl,
    lemma_reach_extend, lemma_reach_trans, lemma_reach_flip};

verus! {

/// Number of `true` entries of a boolean sequence.
pub open spec fn count_true(s: Seq<bool>) -> int
    decreases s.len(),
{
    if s.len() == 0 {
        0
    } else {
        count_true(s.drop_last()) + if s.last() {
            1int
        } else {
            0int
        }
    }
}

pub proof fn lemma_count_true_bounds(s: Seq<bool>)
    ensures
        0 <= count_true(s) <= s.len(),
    decreases s.len(),
{
    if s.len() > 0 {
        lemma_count_true_bounds(s.drop_last());
    }
}

pub proof fn lemma_count_true_update(s: Seq<bool>, i: int)
    requires
        0 <= i < s.len(),
        !s[i],
    ensures
        count_true(s.update(i, true)) == count_true(s) + 1,
    decreases s.len(),
{
    let t = s.update(i, true);
    if i == s.len() - 1 {
        assert(t.drop_last() =~= s.drop_last());
    } else {
        assert(t.drop_last() =~= s.drop_last().update(i, true));
        lemma_count_true_update(s.drop_last(), i);
    }
}

/// A fully `true` sequence counts its whole length.
pub proof fn lemma_count_all_true(s: Seq<bool>)
    requires
        forall|v: int| 0 <= v < s.len() ==> s[v],
    ensures
        count_true(s) == s.len(),
    decreases s.len(),
{
    if s.len() > 0 {
        lemma_count_all_true(s.drop_last());
    }
}

/// A set of marks closed under the edges and holding the start node holds
/// every node the start reaches.
proof fn lemma_closed_reach(es: Set<Edge>, m: Seq<bool>, u: int, v: int, k: nat)
    requires
        reach_k(es, u, v, k),
        0 <= u < m.len(),
        m[u],
        edges_bounded(es, m.len() as nat),
        forall|e: Edge| es.contains(e) && m[e.src as int] ==> m[e.dst as int],
    ensures
        0 <= v < m.len() && m[v],
    decreases k,
{
    if u != v {
        let e = choose|e: Edge|
            es.contains(e) && e.src == u && reach_k(es, e.dst as int, v, (k - 1) as nat);
        assert(m[e.dst as int]);
        lemma_closed_reach(es, m, e.dst as int, v, (k - 1) as nat);
    }
}

/// Exact reachable set from `start`: marks a node if and only if `start`
/// reaches it.
pub fn bfs(n: usize, edges: &Vec<Edge>, start: usize) -> (m: Vec<bool>)
    requires
        start < n,
        forall|j: int|
            0 <= j < edges@.len() ==> (#[trigger] edges@[j]).src < n && edges@[j].dst < n,
    ensures
        m@.len() == n,
        forall|v: int| 0 <= v < n ==> (m@[v] <==> reach(edges@.to_set(), start as int, v)),
{
    broadcast use vstd::seq_lib::group_seq_properties;

    let ghost es = edges@.to_set();
    proof {
        assert forall|e: Edge| es.contains(e) implies e.src < n && e.dst < n by {
            let j = choose|j: int| 0 <= j < edges@.len() && edges@[j] == e;
        }
    }
    let mut m: Vec<bool> = Vec::new();
    let mut i: usize = 0;
    while i < n
        invariant
            i <= n,
            m@.len() == i,
            forall|v: int| 0 <= v < i ==> !m@[v],
        decreases n - i,
    {
        m.push(false);
        i += 1;
    }
    proof {
        lemma_count_true_update(m@, start as int);
        assert(count_true(m@) == 0) by {
            lemma_count_all_false(m@);
        }
    }
    m[start] = true;
    let mut work: Vec<usize> = Vec::new();
    work.push(start);
    let mut marked: usize = 1;
    proof {
        lemma_reach_refl(es, start as int);
    }
    while work.len() > 0
        invariant
            m@.len() == n,
            start < n,
            m@[start as int],
            marked == count_true(m@),
            marked <= n,
            edges_bounded(es, n as nat),
            es == edges@.to_set(),
            forall|j: int|
                0 <= j < edges@.len() ==> (#[trigger] edges@[j]).src < n && edges@[j].dst < n,
            forall|t: int|
                0 <= t < work@.len() ==> (#[trigger] work@[t]) < n && m@[work@[t] as int],
            forall|v: int| 0 <= v < n && m@[v] ==> reach(es, start as int, v),
            forall|j: int|
                0 <= j < edges@.len() && m@[(#[trigger] edges@[j]).src as int]
                    && !work@.contains(edges@[j].src) ==> m@[edges@[j].dst as int],
        decreases n - marked, work.len(),
    {
        let ghost marked0 = marked;
        let ghost work0 = work@;
        let u = work.pop().unwrap();
        proof {
            assert(u == work0[work0.len() - 1]);
            assert(work@ == work0.subrange(0, work0.len() - 1));
            assert forall|x: usize| work0.contains(x) && x != u implies work@.contains(x) by {
                let t = choose|t: int| 0 <= t < work0.len() && work0[t] == x;
                assert(work@[t] == x);
            }
        }
        let mut j: usize = 0;
        while j < edges.len()
            invariant
                m@.len() == n,
                u < n,
                m@[u as int],
                start < n,
                m@[start as int],
                marked == count_true(m@),
                marked <= n,
                marked >= marked0,
                edges_bounded(es, n as nat),
                es == edges@.to_set(),
                j <= edges@.len(),
                forall|jj: int|
                    0 <= jj < edges@.len() ==> (#[trigger] edges@[jj]).src < n && edges@[jj].dst
                        < n,
                forall|t: int|
                    0 <= t < work@.len() ==> (#[trigger] work@[t]) < n && m@[work@[t] as int],
                forall|v: int| 0 <= v < n && m@[v] ==> reach(es, start as int, v),
                forall|jj: int|
                    0 <= jj < edges@.len() && m@[(#[trigger] edges@[jj]).src as int]
                        && !work@.contains(edges@[jj].src) && edges@[jj].src != u ==> m@[edges@[
                        jj].dst as int],
                forall|jj: int|
                    0 <= jj < j && (#[trigger] edges@[jj]).src == u ==> m@[edges@[jj].dst as int],
                marked > marked0 || work@.len() < work0.len(),
            decreases edges@.len() - j,
        {
            let e = edges[j];
            if e.src == u && !m[e.dst] {
                proof {
                    lemma_count_true_update(m@, e.dst as int);
                    assert(es.contains(e)) by {
                        assert(edges@[j as int] == e);
                    }
                    lemma_reach_extend(es, start as int, e);
                    lemma_count_true_bounds(m@.update(e.dst as int, true));
                }
                let ghost w0 = work@;
                m[e.dst] = true;
                marked += 1;
                work.push(e.dst);
                proof {
                    assert(work@ == w0.push(e.dst));
                    assert forall|x: usize| w0.contains(x) implies work@.contains(x) by {
                        let t = choose|t: int| 0 <= t < w0.len() && w0[t] == x;
                        assert(work@[t] == x);
                    }
                    assert(work@[work@.len() - 1] == e.dst);
                    assert(work@.contains(e.dst));
                    assert forall|x: usize| work@.contains(x) && x != e.dst implies w0.contains(
                        x,
                    ) by {
                        let t = choose|t: int| 0 <= t < work@.len() && work@[t] == x;
                        assert(w0[t] == x);
                    }
                }
            }
            j += 1;
        }
    }
    proof {
        assert forall|e: Edge| es.contains(e) && m@[e.src as int] implies m@[e.dst as int] by {
            let j = choose|j: int| 0 <= j < edges@.len() && edges@[j] == e;
        }
        assert forall|v: int| 0 <= v < n && reach(es, start as int, v) implies m@[v] by {
            let k = choose|k: nat| reach_k(es, start as int, v, k);
            lemma_closed_reach(es, m@, start as int, v, k);
        }
    }
    m
}

pub proof fn lemma_count_all_false(s: Seq<bool>)
    requires
        forall|v: int| 0 <= v < s.len() ==> !s[v],
    ensures
        count_true(s) == 0,
    decreases s.len(),
{
    if s.len() > 0 {
        lemma_count_all_false(s.drop_last());
    }
}

/// Node `v` occurs somewhere in the partition `comps`.
pub open spec fn in_comps(comps: Seq<Vec<usize>>, v: usize) -> bool {
    exists|i: int, j: int|
        #![trigger comps[i]@[j]]
        0 <= i < comps.len() && 0 <= j < comps[i]@.len() && comps[i]@[j] == v
}

/// Nodes `u` and `v` occur in one and the same component of `comps`.
pub open spec fn same_comp(comps: Seq<Vec<usize>>, u: usize, v: usize) -> bool {
    exists|i: int, j1: int, j2: int|
        #![trigger comps[i]@[j1], comps[i]@[j2]]
        0 <= i < comps.len() && 0 <= j1 < comps[i]@.len() && 0 <= j2 < comps[i]@.len()
            && comps[i]@[j1] == u && comps[i]@[j2] == v
}

/// The component partition `comps` is exactly the set of mutual-reachability
/// classes of the graph `es` over the nodes `0..n`.
pub open spec fn scc_valid(n: nat, es: Set<Edge>, comps: Seq<Vec<usize>>) -> bool {
    &&& forall|i: int| 0 <= i < comps.len() ==> (#[trigger] comps[i])@.len() > 0
    &&& forall|i: int, j: int|
        0 <= i < comps.len() && 0 <= j < comps[i]@.len() ==> (#[trigger] comps[i]@[j]) < n
    &&& forall|v: usize| v < n ==> #[trigger] in_comps(comps, v)
    &&& forall|i1: int, j1: int, i2: int, j2: int|
        0 <= i1 < comps.len() && 0 <= j1 < comps[i1]@.len() && 0 <= i2 < comps.len() && 0 <= j2
            < comps[i2]@.len() && #[trigger] comps[i1]@[j1] == #[trigger] comps[i2]@[j2] ==> i1
            == i2 && j1 == j2
    &&& forall|i: int, j1: int, j2: int|
        0 <= i < comps.len() && 0 <= j1 < comps[i]@.len() && 0 <= j2 < comps[i]@.len() ==> mutual(
            es,
            #[trigger] comps[i]@[j1] as int,
            #[trigger] comps[i]@[j2] as int,
        )
    &&& forall|u: usize, v: usize|
        u < n && v < n && mutual(es, u as int, v as int) ==> #[trigger] same_comp(comps, u, v)
}

/// Partition the nodes `0..n` into strongly connected components.
///
/// Every node lands in exactly one component; two nodes share a component
/// exactly when each reaches the other.
pub fn sccs(n: usize, edges: &Vec<Edge>) -> (comps: Vec<Vec<usize>>)
    requires
        forall|j: int|
            0 <= j < edges@.len() ==> (#[trigger] edges@[j]).src < n && edges@[j].dst < n,
    ensures
        scc_valid(n as nat, edges@.to_set(), comps@),
{
    broadcast use vstd::seq_lib::group_seq_properties;

    let ghost es = edges@.to_set();
    let mut redges: Vec<Edge> = Vec::new();
    let mut t: usize = 0;
    while t < edges.len()
        invariant
            t <= edges@.len(),
            redges@.len() == t,
            forall|j: int| 0 <= j < t ==> redges@[j] == flip(edges@[j]),
            forall|j: int|
                0 <= j < edges@.len() ==> (#[trigger] edges@[j]).src < n && edges@[j].dst < n,
        decreases edges@.len() - t,
    {
        let e = edges[t];
        redges.push(Edge { src: e.dst, src_port: e.dst_port, dst: e.src, dst_port: e.src_port });
        t += 1;
    }
    proof {
        assert forall|e: Edge| redges@.to_set().contains(e) implies es.contains(flip(e)) by {
            let j = choose|j: int| 0 <= j < redges@.len() && redges@[j] == e;
            assert(edges@[j] == flip(e));
        }
        assert forall|e: Edge| es.contains(e) implies redges@.to_set().contains(flip(e)) by {
            let j = choose|j: int| 0 <= j < edges@.len() && edges@[j] == e;
            assert(redges@[j] == flip(e));
        }
    }
    let ghost res = redges@.to_set();
    let mut comps: Vec<Vec<usize>> = Vec::new();
    let mut assigned: Vec<bool> = Vec::new();
    let mut i: usize = 0;
    while i < n
        invariant
            i <= n,
            assigned@.len() == i,
            forall|v: int| 0 <= v < i ==> !assigned@[v],
        decreases n - i,
    {
        assigned.push(false);
        i += 1;
    }
    let mut u: usize = 0;
    while u < n
        invariant
            u <= n,
            assigned@.len() == n,
            es == edges@.to_set(),
            res == redges@.to_set(),
            forall|e: Edge| #[trigger] res.contains(e) ==> es.contains(flip(e)),
            forall|e: Edge| #[trigger] es.contains(e) ==> res.contains(flip(e)),
            forall|j: int|
                0 <= j < edges@.len() ==> (#[trigger] edges@[j]).src < n && edges@[j].dst < n,
            forall|j: int|
                0 <= j < redges@.len() ==> (#[trigger] redges@[j]).src < n && redges@[j].dst < n,
            forall|i: int| 0 <= i < comps@.len() ==> (#[trigger] comps@[i])@.len() > 0,
            forall|i: int, j: int|
                0 <= i < comps@.len() && 0 <= j < comps@[i]@.len() ==> (#[trigger] comps@[i]@[j])
                    < n,
            forall|v: usize| v < n ==> ((assigned@[v as int] <==> in_comps(comps@, v))),
            forall|v: int| 0 <= v < u ==> assigned@[v],
            forall|i1: int, j1: int, i2: int, j2: int|
                0 <= i1 < comps@.len() && 0 <= j1 < comps@[i1]@.len() && 0 <= i2 < comps@.len()
                    && 0 <= j2 < comps@[i2]@.len() && #[trigger] comps@[i1]@[j1]
                    == #[trigger] comps@[i2]@[j2] ==> i1 == i2 && j1 == j2,
            forall|i: int, j1: int, j2: int|
                0 <= i < comps@.len() && 0 <= j1 < comps@[i]@.len() && 0 <= j2 < comps@[i]@.len()
                    ==> mutual(es, #[trigger] comps@[i]@[j1] as int, #[trigger] comps@[i]@[j2] as int),
            // each existing component is a full mutual-reachability class
            forall|i: int, j: int, w: usize|
                0 <= i < comps@.len() && 0 <= j < comps@[i]@.len() && w < n && mutual(
                    es,
                    comps@[i]@[j] as int,
                    w as int,
                ) ==> exists|j2: int| 0 <= j2 < comps@[i]@.len() && (#[trigger] comps@[i]@[j2]) == w,
        decreases n - u,
    {
        if !assigned[u] {
            let f = bfs(n, edges, u);
            let b = bfs(n, &redges, u);
            proof {
                assert forall|v: int| 0 <= v < n implies (reach(res, u as int, v) <==> reach(
                    es,
                    v,
                    u as int,
                )) by {
                    lemma_reach_flip(res, es, u as int, v);
                }
            }
            let mut comp: Vec<usize> = Vec::new();
            let mut v: usize = 0;
            while v < n
                invariant
                    v <= n,
                    u < n,
                    f@.len() == n,
                    b@.len() == n,
                    forall|w: int| 0 <= w < n ==> (f@[w] <==> reach(es, u as int, w)),
                    forall|w: int| 0 <= w < n ==> (b@[w] <==> reach(es, w, u as int)),
                    forall|j: int| 0 <= j < comp@.len() ==> (#[trigger] comp@[j]) < v,
                    forall|j: int|
                        0 <= j < comp@.len() ==> mutual(es, u as int, (#[trigger] comp@[j]) as int),
                    forall|w: usize| w < v && mutual(es, u as int, w as int) ==> comp@.contains(w),
                    forall|j1: int, j2: int|
                        0 <= j1 < j2 < comp@.len() ==> comp@[j1] != comp@[j2],
                decreases n - v,
            {
                if f[v] && b[v] {
                    let ghost c0 = comp@;
                    comp.push(v);
                    proof {
                        assert(comp@[comp@.len() - 1] == v);
                        assert(comp@.contains(v));
                        assert forall|x: usize| c0.contains(x) implies comp@.contains(x) by {
                            let t = choose|t: int| 0 <= t < c0.len() && c0[t] == x;
                            assert(comp@[t] == x);
                        }
                    }
                }
                v += 1;
            }
            proof {
                lemma_reach_refl(es, u as int);
                assert(mutual(es, u as int, u as int));
                assert(comp@.contains(u));
            }
            // none of the class is already assigned: an assigned member would
            // put `u` itself inside an existing (closed) component
            let ghost comps0 = comps@;
            let ghost assigned0 = assigned@;
            proof {
                assert forall|j: int| 0 <= j < comp@.len() implies !assigned@[comp@[j] as int] by {
                    let w = comp@[j];
                    if assigned@[w as int] {
                        assert(in_comps(comps@, w));
                        let (ci, cj): (int, int) = choose|ci: int, cj: int|
                            0 <= ci < comps@.len() && 0 <= cj < comps@[ci]@.len() && comps@[ci]@[cj]
                                == w;
                        assert(mutual(es, u as int, w as int));
                        assert(mutual(es, comps@[ci]@[cj] as int, u as int)) by {
                            lemma_mutual_trans(es, w as int, u as int, u as int);
                        }
                        let j2 = choose|j2: int|
                            0 <= j2 < comps@[ci]@.len() && comps@[ci]@[j2] == u;
                        assert(in_comps(comps@, u));
                        assert(assigned@[u as int]);
                    }
                }
            }
            let mut j: usize = 0;
            while j < comp.len()
                invariant
                    comp@.len() > 0,
                    u < n,
                    j <= comp@.len(),
                    assigned@.len() == n,
                    comps@ == comps0,
                    forall|t: int| 0 <= t < comp@.len() ==> (#[trigger] comp@[t]) < n,
                    forall|j1: int, j2: int|
                        0 <= j1 < j2 < comp@.len() ==> comp@[j1] != comp@[j2],
                    forall|v: int|
                        0 <= v < n ==> ((assigned@[v] <==> (assigned0[v] || exists|t: int|
                            0 <= t < j && comp@[t] == v))),
                    forall|t: int| 0 <= t < comp@.len() ==> !assigned0[comp@[t] as int],
                decreases comp@.len() - j,
            {
                let w = comp[j];
                assigned[w] = true;
                proof {
                    assert(comp@[j as int] == w);
                }
                j += 1;
            }
            proof {
                let t = choose|t: int| 0 <= t < comp@.len() && comp@[t] == u;
                assert(assigned@[u as int]);
                assert forall|v: int| 0 <= v < u implies assigned@[v] by {
                    assert(assigned0[v]);
                }
            }
            comps.push(comp);
            proof {
                let cs = comps@;
                let ci = cs.len() - 1;
                assert(cs[ci]@ == comp@);
                assert forall|v: usize| v < n implies (assigned@[v as int] <==> in_comps(
                    cs,
                    v,
                )) by {
                    if assigned@[v as int] {
                        if assigned0[v as int] {
                            assert(in_comps(comps0, v));
                            let (i0, j0): (int, int) = choose|i0: int, j0: int|
                                0 <= i0 < comps0.len() && 0 <= j0 < comps0[i0]@.len()
                                    && comps0[i0]@[j0] == v;
                            assert(cs[i0]@[j0] == v);
                            assert(in_comps(cs, v));
                        } else {
                            let t = choose|t: int| 0 <= t < comp@.len() && comp@[t] == v;
                            assert(cs[ci]@[t] == v);
                            assert(in_comps(cs, v));
                        }
                    } else {
                        if in_comps(cs, v) {
                            let (i0, j0): (int, int) = choose|i0: int, j0: int|
                                0 <= i0 < cs.len() && 0 <= j0 < cs[i0]@.len() && cs[i0]@[j0] == v;
                            if i0 < ci {
                                assert(comps0[i0]@[j0] == v);
                                assert(in_comps(comps0, v));
                                assert(false);
                            } else {
                                assert(comp@[j0] == v);
                                assert(false);
                            }
                        }
                    }
                }
                assert forall|i1: int, j1: int, i2: int, j2: int|
                    0 <= i1 < cs.len() && 0 <= j1 < cs[i1]@.len() && 0 <= i2 < cs.len() && 0 <= j2
                        < cs[i2]@.len() && #[trigger] cs[i1]@[j1] == #[trigger] cs[i2]@[j2]
                    implies i1 == i2 && j1 == j2 by {
                    let w = cs[i1]@[j1];
                    if i1 < ci && i2 < ci {
                        assert(comps0[i1]@[j1] == comps0[i2]@[j2]);
                    } else if i1 == ci && i2 == ci {
                        if j1 != j2 {
                            assert(comp@[j1] != comp@[j2] || comp@[j2] != comp@[j1]);
                        }
                    } else if i1 == ci && i2 < ci {
                        assert(!assigned0[comp@[j1] as int]);
                        assert(comps0[i2]@[j2] == w);
                        assert(in_comps(comps0, w));
                        assert(assigned0[w as int]);
                        assert(false);
                    } else {
                        assert(!assigned0[comp@[j2] as int]);
                        assert(comps0[i1]@[j1] == w);
                        assert(in_comps(comps0, w));
                        assert(assigned0[w as int]);
                        assert(false);
                    }
                }
                assert forall|i: int, j1: int, j2: int|
                    0 <= i < cs.len() && 0 <= j1 < cs[i]@.len() && 0 <= j2 < cs[i]@.len() implies
                    mutual(es, cs[i]@[j1] as int, cs[i]@[j2] as int) by {
                    if i == ci {
                        assert(mutual(es, u as int, comp@[j1] as int));
                        assert(mutual(es, u as int, comp@[j2] as int));
                        lemma_mutual_trans(es, comp@[j1] as int, u as int, comp@[j2] as int);
                    }
                }
                assert forall|i: int, j: int, w: usize|
                    0 <= i < cs.len() && 0 <= j < cs[i]@.len() && w < n && mutual(
                        es,
                        cs[i]@[j] as int,
                        w as int,
                    ) implies exists|j2: int|
                    0 <= j2 < cs[i]@.len() && (#[trigger] cs[i]@[j2]) == w by {
                    if i == ci {
                        assert(mutual(es, u as int, comp@[j] as int));
                        lemma_mutual_trans(es, u as int, comp@[j] as int, w as int);
                        assert(comp@.contains(w));
                        let j2 = choose|j2: int| 0 <= j2 < comp@.len() && comp@[j2] == w;
                        assert(cs[i]@[j2] == w);
                    }
                }
            }
        }
        proof {
            assert(assigned@[u as int]);
        }
        u += 1;
    }
    proof {
        assert forall|v: usize| v < n implies #[trigger] in_comps(comps@, v) by {
            assert(assigned@[v as int]);
        }
        assert forall|a: usize, w: usize|
            a < n && w < n && mutual(es, a as int, w as int) implies #[trigger] same_comp(
            comps@,
            a,
            w,
        ) by {
            assert(in_comps(comps@, a));
            let (i0, j0): (int, int) = choose|i0: int, j0: int|
                0 <= i0 < comps@.len() && 0 <= j0 < comps@[i0]@.len() && comps@[i0]@[j0] == a;
            let j2 = choose|j2: int| 0 <= j2 < comps@[i0]@.len() && comps@[i0]@[j2] == w;
            assert(comps@[i0]@[j0] == a && comps@[i0]@[j2] == w);
        }
    }
    comps
}

proof fn lemma_mutual_trans(es: Set<Edge>, a: int, b: int, c: int)
    requires
        mutual(es, b, a),
        mutual(es, b, c),
    ensures
        mutual(es, a, c),
{
    lemma_reach_trans(es, a, b, c);
    lemma_reach_trans(es, c, b, a);
}

} // verus!
