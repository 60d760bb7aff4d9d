//! Longest combinational path depth.
//!
//! Sequential instances break paths: a chain counts only combinational
//! instances, joined by arcs whose two endpoints are combinational. When the
//! combinational-only subgraph has a directed cycle no finite longest chain
//! exists and the depth is undefined; the cycle test goes through the
//! strongly-connected-component partition rather than through a search that
//! could diverge.

use vstd::prelude::*;
use crate::graph::{Edge, has_cycle, mutual, reach, reach_k, lemma_reach_refl, lemma_reach_one,
    lemma_reach_trans, lemma_reach_extend};
use crate::scc::{sccs, scc_valid, same_comp};
use vstd::set_lib::{set_int_range, lemma_int_range, lemma_len_subset};

verus! {

/// The arcs of `es` that join two combinational nodes.
pub open spec fn comb_set(es: Set<Edge>, comb: Seq<bool>) -> Set<Edge> {
    Set::new(
        |e: Edge|
            es.contains(e) && e.src < comb.len() && e.dst < comb.len() && comb[e.src as int]
                && comb[e.dst as int],
    )
}

/// A combinational chain: one or more combinational nodes, each joined to the
/// next by an arc of `es`.
pub open spec fn is_chain(es: Set<Edge>, comb: Seq<bool>, p: Seq<usize>) -> bool {
    &&& p.len() >= 1
    &&& forall|i: int| 0 <= i < p.len() ==> (#[trigger] p[i]) < comb.len() && comb[p[i] as int]
    &&& forall|i: int|
        #![trigger p[i]]
        0 <= i < p.len() - 1 ==> exists|e: Edge|
            es.contains(e) && e.src == p[i] && e.dst == p[i + 1]
}

/// What the reported maximum combinational depth means: undefined exactly
/// when the combinational subgraph has a cycle, else the exact length of the
/// longest combinational chain (zero when no combinational node exists).
pub open spec fn depth_valid(es: Set<Edge>, comb: Seq<bool>, r: Option<usize>) -> bool {
    match r {
        None => has_cycle(comb_set(es, comb)),
        Some(d) => {
            &&& !has_cycle(comb_set(es, comb))
            &&& d > 0 ==> exists|p: Seq<usize>| is_chain(es, comb, p) && p.len() == d
            &&& forall|p: Seq<usize>| #[trigger] is_chain(es, comb, p) ==> p.len() <= d
            &&& (d == 0 <==> forall|v: int| 0 <= v < comb.len() ==> !comb[v])
        },
    }
}

/// Every arc of a chain is an arc of the combinational subgraph, so a chain
/// segment witnesses reachability inside it.
proof fn lemma_chain_reach(es: Set<Edge>, comb: Seq<bool>, p: Seq<usize>, a: int, b: int)
    requires
        is_chain(es, comb, p),
        0 <= a <= b < p.len(),
    ensures
        reach(comb_set(es, comb), p[a] as int, p[b] as int),
    decreases b - a,
{
    let cs = comb_set(es, comb);
    if a == b {
        lemma_reach_refl(cs, p[a] as int);
    } else {
        lemma_chain_reach(es, comb, p, a, b - 1);
        let e = choose|e: Edge| es.contains(e) && e.src == p[b - 1] && e.dst == p[b];
        assert(cs.contains(e));
        lemma_reach_extend(cs, p[a] as int, e);
    }
}

/// In an acyclic combinational subgraph no chain can repeat a node, so no
/// chain is longer than the node count.
proof fn lemma_chain_bound(es: Set<Edge>, comb: Seq<bool>, p: Seq<usize>, n: nat)
    requires
        is_chain(es, comb, p),
        comb.len() == n,
        !has_cycle(comb_set(es, comb)),
    ensures
        p.len() <= n,
{
    let cs = comb_set(es, comb);
    if p.len() > n {
        // two equal nodes would close a cycle
        assert forall|i: int, j: int| 0 <= i < j < p.len() implies p[i] != p[j] by {
            if p[i] == p[j] {
                let e = choose|e: Edge| es.contains(e) && e.src == p[i] && e.dst == p[i + 1];
                assert(cs.contains(e));
                lemma_chain_reach(es, comb, p, i + 1, j);
                assert(reach(cs, e.dst as int, e.src as int));
                assert(has_cycle(cs));
            }
        }
        let q = p.map_values(|x: usize| x as int);
        assert(q.no_duplicates()) by {
            assert forall|i: int, j: int|
                0 <= i < q.len() && 0 <= j < q.len() && i != j implies q[i] != q[j] by {
                if i < j {
                    assert(p[i] != p[j]);
                } else {
                    assert(p[j] != p[i]);
                }
            }
        }
        q.unique_seq_to_set();
        assert(q.to_set().subset_of(set_int_range(0, n as int))) by {
            assert forall|x: int| q.to_set().contains(x) implies set_int_range(
                0,
                n as int,
            ).contains(x) by {
                let i = choose|i: int| 0 <= i < q.len() && q[i] == x;
                assert(p[i] < n);
            }
        }
        lemma_int_range(0, n as int);
        lemma_len_subset(q.to_set(), set_int_range(0, n as int));
        assert(false);
    }
}

/// Two distinct mutually reachable nodes witness a cycle.
proof fn lemma_mutual_cycle(es: Set<Edge>, u: int, v: int)
    requires
        reach(es, u, v),
        reach(es, v, u),
        u != v,
    ensures
        has_cycle(es),
{
    let k = choose|k: nat| reach_k(es, u, v, k);
    lemma_mutual_cycle_k(es, u, v, k);
}

proof fn lemma_mutual_cycle_k(es: Set<Edge>, u: int, v: int, k: nat)
    requires
        reach_k(es, u, v, k),
        reach(es, v, u),
        u != v,
    ensures
        has_cycle(es),
{
    let e = choose|e: Edge|
        es.contains(e) && e.src == u && reach_k(es, e.dst as int, v, (k - 1) as nat);
    assert(reach(es, e.dst as int, v)) by {
        assert(reach_k(es, e.dst as int, v, (k - 1) as nat));
    }
    lemma_reach_trans(es, e.dst as int, v, u);
}

/// Maximum combinational depth of the graph, or `None` when a combinational
/// cycle makes it undefined.
pub fn max_comb_depth(n: usize, edges: &Vec<Edge>, comb: &Vec<bool>) -> (r: Option<usize>)
    requires
        comb@.len() == n,
        forall|j: int|
            0 <= j < edges@.len() ==> (#[trigger] edges@[j]).src < n && edges@[j].dst < n,
    ensures
        depth_valid(edges@.to_set(), comb@, r),
{
    broadcast use vstd::seq_lib::group_seq_properties;

    let ghost es = edges@.to_set();
    let ghost cs = comb_set(es, comb@);
    // keep only the arcs between two combinational nodes
    let mut ce: Vec<Edge> = Vec::new();
    let mut j: usize = 0;
    while j < edges.len()
        invariant
            j <= edges@.len(),
            comb@.len() == n,
            es == edges@.to_set(),
            cs == comb_set(es, comb@),
            forall|jj: int|
                0 <= jj < edges@.len() ==> (#[trigger] edges@[jj]).src < n && edges@[jj].dst < n,
            forall|t: int| 0 <= t < ce@.len() ==> cs.contains(#[trigger] ce@[t]),
            forall|jj: int|
                0 <= jj < j && cs.contains(#[trigger] edges@[jj]) ==> ce@.contains(edges@[jj]),
        decreases edges@.len() - j,
    {
        let e = edges[j];
        if comb[e.src] && comb[e.dst] {
            let ghost c0 = ce@;
            proof {
                assert(edges@[j as int] == e);
                assert(es.contains(e));
                assert(cs.contains(e));
            }
            ce.push(e);
            proof {
                assert(ce@[ce@.len() - 1] == e);
                assert forall|x: Edge| c0.contains(x) implies ce@.contains(x) by {
                    let t = choose|t: int| 0 <= t < c0.len() && c0[t] == x;
                    assert(ce@[t] == x);
                }
            }
        } else {
            proof {
                assert(!cs.contains(edges@[j as int]));
            }
        }
        j += 1;
    }
    proof {
        assert(ce@.to_set() =~= cs) by {
            assert forall|e: Edge| ce@.to_set().contains(e) implies cs.contains(e) by {
                let t = choose|t: int| 0 <= t < ce@.len() && ce@[t] == e;
            }
            assert forall|e: Edge| cs.contains(e) implies ce@.to_set().contains(e) by {
                let jj = choose|jj: int| 0 <= jj < edges@.len() && edges@[jj] == e;
                assert(ce@.contains(e));
            }
        }
    }
    // cycle test through the component partition
    let comps = sccs(n, &ce);
    let mut cyclic = false;
    let mut i: usize = 0;
    while i < comps.len()
        invariant
            i <= comps@.len(),
            scc_valid(n as nat, cs, comps@),
            cyclic ==> has_cycle(cs),
            !cyclic ==> forall|t: int| 0 <= t < i ==> (#[trigger] comps@[t])@.len() < 2,
        decreases comps@.len() - i,
    {
        if comps[i].len() >= 2 {
            proof {
                let u = comps@[i as int]@[0];
                let v = comps@[i as int]@[1];
                assert(mutual(cs, u as int, v as int));
                assert(u != v);
                lemma_mutual_cycle(cs, u as int, v as int);
            }
            cyclic = true;
        }
        i += 1;
    }
    let mut t: usize = 0;
    while t < ce.len()
        invariant
            t <= ce@.len(),
            cyclic ==> has_cycle(cs),
            scc_valid(n as nat, cs, comps@),
            forall|tt: int| 0 <= tt < ce@.len() ==> cs.contains(#[trigger] ce@[tt]),
            !cyclic ==> forall|t2: int|
                0 <= t2 < comps@.len() ==> (#[trigger] comps@[t2])@.len() < 2,
            !cyclic ==> forall|tt: int| 0 <= tt < t ==> (#[trigger] ce@[tt]).src != ce@[tt].dst,
        decreases ce@.len() - t,
    {
        let e = ce[t];
        if e.src == e.dst {
            proof {
                assert(cs.contains(ce@[t as int]));
                lemma_reach_refl(cs, e.dst as int);
            }
            cyclic = true;
        }
        t += 1;
    }
    if cyclic {
        return None;
    }
    proof {
        assert(!has_cycle(cs)) by {
            if has_cycle(cs) {
                let e = choose|e: Edge| cs.contains(e) && reach(cs, e.dst as int, e.src as int);
                assert(ce@.to_set().contains(e));
                assert(ce@.contains(e));
                let tt = choose|tt: int| 0 <= tt < ce@.len() && ce@[tt] == e;
                assert(e.src != e.dst);
                assert(mutual(cs, e.src as int, e.dst as int)) by {
                    lemma_reach_one(cs, e);
                }
                assert(same_comp(comps@, e.src, e.dst));
                let (ci, j1, j2): (int, int, int) = choose|ci: int, j1: int, j2: int|
                    0 <= ci < comps@.len() && 0 <= j1 < comps@[ci]@.len() && 0 <= j2 < comps@[
                        ci
                    ]@.len() && comps@[ci]@[j1] == e.src && comps@[ci]@[j2] == e.dst;
                assert(j1 != j2);
                assert(comps@[ci]@.len() >= 2);
            }
        }
    }
    // longest-chain lengths by repeated relaxation: after `r` rounds every
    // chain of length at most `r + 1` is accounted for, and no chain is
    // longer than `n` in an acyclic subgraph
    let mut dp: Vec<usize> = Vec::new();
    let mut v: usize = 0;
    while v < n
        invariant
            v <= n,
            comb@.len() == n,
            dp@.len() == v,
            forall|w: int| 0 <= w < v ==> (#[trigger] dp@[w]) == (if comb@[w] { 1usize } else { 0usize }),
        decreases n - v,
    {
        if comb[v] {
            dp.push(1);
        } else {
            dp.push(0);
        }
        v += 1;
    }
    proof {
        assert forall|w: int| 0 <= w < n && #[trigger] comb@[w] implies exists|p: Seq<usize>|
            #![trigger is_chain(es, comb@, p)]
            is_chain(es, comb@, p) && p.last() == w && p.len() == dp@[w] by {
            let p = seq![w as usize];
            assert(is_chain(es, comb@, p) && p.last() == w && p.len() == 1);
        }
    }
    let mut r: usize = 0;
    while r < n
        invariant
            r <= n,
            comb@.len() == n,
            dp@.len() == n,
            es == edges@.to_set(),
            cs == comb_set(es, comb@),
            ce@.to_set() == cs,
            !has_cycle(cs),
            forall|tt: int| 0 <= tt < ce@.len() ==> cs.contains(#[trigger] ce@[tt]),
            forall|jj: int|
                0 <= jj < edges@.len() && cs.contains(#[trigger] edges@[jj]) ==> ce@.contains(
                    edges@[jj],
                ),
            forall|w: int| 0 <= w < n ==> (#[trigger] dp@[w]) <= n,
            forall|w: int| 0 <= w < n ==> (((#[trigger] dp@[w]) == 0) <==> !comb@[w]),
            forall|w: int|
                0 <= w < n && #[trigger] comb@[w] ==> exists|p: Seq<usize>|
                    #![trigger is_chain(es, comb@, p)]
                    is_chain(es, comb@, p) && p.last() == w && p.len() == dp@[w],
            forall|p: Seq<usize>|
                #![trigger is_chain(es, comb@, p)]
                is_chain(es, comb@, p) && p.len() <= r + 1 ==> p.len() <= dp@[p.last() as int],
        decreases n - r,
    {
        let ghost dp0 = dp@;
        let mut j2: usize = 0;
        while j2 < ce.len()
            invariant
                j2 <= ce@.len(),
                comb@.len() == n,
                dp@.len() == n,
                es == edges@.to_set(),
                cs == comb_set(es, comb@),
                ce@.to_set() == cs,
                !has_cycle(cs),
                dp0.len() == n,
                forall|tt: int| 0 <= tt < ce@.len() ==> cs.contains(#[trigger] ce@[tt]),
                forall|w: int| 0 <= w < n ==> (#[trigger] dp@[w]) <= n,
                forall|w: int| 0 <= w < n ==> dp0[w] <= (#[trigger] dp@[w]),
                forall|w: int| 0 <= w < n ==> (((#[trigger] dp@[w]) == 0) <==> !comb@[w]),
                forall|w: int|
                    0 <= w < n && #[trigger] comb@[w] ==> exists|p: Seq<usize>|
                        #![trigger is_chain(es, comb@, p)]
                        is_chain(es, comb@, p) && p.last() == w && p.len() == dp@[w],
                forall|tt: int|
                    0 <= tt < j2 ==> dp@[(#[trigger] ce@[tt]).dst as int] >= dp0[ce@[tt].src as int]
                        + 1,
                forall|p: Seq<usize>|
                    #![trigger is_chain(es, comb@, p)]
                    is_chain(es, comb@, p) && p.len() <= r + 1 ==> p.len() <= dp0[p.last() as int],
            decreases ce@.len() - j2,
        {
            let e = ce[j2];
            proof {
                assert(cs.contains(ce@[j2 as int]));
            }
            let cur = dp[e.src];
            if dp[e.dst] <= cur {
                let ghost dpre = dp@;
                let ghost p = choose|p: Seq<usize>|
                    is_chain(es, comb@, p) && p.last() == e.src && p.len() == dp@[e.src as int];
                let ghost p2 = p.push(e.dst);
                proof {
                    // extend a longest chain into e.src by the arc e
                    assert(is_chain(es, comb@, p2)) by {
                        assert forall|ii: int|
                            0 <= ii < p2.len() implies (#[trigger] p2[ii]) < comb@.len()
                            && comb@[p2[ii] as int] by {
                            if ii < p.len() {
                                assert(p2[ii] == p[ii]);
                            } else {
                                assert(p2[ii] == e.dst);
                            }
                        }
                        assert forall|ii: int|
                            #![trigger p2[ii]]
                            0 <= ii < p2.len() - 1 implies exists|ee: Edge|
                            es.contains(ee) && ee.src == p2[ii] && ee.dst == p2[ii + 1] by {
                            if ii < p.len() - 1 {
                                assert(p2[ii] == p[ii] && p2[ii + 1] == p[ii + 1]);
                                assert(exists|ee: Edge|
                                    es.contains(ee) && ee.src == p[ii] && ee.dst == p[ii + 1]);
                            } else {
                                assert(p2[ii] == p.last() && p2[ii + 1] == e.dst);
                                assert(es.contains(e) && e.src == p2[ii] && e.dst == p2[ii + 1]);
                            }
                        }
                    }
                    assert(p2.last() == e.dst && p2.len() == dp@[e.src as int] + 1);
                    lemma_chain_bound(es, comb@, p2, n as nat);
                    assert(cur + 1 <= n);
                }
                dp[e.dst] = cur + 1;
                proof {
                    assert forall|w: int| 0 <= w < n && #[trigger] comb@[w] implies exists|
                        pw: Seq<usize>,
                    |
                        #![trigger is_chain(es, comb@, pw)]
                        is_chain(es, comb@, pw) && pw.last() == w && pw.len() == dp@[w] by {
                        if w == e.dst as int {
                            assert(is_chain(es, comb@, p2) && p2.last() == w && p2.len() == dp@[w]);
                        } else {
                            assert(dp@[w] == dpre[w]);
                            let pw = choose|pw: Seq<usize>|
                                #![trigger is_chain(es, comb@, pw)]
                                is_chain(es, comb@, pw) && pw.last() == w && pw.len() == dpre[w];
                            assert(is_chain(es, comb@, pw) && pw.last() == w && pw.len() == dp@[w]);
                        }
                    }
                }
            }
            j2 += 1;
        }
        proof {
            // a chain one longer than the round bound ends with a relaxed arc
            assert forall|p: Seq<usize>|
                #![trigger is_chain(es, comb@, p)]
                is_chain(es, comb@, p) && p.len() <= r + 2 implies p.len() <= dp@[p.last() as int] by {
                if p.len() <= 1 {
                    assert(comb@[p.last() as int]);
                    assert(dp@[p.last() as int] >= 1);
                } else {
                    let q = p.drop_last();
                    assert(q.len() == p.len() - 1);
                    assert(q.len() >= 1);
                    assert forall|ii: int|
                        0 <= ii < q.len() implies (#[trigger] q[ii]) < comb@.len()
                        && comb@[q[ii] as int] by {
                        assert(q[ii] == p[ii]);
                    }
                    assert forall|ii: int|
                        #![trigger q[ii]]
                        0 <= ii < q.len() - 1 implies exists|ee: Edge|
                        es.contains(ee) && ee.src == q[ii] && ee.dst == q[ii + 1] by {
                        assert(q[ii] == p[ii] && q[ii + 1] == p[ii + 1]);
                        assert(exists|ee: Edge|
                            es.contains(ee) && ee.src == p[ii] && ee.dst == p[ii + 1]);
                    }
                    assert(is_chain(es, comb@, q));
                    assert(q.len() <= dp0[q.last() as int]) by {
                        assert(q.len() <= r + 1);
                    }
                    let ii = p.len() - 2;
                    let ee = choose|ee: Edge|
                        es.contains(ee) && ee.src == p[ii] && ee.dst == p[ii + 1];
                    assert(cs.contains(ee));
                    let tt = choose|tt: int| 0 <= tt < ce@.len() && ce@[tt] == ee;
                    assert(dp@[ee.dst as int] >= dp0[ee.src as int] + 1);
                    assert(ee.src == q.last() && ee.dst == p.last());
                }
            }
        }
        r += 1;
    }
    // the largest entry is the maximum depth
    let mut best: usize = 0;
    let mut v2: usize = 0;
    while v2 < n
        invariant
            v2 <= n,
            comb@.len() == n,
            dp@.len() == n,
            es == edges@.to_set(),
            best <= n,
            forall|w: int| 0 <= w < n ==> (#[trigger] dp@[w]) <= n,
            forall|w: int| 0 <= w < n ==> (((#[trigger] dp@[w]) == 0) <==> !comb@[w]),
            forall|w: int|
                0 <= w < n && #[trigger] comb@[w] ==> exists|p: Seq<usize>|
                    #![trigger is_chain(es, comb@, p)]
                    is_chain(es, comb@, p) && p.last() == w && p.len() == dp@[w],
            forall|w: int| 0 <= w < v2 ==> (#[trigger] dp@[w]) <= best,
            best > 0 ==> exists|p: Seq<usize>| is_chain(es, comb@, p) && p.len() == best,
            best == 0 ==> forall|w: int| 0 <= w < v2 ==> !comb@[w],
        decreases n - v2,
    {
        if dp[v2] > best {
            best = dp[v2];
            proof {
                assert(comb@[v2 as int]);
            }
        }
        v2 += 1;
    }
    proof {
        assert forall|p: Seq<usize>| #[trigger] is_chain(es, comb@, p) implies p.len()
            <= best by {
            lemma_chain_bound(es, comb@, p, n as nat);
            assert(p.len() <= n + 1);
            assert(p.len() <= dp@[p.last() as int]);
        }
    }
    Some(best)
}

} // verus!
