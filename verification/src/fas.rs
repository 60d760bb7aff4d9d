//! Greedy approximate feedback arc set.
//!
//! The heuristic places the nodes in a total order — by descending
//! out-degree minus in-degree, ties broken by lowest node index — and
//! reports every arc that does not point strictly forward in that order.
//! Removing the reported arcs leaves only forward arcs, so the remaining
//! graph is acyclic; minimality is not promised. The whole selection is
//! mirrored by the specification functions below ([`greedy_order`],
//! [`greedy_arcs`]), so the reported sequence is a function of the arc list
//! alone: the heuristic is deterministic on a fixed input graph.

use vstd::prelude::*;
use crate::graph::{Edge, has_cycle, lemma_pos_no_cycle};
use crate::scc::{count_true, lemma_count_true_update, lemma_count_all_true,
    lemma_count_all_false};

verus! {

/// Arcs among the first `j` whose source is `v`.
pub open spec fn count_out(es: Seq<Edge>, v: int, j: int) -> int
    decreases j,
{
    if j <= 0 {
        0
    } else {
        count_out(es, v, j - 1) + if es[j - 1].src == v {
            1int
        } else {
            0int
        }
    }
}

/// Arcs among the first `j` whose target is `v`.
pub open spec fn count_in(es: Seq<Edge>, v: int, j: int) -> int
    decreases j,
{
    if j <= 0 {
        0
    } else {
        count_in(es, v, j - 1) + if es[j - 1].dst == v {
            1int
        } else {
            0int
        }
    }
}

pub open spec fn out_deg(es: Seq<Edge>, v: int) -> int {
    count_out(es, v, es.len() as int)
}

pub open spec fn in_deg(es: Seq<Edge>, v: int) -> int {
    count_in(es, v, es.len() as int)
}

/// The best not-yet-picked candidate among the nodes below `v`: the one
/// with the largest out-degree minus in-degree (compared by cross sums),
/// ties to the lowest index; `n` when none remains.
pub open spec fn sel_best(es: Seq<Edge>, n: int, picked: Seq<bool>, v: int) -> int
    decreases v,
{
    if v <= 0 {
        n
    } else {
        let b = sel_best(es, n, picked, v - 1);
        if !picked[v - 1] {
            if b == n {
                v - 1
            } else if out_deg(es, v - 1) + in_deg(es, b) > out_deg(es, b) + in_deg(es, v - 1) {
                v - 1
            } else {
                b
            }
        } else {
            b
        }
    }
}

/// The selection state after `r` rounds: each round ranks the best
/// remaining candidate next.
pub open spec fn sel_iter(es: Seq<Edge>, n: int, r: int) -> (Seq<usize>, Seq<bool>)
    decreases r,
{
    if r <= 0 {
        (Seq::new(n as nat, |v: int| 0usize), Seq::new(n as nat, |v: int| false))
    } else {
        let (pos, picked) = sel_iter(es, n, r - 1);
        let b = sel_best(es, n, picked, n);
        if b == n {
            (pos, picked)
        } else {
            (pos.update(b, (r - 1) as usize), picked.update(b, true))
        }
    }
}

/// The greedy placement of the nodes `0..n`: `greedy_order(es, n)[v]` is
/// `v`'s rank.
pub open spec fn greedy_order(es: Seq<Edge>, n: int) -> Seq<usize> {
    sel_iter(es, n, n).0
}

/// The arcs of `es`, in order, that point backward (or sideways) in the
/// greedy placement: the reported feedback arc set, a function of the arc
/// list alone.
pub open spec fn backward_arcs(es: Seq<Edge>, pos: Seq<usize>, j: int) -> Seq<Edge>
    decreases j,
{
    if j <= 0 {
        Seq::empty()
    } else {
        let rest = backward_arcs(es, pos, j - 1);
        if pos[es[j - 1].src as int] >= pos[es[j - 1].dst as int] {
            rest.push(es[j - 1])
        } else {
            rest
        }
    }
}

pub open spec fn greedy_arcs(es: Seq<Edge>, n: int) -> Seq<Edge> {
    backward_arcs(es, greedy_order(es, n), es.len() as int)
}

/// Rank every node: `pos[v]` is `v`'s place in the greedy order, exactly
/// [`greedy_order`] of the arc list.
fn greedy_positions(n: usize, edges: &Vec<Edge>) -> (pos: Vec<usize>)
    requires
        forall|j: int|
            0 <= j < edges@.len() ==> (#[trigger] edges@[j]).src < n && edges@[j].dst < n,
    ensures
        pos@.len() == n,
        pos@ == greedy_order(edges@, n as int),
{
    let mut outd: Vec<usize> = Vec::new();
    let mut ind: Vec<usize> = Vec::new();
    let mut i: usize = 0;
    while i < n
        invariant
            i <= n,
            outd@.len() == i,
            ind@.len() == i,
            forall|v: int| 0 <= v < i ==> outd@[v] == 0 && ind@[v] == 0,
        decreases n - i,
    {
        outd.push(0);
        ind.push(0);
        i += 1;
    }
    let mut j: usize = 0;
    while j < edges.len()
        invariant
            j <= edges@.len(),
            outd@.len() == n,
            ind@.len() == n,
            forall|v: int| 0 <= v < n ==> outd@[v] <= j && ind@[v] <= j,
            forall|v: int| 0 <= v < n ==> (#[trigger] outd@[v]) == count_out(edges@, v, j as int),
            forall|v: int| 0 <= v < n ==> (#[trigger] ind@[v]) == count_in(edges@, v, j as int),
            forall|jj: int|
                0 <= jj < edges@.len() ==> (#[trigger] edges@[jj]).src < n && edges@[jj].dst < n,
        decreases edges@.len() - j,
    {
        let e = edges[j];
        let o = outd[e.src];
        outd[e.src] = o + 1;
        let d = ind[e.dst];
        ind[e.dst] = d + 1;
        j += 1;
    }
    let mut pos: Vec<usize> = Vec::new();
    let mut picked: Vec<bool> = Vec::new();
    let mut i2: usize = 0;
    while i2 < n
        invariant
            i2 <= n,
            pos@.len() == i2,
            picked@.len() == i2,
            forall|v: int| 0 <= v < i2 ==> pos@[v] == 0 && !picked@[v],
        decreases n - i2,
    {
        pos.push(0);
        picked.push(false);
        i2 += 1;
    }
    proof {
        lemma_count_all_false(picked@);
        assert(pos@ =~= sel_iter(edges@, n as int, 0).0);
        assert(picked@ =~= sel_iter(edges@, n as int, 0).1);
    }
    let mut r: usize = 0;
    while r < n
        invariant
            r <= n,
            pos@.len() == n,
            picked@.len() == n,
            outd@.len() == n,
            ind@.len() == n,
            forall|v: int| 0 <= v < n ==> (#[trigger] outd@[v]) == out_deg(edges@, v),
            forall|v: int| 0 <= v < n ==> (#[trigger] ind@[v]) == in_deg(edges@, v),
            r == count_true(picked@),
            pos@ == sel_iter(edges@, n as int, r as int).0,
            picked@ == sel_iter(edges@, n as int, r as int).1,
        decreases n - r,
    {
        let mut best: usize = n;
        let mut v: usize = 0;
        while v < n
            invariant
                v <= n,
                picked@.len() == n,
                outd@.len() == n,
                ind@.len() == n,
                forall|w: int| 0 <= w < n ==> (#[trigger] outd@[w]) == out_deg(edges@, w),
                forall|w: int| 0 <= w < n ==> (#[trigger] ind@[w]) == in_deg(edges@, w),
                best == n || (best < n && !picked@[best as int]),
                best == n ==> forall|w: int| 0 <= w < v ==> picked@[w],
                best as int == sel_best(edges@, n as int, picked@, v as int),
            decreases n - v,
        {
            if !picked[v] {
                if best == n {
                    best = v;
                } else {
                    // prefer the larger out-degree minus in-degree; on a tie
                    // the earlier candidate (lower index) stays
                    let sv = outd[v] as u128 + ind[best] as u128;
                    let sb = outd[best] as u128 + ind[v] as u128;
                    if sv > sb {
                        best = v;
                    }
                }
            }
            v += 1;
        }
        if best == n {
            proof {
                lemma_count_all_true(picked@);
                assert(false);
            }
        }
        proof {
            lemma_count_true_update(picked@, best as int);
        }
        let ghost pos0 = pos@;
        let ghost picked0 = picked@;
        pos[best] = r;
        picked[best] = true;
        proof {
            assert(pos@ == pos0.update(best as int, r));
            assert(picked@ == picked0.update(best as int, true));
            assert(sel_iter(edges@, n as int, r + 1int).0 == pos@);
            assert(sel_iter(edges@, n as int, r + 1int).1 == picked@);
        }
        r += 1;
    }
    pos
}

/// Arcs whose removal leaves the connectivity graph acyclic.
///
/// The result is exactly [`greedy_arcs`] of the arc list: every reported
/// arc is an arc of the graph, the graph without the reported arcs has no
/// directed cycle, and equal arc lists give equal reports. A minimum set is
/// not promised.
pub fn greedy_feedback_arcs(n: usize, edges: &Vec<Edge>) -> (fas: Vec<Edge>)
    requires
        forall|j: int|
            0 <= j < edges@.len() ==> (#[trigger] edges@[j]).src < n && edges@[j].dst < n,
    ensures
        fas@ == greedy_arcs(edges@, n as int),
        forall|t: int| 0 <= t < fas@.len() ==> edges@.to_set().contains(#[trigger] fas@[t]),
        !has_cycle(edges@.to_set().difference(fas@.to_set())),
        edges@.no_duplicates() ==> fas@.no_duplicates(),
{
    broadcast use vstd::seq_lib::group_seq_properties;

    let pos = greedy_positions(n, edges);
    let mut fas: Vec<Edge> = Vec::new();
    let mut j: usize = 0;
    while j < edges.len()
        invariant
            j <= edges@.len(),
            pos@.len() == n,
            pos@ == greedy_order(edges@, n as int),
            fas@ == backward_arcs(edges@, pos@, j as int),
            forall|jj: int|
                0 <= jj < edges@.len() ==> (#[trigger] edges@[jj]).src < n && edges@[jj].dst < n,
            forall|t: int| 0 <= t < fas@.len() ==> edges@.contains(#[trigger] fas@[t]),
            forall|t: int|
                0 <= t < fas@.len() ==> exists|jj: int|
                    0 <= jj < j && edges@[jj] == #[trigger] fas@[t],
            edges@.no_duplicates() ==> fas@.no_duplicates(),
            forall|jj: int|
                0 <= jj < j && pos@[(#[trigger] edges@[jj]).src as int] >= pos@[edges@[jj].dst as int]
                    ==> fas@.contains(edges@[jj]),
        decreases edges@.len() - j,
    {
        let e = edges[j];
        if pos[e.src] >= pos[e.dst] {
            let ghost f0 = fas@;
            fas.push(e);
            proof {
                assert(fas@[fas@.len() - 1] == e);
                assert(fas@.contains(e));
                assert forall|x: Edge| f0.contains(x) implies fas@.contains(x) by {
                    let t = choose|t: int| 0 <= t < f0.len() && f0[t] == x;
                    assert(fas@[t] == x);
                }
                assert forall|t: int|
                    0 <= t < fas@.len() implies exists|jj: int|
                    0 <= jj < j + 1 && edges@[jj] == #[trigger] fas@[t] by {
                    if t < f0.len() {
                        assert(fas@[t] == f0[t]);
                        let jj = choose|jj: int| 0 <= jj < j && edges@[jj] == f0[t];
                        assert(edges@[jj] == fas@[t]);
                    } else {
                        assert(edges@[j as int] == fas@[t]);
                    }
                }
                if edges@.no_duplicates() {
                    // the fresh entry is not among the earlier picks
                    assert forall|t: int| 0 <= t < f0.len() implies f0[t] != e by {
                        let jj = choose|jj: int| 0 <= jj < j && edges@[jj] == f0[t];
                        assert(edges@[jj] != edges@[j as int]);
                    }
                    assert forall|t1: int, t2: int|
                        0 <= t1 < fas@.len() && 0 <= t2 < fas@.len() && t1 != t2 implies fas@[t1]
                        != fas@[t2] by {
                        if t1 < f0.len() && t2 < f0.len() {
                            assert(f0[t1] != f0[t2]);
                        } else if t1 == f0.len() {
                            assert(fas@[t2] == f0[t2] && f0[t2] != e);
                        } else {
                            assert(fas@[t1] == f0[t1] && f0[t1] != e);
                        }
                    }
                }
            }
        }
        j += 1;
    }
    proof {
        let es = edges@.to_set();
        let rem = es.difference(fas@.to_set());
        let posi = pos@.map_values(|x: usize| x as int);
        assert forall|e: Edge| #[trigger] rem.contains(e) implies e.src < n && e.dst < n && posi[
            e.src as int
        ] < posi[e.dst as int] by {
            let jj = choose|jj: int| 0 <= jj < edges@.len() && edges@[jj] == e;
            if pos@[e.src as int] >= pos@[e.dst as int] {
                assert(fas@.contains(edges@[jj]));
                assert(fas@.to_set().contains(e));
            }
        }
        lemma_pos_no_cycle(rem, posi, n as nat);
        assert forall|t: int| 0 <= t < fas@.len() implies edges@.to_set().contains(
            #[trigger] fas@[t],
        ) by {
            assert(edges@.contains(fas@[t]));
        }
    }
    fas
}

} // verus!
