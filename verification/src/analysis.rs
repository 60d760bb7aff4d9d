//! Cached analyses over the netlist store.
//!
//! Each getter first consults its cache slot; the store's well-formedness
//! guarantees a filled slot describes the current connectivity, and every
//! mutation clears the slots, so a hit is always sound. On a miss the
//! analysis is recomputed by the verified algorithms and the slot filled.

use vstd::prelude::*;
use crate::graph::Edge;
use crate::scc::{sccs, scc_valid};
use crate::depth::{max_comb_depth, depth_valid};
use crate::netlist::{Netlist, count_nontrivial, count_live_comps, lemma_graph_arcs_congruent,
    lemma_inst_arcs_dead};

verus! {

fn copy_edges(v: &Vec<Edge>) -> (r: Vec<Edge>)
    ensures
        r@ == v@,
{
    let mut r: Vec<Edge> = Vec::new();
    let mut i: usize = 0;
    while i < v.len()
        invariant
            i <= v@.len(),
            r@ == v@.subrange(0, i as int),
        decreases v@.len() - i,
    {
        r.push(v[i]);
        proof {
            assert(v@.subrange(0, i + 1int) =~= v@.subrange(0, i as int).push(v@[i as int]));
        }
        i += 1;
    }
    proof {
        assert(v@.subrange(0, v@.len() as int) =~= v@);
    }
    r
}

impl Netlist {
    /// The counts an SCC report shows match some valid partition of the
    /// store's multigraph.
    pub open spec fn scc_counts_ok(self, nt: int, tot: int) -> bool {
        exists|comps: Seq<Vec<usize>>|
            {
                &&& #[trigger] scc_valid(self.ni() as nat, self.conns(), comps)
                &&& nt == count_nontrivial(comps)
                &&& tot == count_live_comps(self.live_flags(), comps)
            }
    }

    /// The multigraph view: one arc per driven input port, kept in the
    /// graph cache slot.
    pub fn get_graph(&mut self) -> (r: Vec<Edge>)
        requires
            old(self).wf(),
        ensures
            final(self).wf(),
            final(self).same_core(*old(self)),
            final(self).conns() == old(self).conns(),
            old(self).graph_cache.is_some() ==> final(self).graph_cache == old(self).graph_cache,
            final(self).scc_cache == old(self).scc_cache,
            final(self).depth_cache == old(self).depth_cache,
            r@ == old(self).graph_arcs(),
            r@.to_set() == old(self).conns(),
            r@.no_duplicates(),
            forall|t: int|
                0 <= t < r@.len() ==> (#[trigger] r@[t]).src < old(self).ni() && r@[t].dst < old(
                    self,
                ).ni(),
    {
        broadcast use vstd::seq_lib::group_seq_properties;

        if let Some(es) = &self.graph_cache {
            let r = copy_edges(es);
            return r;
        }
        let ghost pre = *self;
        let mut ce: Vec<Edge> = Vec::new();
        let mut v: usize = 0;
        while v < self.instances.len()
            invariant
                *self == pre,
                pre.wf(),
                v <= pre.ni(),
                ce@ == pre.arcs_prefix(v as int),
                forall|t: int| 0 <= t < ce@.len() ==> pre.conn(#[trigger] ce@[t]),
                forall|e: Edge|
                    #![trigger pre.conn(e)]
                    pre.conn(e) && e.dst < v ==> ce@.contains(e),
                forall|t: int|
                    0 <= t < ce@.len() ==> (#[trigger] ce@[t]).dst < v,
                forall|t1: int, t2: int|
                    0 <= t1 < t2 < ce@.len() ==> !((#[trigger] ce@[t1]).dst == (
                    #[trigger] ce@[t2]).dst && ce@[t1].dst_port == ce@[t2].dst_port),
            decreases pre.ni() - v,
        {
            if self.instances[v].live {
                let mut p: usize = 0;
                while p < self.instances[v].inputs.len()
                    invariant
                        *self == pre,
                        pre.wf(),
                        v < pre.ni(),
                        pre.inst_live(v as int),
                        p <= pre.instances@[v as int].inputs@.len(),
                        ce@ == pre.arcs_prefix(v as int) + pre.inst_arcs(v as int, p as int),
                        forall|t: int| 0 <= t < ce@.len() ==> pre.conn(#[trigger] ce@[t]),
                        forall|e: Edge|
                            #![trigger pre.conn(e)]
                            pre.conn(e) && (e.dst < v || (e.dst == v && e.dst_port < p))
                                ==> ce@.contains(e),
                        forall|t: int|
                            0 <= t < ce@.len() ==> (#[trigger] ce@[t]).dst < v || (ce@[t].dst == v
                                && ce@[t].dst_port < p),
                        forall|t1: int, t2: int|
                            0 <= t1 < t2 < ce@.len() ==> !((#[trigger] ce@[t1]).dst == (
                            #[trigger] ce@[t2]).dst && ce@[t1].dst_port == ce@[t2].dst_port),
                    decreases pre.instances@[v as int].inputs@.len() - p,
                {
                    if let Some(k) = self.instances[v].inputs[p] {
                        if self.nets[k].live {
                            if let Some(d) = self.nets[k].driver {
                                let ghost c0 = ce@;
                                let e = Edge { src: d.0, src_port: d.1, dst: v, dst_port: p };
                                proof {
                                    assert(pre.instances@[v as int].inputs@[p as int] == Some(k));
                                    assert(pre.net_live(k as int));
                                    assert(pre.inst_live(d.0 as int));
                                    assert(pre.conn(e));
                                }
                                ce.push(e);
                                proof {
                                    assert(ce@[ce@.len() - 1] == e);
                                    assert forall|x: Edge| c0.contains(x) implies ce@.contains(
                                        x,
                                    ) by {
                                        let t = choose|t: int| 0 <= t < c0.len() && c0[t] == x;
                                        assert(ce@[t] == x);
                                    }
                                }
                            }
                        }
                    }
                    proof {
                        assert forall|e: Edge|
                            pre.conn(e) && (e.dst < v || (e.dst == v && e.dst_port < p + 1))
                            implies ce@.contains(e) by {
                            if e.dst == v && e.dst_port == p {
                                assert(pre.instances@[v as int].inputs@[p as int].is_some());
                            }
                        }
                        assert(ce@ =~= pre.arcs_prefix(v as int) + pre.inst_arcs(
                            v as int,
                            p + 1int,
                        ));
                    }
                    p += 1;
                }
                proof {
                    assert(ce@ =~= pre.arcs_prefix(v + 1int));
                }
            } else {
                proof {
                    assert forall|e: Edge| pre.conn(e) && e.dst == v implies false by {}
                    lemma_inst_arcs_dead(
                        pre,
                        v as int,
                        pre.instances@[v as int].inputs@.len() as int,
                    );
                    assert(ce@ =~= pre.arcs_prefix(v + 1int));
                }
            }
            v += 1;
        }
        proof {
            assert(ce@.to_set() =~= pre.conns()) by {
                assert forall|e: Edge| ce@.to_set().contains(e) implies pre.conn(e) by {
                    let t = choose|t: int| 0 <= t < ce@.len() && ce@[t] == e;
                }
                assert forall|e: Edge| pre.conn(e) implies ce@.to_set().contains(e) by {
                    assert(e.dst < pre.ni());
                    assert(ce@.contains(e));
                }
            }
            assert(ce@.no_duplicates()) by {
                assert forall|t1: int, t2: int|
                    0 <= t1 < ce@.len() && 0 <= t2 < ce@.len() && t1 != t2 implies ce@[t1] != ce@[
                    t2
                ] by {
                    if t1 < t2 {
                        assert(!(ce@[t1].dst == ce@[t2].dst && ce@[t1].dst_port == ce@[
                            t2
                        ].dst_port));
                    } else {
                        assert(!(ce@[t2].dst == ce@[t1].dst && ce@[t2].dst_port == ce@[
                            t1
                        ].dst_port));
                    }
                }
            }
            assert forall|t: int|
                0 <= t < ce@.len() implies (#[trigger] ce@[t]).src < pre.ni() && ce@[t].dst
                < pre.ni() by {
                assert(pre.conn(ce@[t]));
            }
        }
        proof {
            assert(ce@ == pre.arcs_prefix(pre.ni()));
        }
        let r = copy_edges(&ce);
        self.graph_cache = Some(ce);
        proof {
            assert(self.conns() =~= pre.conns());
            assert(self.live_flags() =~= pre.live_flags());
            assert(self.comb_flags() =~= pre.comb_flags());
            lemma_graph_arcs_congruent(*self, pre);
            match pre.scc_cache {
                None => {},
                Some(c) => {
                    let comps = choose|comps: Seq<Vec<usize>>|
                        {
                            &&& #[trigger] scc_valid(pre.ni() as nat, pre.conns(), comps)
                            &&& c.0 == count_nontrivial(comps)
                            &&& c.1 == count_live_comps(pre.live_flags(), comps)
                        };
                    assert(scc_valid(self.ni() as nat, self.conns(), comps));
                },
            }
        }
        r
    }

    /// Count of non-trivial components and of all components of the live
    /// instances, kept in the component cache slot.
    pub fn get_scc_counts(&mut self) -> (r: (usize, usize))
        requires
            old(self).wf(),
        ensures
            final(self).wf(),
            final(self).same_core(*old(self)),
            old(self).graph_cache.is_some() ==> final(self).graph_cache == old(self).graph_cache,
            old(self).scc_cache.is_some() ==> final(self).scc_cache == old(self).scc_cache,
            final(self).depth_cache == old(self).depth_cache,
            old(self).scc_counts_ok(r.0 as int, r.1 as int),
    {
        if let Some(c) = self.scc_cache {
            proof {
                assert(old(self).scc_counts_ok(c.0 as int, c.1 as int));
            }
            return c;
        }
        let ghost pre = *self;
        let es = self.get_graph();
        let ghost mid = *self;
        proof {
            assert(mid.comb_flags() =~= pre.comb_flags());
            assert(mid.live_flags() =~= pre.live_flags());
            assert(mid.conns() == pre.conns());
        }
        let n = self.instances.len();
        proof {
            assert forall|t: int|
                0 <= t < es@.len() implies (#[trigger] es@[t]).src < n && es@[t].dst < n by {}
        }
        let comps = sccs(n, &es);
        // count the non-trivial components and those of live instances
        let mut nt: usize = 0;
        let mut tot: usize = 0;
        let mut i: usize = 0;
        while i < comps.len()
            invariant
                i <= comps@.len(),
                self.instances@.len() == n,
                nt == count_nontrivial(comps@.subrange(0, i as int)),
                tot == count_live_comps(self.live_flags(), comps@.subrange(0, i as int)),
                nt <= i,
                tot <= i,
                scc_valid(n as nat, es@.to_set(), comps@),
            decreases comps@.len() - i,
        {
            proof {
                assert(comps@.subrange(0, i + 1int).drop_last() =~= comps@.subrange(0, i as int));
                assert(comps@.subrange(0, i + 1int).last() == comps@[i as int]);
                lemma_nontrivial_bound(comps@.subrange(0, i as int));
                lemma_live_comps_bound(self.live_flags(), comps@.subrange(0, i as int));
            }
            if comps[i].len() > 1 {
                nt += 1;
            }
            let ghost cv = comps@[i as int];
            proof {
                assert(comps@[i as int]@.len() > 0);
                assert(comps@[i as int]@[0] < n);
            }
            let rep = comps[i][0];
            if self.instances[rep].live {
                tot += 1;
            }
            i += 1;
        }
        proof {
            assert(comps@.subrange(0, comps@.len() as int) =~= comps@);
        }
        self.scc_cache = Some((nt, tot));
        proof {
            assert(self.conns() =~= pre.conns());
            assert(self.live_flags() =~= pre.live_flags());
            assert(scc_valid(self.ni() as nat, self.conns(), comps@));
            assert(self.scc_counts_ok(nt as int, tot as int));
            assert(pre.scc_counts_ok(nt as int, tot as int));
            assert(self.comb_flags() =~= pre.comb_flags());
            assert(self.struct_ok());
            lemma_graph_arcs_congruent(*self, mid);
            assert(self.graph_cache_ok());
            assert(self.scc_cache_ok());
            assert(self.comb_flags() =~= mid.comb_flags());
            assert(self.conns() == mid.conns());
            assert(self.depth_cache == mid.depth_cache);
            assert(self.depth_cache_ok());
        }
        (nt, tot)
    }

    /// The maximum combinational depth, or `None` when a combinational
    /// cycle makes it undefined, kept in the depth cache slot.
    pub fn get_max_depth(&mut self) -> (r: Option<usize>)
        requires
            old(self).wf(),
        ensures
            final(self).wf(),
            final(self).same_core(*old(self)),
            old(self).graph_cache.is_some() ==> final(self).graph_cache == old(self).graph_cache,
            final(self).scc_cache == old(self).scc_cache,
            old(self).depth_cache.is_some() ==> final(self).depth_cache == old(self).depth_cache,
            depth_valid(old(self).conns(), old(self).comb_flags(), r),
    {
        if let Some(d) = self.depth_cache {
            return d;
        }
        let ghost pre = *self;
        let es = self.get_graph();
        let ghost mid = *self;
        let n = self.instances.len();
        proof {
            assert forall|t: int|
                0 <= t < es@.len() implies (#[trigger] es@[t]).src < n && es@[t].dst < n by {}
        }
        let mut cf: Vec<bool> = Vec::new();
        let mut u: usize = 0;
        while u < n
            invariant
                u <= n,
                n == self.instances@.len(),
                cf@.len() == u,
                forall|t: int|
                    0 <= t < u ==> (#[trigger] cf@[t]) == (self.inst_live(t)
                        && !self.instances@[t].is_seq),
            decreases n - u,
        {
            cf.push(self.instances[u].live && !self.instances[u].is_seq);
            u += 1;
        }
        proof {
            assert(cf@ =~= self.comb_flags());
        }
        let d = max_comb_depth(n, &es, &cf);
        self.depth_cache = Some(d);
        proof {
            assert(self.conns() =~= pre.conns());
            assert(self.live_flags() =~= pre.live_flags());
            assert(self.comb_flags() =~= pre.comb_flags());
            assert(cf@ =~= pre.comb_flags());
            lemma_graph_arcs_congruent(*self, mid);
            assert(depth_valid(pre.conns(), pre.comb_flags(), d));
        }
        d
    }
}

proof fn lemma_nontrivial_bound(comps: Seq<Vec<usize>>)
    ensures
        0 <= count_nontrivial(comps) <= comps.len(),
    decreases comps.len(),
{
    if comps.len() > 0 {
        lemma_nontrivial_bound(comps.drop_last());
    }
}

proof fn lemma_live_comps_bound(live: Seq<bool>, comps: Seq<Vec<usize>>)
    ensures
        0 <= count_live_comps(live, comps) <= comps.len(),
    decreases comps.len(),
{
    if comps.len() > 0 {
        lemma_live_comps_bound(live, comps.drop_last());
    }
}

} // verus!
