//! Dead object removal: instances and nets that no observable output
//! depends on are retired.
//!
//! The dependency cone runs backward from the observable output nets: an
//! output net depends on its driving instance, and an instance depends on
//! every net wired to one of its inputs. The cone is a reachability question
//! on a small auxiliary graph whose nodes are instances, nets and one root,
//! so the verified breadth-first search answers it exactly.

use vstd::prelude::*;
use crate::graph::{Edge, reach, reach_k, lemma_reach_refl, lemma_reach_one, lemma_reach_extend,
    lemma_reach_restrict};
use crate::scc::bfs;
use crate::netlist::{Netlist, NetlistError, Removed};

verus! {

/// The removed objects seen so far stay below the scan fronts.
pub open spec fn removed_bound(x: Removed, bi: int, bn: int) -> bool {
    match x {
        Removed::Inst(u) => u < bi,
        Removed::Net(k) => k < bn,
    }
}

impl Netlist {
    /// Node count of the cone graph: one node per instance, one per net,
    /// plus the root.
    pub open spec fn cone_n(self) -> int {
        self.ni() + self.nn() + 1
    }

    /// The root node: stands for the set of observable outputs.
    pub open spec fn cone_root(self) -> int {
        self.ni() + self.nn()
    }

    /// An arc of the dependency-cone graph. Instance `u` is node `u`, net
    /// `k` is node `ni + k`.
    pub open spec fn cone_edge(self, e: Edge) -> bool {
        &&& e.src_port == 0
        &&& e.dst_port == 0
        &&& ({
            ||| (e.src == self.cone_root() && exists|o: int|
                0 <= o < self.outputs@.len() && self.net_live(#[trigger] self.outputs@[o] as int)
                    && e.dst == self.ni() + self.outputs@[o])
            ||| (exists|k: int|
                #![trigger self.nets@[k].driver]
                self.net_live(k) && e.src == self.ni() + k && match self.nets@[k].driver {
                    Some(d) => self.inst_live(d.0 as int) && e.dst == d.0,
                    None => false,
                })
            ||| (self.inst_live(e.src as int) && exists|p: int|
                0 <= p < self.instances@[e.src as int].inputs@.len() && match (
                #[trigger] self.instances@[e.src as int].inputs@[p]) {
                    Some(k) => self.net_live(k as int) && e.dst == self.ni() + k,
                    None => false,
                })
        })
    }

    pub open spec fn cone_set(self) -> Set<Edge> {
        Set::new(|e: Edge| self.cone_edge(e))
    }

    /// The object with cone-graph node id `x` is needed by some observable
    /// output.
    pub open spec fn in_cone(self, x: int) -> bool {
        reach(self.cone_set(), self.cone_root(), x)
    }

    /// Every live object sits in the output cone: nothing is left to clean.
    pub open spec fn cleaned(self) -> bool {
        &&& forall|u: int| self.inst_live(u) ==> self.in_cone(u)
        &&& forall|k: int| self.net_live(k) ==> self.in_cone(self.ni() + k)
    }

    /// Retire every instance and net outside the output cone and report
    /// exactly the removed objects. Afterward nothing is left to clean, so a
    /// second run removes nothing.
    #[verifier::rlimit(80)]
    pub fn clean(&mut self) -> (r: Result<Vec<Removed>, NetlistError>)
        requires
            old(self).wf(),
        ensures
            final(self).wf(),
            match r {
                Ok(removed) => {
                    &&& final(self).ni() == old(self).ni()
                    &&& final(self).nn() == old(self).nn()
                    &&& final(self).outputs == old(self).outputs
                    &&& forall|u: int|
                        0 <= u < old(self).ni() ==> {
                            let a = #[trigger] final(self).instances@[u];
                            let b = old(self).instances@[u];
                            a.name == b.name && a.is_seq == b.is_seq && a.input_names
                                == b.input_names && a.inputs == b.inputs && a.output_names
                                == b.output_names && (a.live == (b.live && old(self).in_cone(u)))
                        }
                    &&& forall|k: int|
                        0 <= k < old(self).nn() ==> {
                            let a = #[trigger] final(self).nets@[k];
                            let b = old(self).nets@[k];
                            a.name == b.name && a.driver == b.driver && (a.live == (b.live && old(
                                self,
                            ).in_cone(old(self).ni() + k)))
                        }
                    &&& final(self).cleaned()
                    &&& forall|u: usize|
                        removed@.contains(Removed::Inst(u)) <==> (old(self).inst_live(u as int)
                            && !old(self).in_cone(u as int))
                    &&& forall|k: usize|
                        removed@.contains(Removed::Net(k)) <==> (old(self).net_live(k as int)
                            && !old(self).in_cone(old(self).ni() + k))
                    &&& removed@.no_duplicates()
                },
                Err(e) => {
                    &&& e == NetlistError::TooLarge
                    &&& *final(self) == *old(self)
                    &&& old(self).ni() + old(self).nn() >= usize::MAX
                },
            },
    {
        broadcast use vstd::seq_lib::group_seq_properties;

        let ni = self.instances.len();
        let nn = self.nets.len();
        if ni >= usize::MAX - nn {
            return Err(NetlistError::TooLarge);
        }
        let n = ni + nn + 1;
        let root = ni + nn;
        let ghost pre = *self;
        let ghost cset = pre.cone_set();
        // gather the cone arcs
        let mut ce: Vec<Edge> = Vec::new();
        let mut o: usize = 0;
        while o < self.outputs.len()
            invariant
                *self == pre,
                pre.wf(),
                ni == pre.ni(),
                nn == pre.nn(),
                root == pre.cone_root(),
                ni + nn < usize::MAX,
                cset == pre.cone_set(),
                o <= self.outputs@.len(),
                forall|t: int| 0 <= t < ce@.len() ==> cset.contains(#[trigger] ce@[t]),
                forall|t: int|
                    0 <= t < o ==> ce@.contains(
                        Edge {
                            src: (ni + nn) as usize,
                            src_port: 0,
                            dst: (ni + #[trigger] self.outputs@[t]) as usize,
                            dst_port: 0,
                        },
                    ),
            decreases self.outputs@.len() - o,
        {
            let k = self.outputs[o];
            let ghost c0 = ce@;
            let e = Edge { src: root, src_port: 0, dst: ni + k, dst_port: 0 };
            proof {
                assert(pre.net_live(pre.outputs@[o as int] as int));
                assert(pre.cone_edge(e));
            }
            ce.push(e);
            proof {
                assert(ce@[ce@.len() - 1] == e);
                assert forall|x: Edge| c0.contains(x) implies ce@.contains(x) by {
                    let t = choose|t: int| 0 <= t < c0.len() && c0[t] == x;
                    assert(ce@[t] == x);
                }
            }
            o += 1;
        }
        let mut k: usize = 0;
        while k < nn
            invariant
                *self == pre,
                pre.wf(),
                ni == pre.ni(),
                nn == pre.nn(),
                root == pre.cone_root(),
                ni + nn < usize::MAX,
                cset == pre.cone_set(),
                k <= nn,
                forall|t: int| 0 <= t < ce@.len() ==> cset.contains(#[trigger] ce@[t]),
                forall|t: int|
                    0 <= t < self.outputs@.len() ==> ce@.contains(
                        Edge {
                            src: (ni + nn) as usize,
                            src_port: 0,
                            dst: (ni + #[trigger] self.outputs@[t]) as usize,
                            dst_port: 0,
                        },
                    ),
                forall|t: int|
                    0 <= t < k && pre.net_live(t) && (#[trigger] pre.nets@[t].driver).is_some()
                        ==> ce@.contains(
                        Edge {
                            src: (ni + t) as usize,
                            src_port: 0,
                            dst: pre.nets@[t].driver.unwrap().0,
                            dst_port: 0,
                        },
                    ),
            decreases nn - k,
        {
            if self.nets[k].live {
                if let Some(d) = self.nets[k].driver {
                    let ghost c0 = ce@;
                    let e = Edge { src: ni + k, src_port: 0, dst: d.0, dst_port: 0 };
                    proof {
                        assert(pre.net_live(k as int));
                        assert(pre.cone_edge(e));
                    }
                    ce.push(e);
                    proof {
                        assert(ce@[ce@.len() - 1] == e);
                        assert forall|x: Edge| c0.contains(x) implies ce@.contains(x) by {
                            let t = choose|t: int| 0 <= t < c0.len() && c0[t] == x;
                            assert(ce@[t] == x);
                        }
                    }
                }
            }
            k += 1;
        }
        let mut u: usize = 0;
        while u < ni
            invariant
                *self == pre,
                pre.wf(),
                ni == pre.ni(),
                nn == pre.nn(),
                root == pre.cone_root(),
                ni + nn < usize::MAX,
                cset == pre.cone_set(),
                u <= ni,
                forall|t: int| 0 <= t < ce@.len() ==> cset.contains(#[trigger] ce@[t]),
                forall|t: int|
                    0 <= t < self.outputs@.len() ==> ce@.contains(
                        Edge {
                            src: (ni + nn) as usize,
                            src_port: 0,
                            dst: (ni + #[trigger] self.outputs@[t]) as usize,
                            dst_port: 0,
                        },
                    ),
                forall|t: int|
                    0 <= t < nn && pre.net_live(t) && (#[trigger] pre.nets@[t].driver).is_some()
                        ==> ce@.contains(
                        Edge {
                            src: (ni + t) as usize,
                            src_port: 0,
                            dst: pre.nets@[t].driver.unwrap().0,
                            dst_port: 0,
                        },
                    ),
                forall|t: int, p: int|
                    0 <= t < u && pre.inst_live(t) && 0 <= p < pre.instances@[t].inputs@.len() && (
                    #[trigger] pre.instances@[t].inputs@[p]).is_some() ==> ce@.contains(
                        Edge {
                            src: t as usize,
                            src_port: 0,
                            dst: (ni + pre.instances@[t].inputs@[p].unwrap()) as usize,
                            dst_port: 0,
                        },
                    ),
            decreases ni - u,
        {
            if self.instances[u].live {
                let mut p: usize = 0;
                while p < self.instances[u].inputs.len()
                    invariant
                        *self == pre,
                        pre.wf(),
                        ni == pre.ni(),
                        nn == pre.nn(),
                        ni + nn < usize::MAX,
                        cset == pre.cone_set(),
                        u < ni,
                        pre.inst_live(u as int),
                        p <= pre.instances@[u as int].inputs@.len(),
                        forall|t: int| 0 <= t < ce@.len() ==> cset.contains(#[trigger] ce@[t]),
                        forall|t: int|
                            0 <= t < self.outputs@.len() ==> ce@.contains(
                                Edge {
                                    src: (ni + nn) as usize,
                                    src_port: 0,
                                    dst: (ni + #[trigger] self.outputs@[t]) as usize,
                                    dst_port: 0,
                                },
                            ),
                        forall|t: int|
                            0 <= t < nn && pre.net_live(t) && (
                            #[trigger] pre.nets@[t].driver).is_some() ==> ce@.contains(
                                Edge {
                                    src: (ni + t) as usize,
                                    src_port: 0,
                                    dst: pre.nets@[t].driver.unwrap().0,
                                    dst_port: 0,
                                },
                            ),
                        forall|t: int, q: int|
                            0 <= t < u && pre.inst_live(t) && 0 <= q < pre.instances@[
                                t
                            ].inputs@.len() && (#[trigger] pre.instances@[t].inputs@[q]).is_some()
                                ==> ce@.contains(
                                Edge {
                                    src: t as usize,
                                    src_port: 0,
                                    dst: (ni + pre.instances@[t].inputs@[q].unwrap()) as usize,
                                    dst_port: 0,
                                },
                            ),
                        forall|q: int|
                            0 <= q < p && (#[trigger] pre.instances@[u as int].inputs@[
                                q
                            ]).is_some() ==> ce@.contains(
                                Edge {
                                    src: u,
                                    src_port: 0,
                                    dst: (ni + pre.instances@[u as int].inputs@[
                                        q
                                    ].unwrap()) as usize,
                                    dst_port: 0,
                                },
                            ),
                    decreases pre.instances@[u as int].inputs@.len() - p,
                {
                    if let Some(kk) = self.instances[u].inputs[p] {
                        let ghost c0 = ce@;
                        let e = Edge { src: u, src_port: 0, dst: ni + kk, dst_port: 0 };
                        proof {
                            assert(pre.instances@[u as int].inputs@[p as int] == Some(kk));
                            assert(pre.net_live(kk as int));
                            assert(pre.cone_edge(e));
                        }
                        ce.push(e);
                        proof {
                            assert(ce@[ce@.len() - 1] == e);
                            assert forall|x: Edge| c0.contains(x) implies ce@.contains(x) by {
                                let t = choose|t: int| 0 <= t < c0.len() && c0[t] == x;
                                assert(ce@[t] == x);
                            }
                        }
                    }
                    p += 1;
                }
            }
            u += 1;
        }
        proof {
            // the gathered arcs are exactly the cone arcs
            assert forall|e: Edge| cset.contains(e) implies ce@.contains(e) by {
                if e.src == pre.cone_root() && exists|oo: int|
                    0 <= oo < pre.outputs@.len() && pre.net_live(
                        #[trigger] pre.outputs@[oo] as int,
                    ) && e.dst == pre.ni() + pre.outputs@[oo] {
                    let oo = choose|oo: int|
                        0 <= oo < pre.outputs@.len() && pre.net_live(
                            #[trigger] pre.outputs@[oo] as int,
                        ) && e.dst == pre.ni() + pre.outputs@[oo];
                    assert(e == Edge {
                        src: (ni + nn) as usize,
                        src_port: 0,
                        dst: (ni + pre.outputs@[oo]) as usize,
                        dst_port: 0,
                    });
                } else if exists|kk: int|
                    #![trigger pre.nets@[kk].driver]
                    pre.net_live(kk) && e.src == pre.ni() + kk && match pre.nets@[kk].driver {
                        Some(d) => pre.inst_live(d.0 as int) && e.dst == d.0,
                        None => false,
                    } {
                    let kk = choose|kk: int|
                        #![trigger pre.nets@[kk].driver]
                        pre.net_live(kk) && e.src == pre.ni() + kk && match pre.nets@[kk].driver {
                            Some(d) => pre.inst_live(d.0 as int) && e.dst == d.0,
                            None => false,
                        };
                    assert(e == Edge {
                        src: (ni + kk) as usize,
                        src_port: 0,
                        dst: pre.nets@[kk].driver.unwrap().0,
                        dst_port: 0,
                    });
                } else {
                    let pp = choose|pp: int|
                        0 <= pp < pre.instances@[e.src as int].inputs@.len() && match (
                        #[trigger] pre.instances@[e.src as int].inputs@[pp]) {
                            Some(kk) => pre.net_live(kk as int) && e.dst == pre.ni() + kk,
                            None => false,
                        };
                    assert(e == Edge {
                        src: e.src,
                        src_port: 0,
                        dst: (ni + pre.instances@[e.src as int].inputs@[
                            pp
                        ].unwrap()) as usize,
                        dst_port: 0,
                    });
                }
            }
            assert(ce@.to_set() =~= cset) by {
                assert forall|e: Edge| ce@.to_set().contains(e) implies cset.contains(e) by {
                    let t = choose|t: int| 0 <= t < ce@.len() && ce@[t] == e;
                }
            }
            assert forall|t: int|
                0 <= t < ce@.len() implies (#[trigger] ce@[t]).src < n && ce@[t].dst < n by {
                let e = ce@[t];
                assert(cset.contains(e));
                assert(pre.cone_edge(e));
            }
        }
        let m = bfs(n, &ce, root);
        // retire what the cone does not hold
        let mut removed: Vec<Removed> = Vec::new();
        let mut u2: usize = 0;
        while u2 < ni
            invariant
                ni == pre.ni(),
                nn == pre.nn(),
                n == ni + nn + 1,
                root == ni + nn,
                ni + nn < usize::MAX,
                cset == pre.cone_set(),
                ce@.to_set() == cset,
                m@.len() == n,
                forall|v: int| 0 <= v < n ==> (m@[v] <==> reach(cset, root as int, v)),
                u2 <= ni,
                self.nets == pre.nets,
                self.outputs == pre.outputs,
                self.graph_cache == pre.graph_cache,
                self.scc_cache == pre.scc_cache,
                self.depth_cache == pre.depth_cache,
                self.instances@.len() == ni,
                forall|t: int|
                    0 <= t < ni ==> {
                        let a = #[trigger] self.instances@[t];
                        let b = pre.instances@[t];
                        a.name == b.name && a.is_seq == b.is_seq && a.input_names == b.input_names
                            && a.inputs == b.inputs && a.output_names == b.output_names
                    },
                forall|t: int|
                    0 <= t < u2 ==> (#[trigger] self.instances@[t]).live == (pre.instances@[t].live
                        && m@[t]),
                forall|t: int|
                    u2 <= t < ni ==> (#[trigger] self.instances@[t]).live
                        == pre.instances@[t].live,
                forall|w: usize|
                    removed@.contains(Removed::Inst(w)) <==> (w < u2 && pre.inst_live(w as int)
                        && !m@[w as int]),
                forall|w: usize| !removed@.contains(Removed::Net(w)),
                removed@.no_duplicates(),
                forall|t: int|
                    0 <= t < removed@.len() ==> removed_bound(#[trigger] removed@[t], u2 as int, 0),
            decreases ni - u2,
        {
            if self.instances[u2].live && !m[u2] {
                let ghost r0 = removed@;
                self.instances[u2].live = false;
                removed.push(Removed::Inst(u2));
                proof {
                    assert(removed@[removed@.len() - 1] == Removed::Inst(u2));
                    assert forall|x: Removed| r0.contains(x) implies removed@.contains(x) by {
                        let t = choose|t: int| 0 <= t < r0.len() && r0[t] == x;
                        assert(removed@[t] == x);
                    }
                    assert forall|x: Removed| removed@.contains(x) && x != Removed::Inst(u2)
                        implies r0.contains(x) by {
                        let t = choose|t: int| 0 <= t < removed@.len() && removed@[t] == x;
                        assert(r0[t] == x);
                    }
                    assert(!r0.contains(Removed::Inst(u2)));
                    assert forall|i: int, j: int|
                        0 <= i < removed@.len() && 0 <= j < removed@.len() && i != j implies
                        removed@[i] != removed@[j] by {
                        if i < removed@.len() - 1 && j < removed@.len() - 1 {
                            assert(r0[i] != r0[j]);
                        } else if j == removed@.len() - 1 {
                            assert(removed@[i] == r0[i]);
                            assert(r0.contains(r0[i]));
                        } else {
                            assert(removed@[j] == r0[j]);
                            assert(r0.contains(r0[j]));
                        }
                    }
                    assert forall|w: usize| #[trigger] removed@.contains(Removed::Inst(w))
                        implies (w < u2 + 1 && pre.inst_live(w as int) && !m@[w as int]) by {
                        if w != u2 {
                            assert(r0.contains(Removed::Inst(w)));
                        }
                    }
                    assert forall|w: usize|
                        w < u2 + 1 && pre.inst_live(w as int) && !m@[w as int] implies
                        #[trigger] removed@.contains(Removed::Inst(w)) by {
                        if w < u2 {
                            assert(r0.contains(Removed::Inst(w)));
                        }
                    }
                    assert forall|w: usize| !(#[trigger] removed@.contains(Removed::Net(w))) by {
                        if removed@.contains(Removed::Net(w)) {
                            assert(r0.contains(Removed::Net(w)));
                        }
                    }
                }
            } else {
                proof {
                    assert forall|w: usize| #[trigger] removed@.contains(Removed::Inst(w))
                        implies (w < u2 + 1 && pre.inst_live(w as int) && !m@[w as int]) by {}
                    assert forall|w: usize|
                        w < u2 + 1 && pre.inst_live(w as int) && !m@[w as int] implies
                        #[trigger] removed@.contains(Removed::Inst(w)) by {
                        assert(w < u2 || w == u2);
                    }
                }
            }
            u2 += 1;
        }
        proof {
            assert forall|t: int|
                0 <= t < removed@.len() implies removed_bound(#[trigger] removed@[t], ni as int, 0) by {
                match removed@[t] {
                    Removed::Inst(w) => {
                        assert(removed@.contains(Removed::Inst(w)));
                    },
                    Removed::Net(w) => {
                        assert(removed@.contains(Removed::Net(w)));
                    },
                }
            }
        }
        let ghost mid = *self;
        let mut k2: usize = 0;
        while k2 < nn
            invariant
                ni == pre.ni(),
                nn == pre.nn(),
                n == ni + nn + 1,
                root == ni + nn,
                ni + nn < usize::MAX,
                cset == pre.cone_set(),
                m@.len() == n,
                forall|v: int| 0 <= v < n ==> (m@[v] <==> reach(cset, root as int, v)),
                k2 <= nn,
                self.instances == mid.instances,
                self.outputs == pre.outputs,
                self.graph_cache == pre.graph_cache,
                self.scc_cache == pre.scc_cache,
                self.depth_cache == pre.depth_cache,
                mid.instances@.len() == ni,
                forall|t: int|
                    0 <= t < ni ==> {
                        let a = #[trigger] mid.instances@[t];
                        let b = pre.instances@[t];
                        a.name == b.name && a.is_seq == b.is_seq && a.input_names == b.input_names
                            && a.inputs == b.inputs && a.output_names == b.output_names
                    },
                forall|t: int|
                    0 <= t < ni ==> (#[trigger] mid.instances@[t]).live == (pre.instances@[t].live
                        && m@[t]),
                self.nets@.len() == nn,
                forall|t: int|
                    0 <= t < nn ==> {
                        let a = #[trigger] self.nets@[t];
                        let b = pre.nets@[t];
                        a.name == b.name && a.driver == b.driver
                    },
                forall|t: int|
                    0 <= t < k2 ==> (#[trigger] self.nets@[t]).live == (pre.nets@[t].live && m@[
                        ni + t
                    ]),
                forall|t: int| k2 <= t < nn ==> (#[trigger] self.nets@[t]).live == pre.nets@[t].live,
                forall|w: usize|
                    removed@.contains(Removed::Inst(w)) <==> (pre.inst_live(w as int) && !m@[
                        w as int
                    ]),
                forall|w: usize|
                    removed@.contains(Removed::Net(w)) <==> (w < k2 && pre.net_live(w as int)
                        && !m@[ni + w]),
                removed@.no_duplicates(),
                forall|t: int|
                    0 <= t < removed@.len() ==> removed_bound(
                        #[trigger] removed@[t],
                        ni as int,
                        k2 as int,
                    ),
            decreases nn - k2,
        {
            if self.nets[k2].live && !m[ni + k2] {
                let ghost r0 = removed@;
                self.nets[k2].live = false;
                removed.push(Removed::Net(k2));
                proof {
                    assert(removed@[removed@.len() - 1] == Removed::Net(k2));
                    assert forall|x: Removed| r0.contains(x) implies removed@.contains(x) by {
                        let t = choose|t: int| 0 <= t < r0.len() && r0[t] == x;
                        assert(removed@[t] == x);
                    }
                    assert forall|x: Removed| removed@.contains(x) && x != Removed::Net(k2)
                        implies r0.contains(x) by {
                        let t = choose|t: int| 0 <= t < removed@.len() && removed@[t] == x;
                        assert(r0[t] == x);
                    }
                    assert(!r0.contains(Removed::Net(k2)));
                    assert forall|i: int, j: int|
                        0 <= i < removed@.len() && 0 <= j < removed@.len() && i != j implies
                        removed@[i] != removed@[j] by {
                        if i < removed@.len() - 1 && j < removed@.len() - 1 {
                            assert(r0[i] != r0[j]);
                        } else if j == removed@.len() - 1 {
                            assert(removed@[i] == r0[i]);
                            assert(r0.contains(r0[i]));
                        } else {
                            assert(removed@[j] == r0[j]);
                            assert(r0.contains(r0[j]));
                        }
                    }
                    assert forall|w: usize| #[trigger] removed@.contains(Removed::Net(w))
                        implies (w < k2 + 1 && pre.net_live(w as int) && !m@[ni + w]) by {
                        if w != k2 {
                            assert(r0.contains(Removed::Net(w)));
                        }
                    }
                    assert forall|w: usize|
                        w < k2 + 1 && pre.net_live(w as int) && !m@[ni + w] implies
                        #[trigger] removed@.contains(Removed::Net(w)) by {
                        if w < k2 {
                            assert(r0.contains(Removed::Net(w)));
                        }
                    }
                    assert forall|w: usize| #[trigger] removed@.contains(Removed::Inst(w))
                        implies (pre.inst_live(w as int) && !m@[w as int]) by {
                        assert(r0.contains(Removed::Inst(w)));
                    }
                    assert forall|w: usize|
                        pre.inst_live(w as int) && !m@[w as int] implies
                        #[trigger] removed@.contains(Removed::Inst(w)) by {
                        assert(r0.contains(Removed::Inst(w)));
                    }
                }
            } else {
                proof {
                    assert forall|w: usize| #[trigger] removed@.contains(Removed::Net(w))
                        implies (w < k2 + 1 && pre.net_live(w as int) && !m@[ni + w]) by {}
                    assert forall|w: usize|
                        w < k2 + 1 && pre.net_live(w as int) && !m@[ni + w] implies
                        #[trigger] removed@.contains(Removed::Net(w)) by {
                        assert(w < k2 || w == k2);
                    }
                }
            }
            k2 += 1;
        }
        self.graph_cache = None;
        self.scc_cache = None;
        self.depth_cache = None;
        proof {
            lemma_reach_refl(cset, root as int);
            // a live object's cone neighbours are in the cone with it
            assert forall|u3: int| self.inst_live(u3) implies pre.in_cone(u3) by {}
            assert forall|k3: int| self.net_live(k3) implies pre.in_cone(ni + k3) by {}
            // structure survives: every reference of a kept object leads to a
            // kept object, because the cone steps to it
            assert forall|u3: int, p3: int|
                self.inst_live(u3) && 0 <= p3 < self.instances@[u3].inputs@.len() implies match (
            #[trigger] self.instances@[u3].inputs@[p3]) {
                Some(kk) => self.net_live(kk as int),
                None => true,
            } by {
                match self.instances@[u3].inputs@[p3] {
                    Some(kk) => {
                        assert(pre.instances@[u3].inputs@[p3] == Some(kk));
                        assert(pre.net_live(kk as int));
                        let e = Edge {
                            src: u3 as usize,
                            src_port: 0,
                            dst: (ni + kk) as usize,
                            dst_port: 0,
                        };
                        assert(pre.cone_edge(e)) by {
                            assert(pre.instances@[e.src as int].inputs@[p3] == Some(kk));
                        }
                        assert(cset.contains(e));
                        lemma_reach_extend(cset, root as int, e);
                        assert(m@[ni + kk]);
                    },
                    None => {},
                }
            }
            assert forall|k3: int|
                self.net_live(k3) implies match (#[trigger] self.nets@[k3].driver) {
                Some(d) => self.inst_live(d.0 as int) && (d.1 as int) < self.instances@[
                    d.0 as int
                ].output_names@.len(),
                None => true,
            } by {
                match self.nets@[k3].driver {
                    Some(d) => {
                        assert(pre.nets@[k3].driver == Some(d));
                        assert(pre.net_live(k3));
                        assert(pre.inst_live(d.0 as int));
                        let e = Edge {
                            src: (ni + k3) as usize,
                            src_port: 0,
                            dst: d.0,
                            dst_port: 0,
                        };
                        assert(pre.cone_edge(e)) by {
                            assert(pre.nets@[k3].driver == Some(d));
                        }
                        assert(cset.contains(e));
                        lemma_reach_extend(cset, root as int, e);
                        assert(m@[d.0 as int]);
                    },
                    None => {},
                }
            }
            assert forall|o3: int|
                0 <= o3 < self.outputs@.len() implies self.net_live(
                #[trigger] self.outputs@[o3] as int,
            ) by {
                let kk = pre.outputs@[o3];
                assert(pre.net_live(kk as int));
                let e = Edge {
                    src: (ni + nn) as usize,
                    src_port: 0,
                    dst: (ni + kk) as usize,
                    dst_port: 0,
                };
                assert(pre.cone_edge(e));
                assert(cset.contains(e));
                lemma_reach_extend(cset, root as int, e);
                assert(m@[ni + kk]);
            }
            assert(self.struct_ok());
            // the cone of the cleaned store still reaches every kept object
            let cset2 = self.cone_set();
            assert forall|e: Edge|
                cset.contains(e) && reach(cset, root as int, e.src as int) && reach(
                    cset,
                    root as int,
                    e.dst as int,
                ) implies cset2.contains(e) by {
                assert(self.cone_root() == root);
                if e.src == root as usize && exists|oo: int|
                    0 <= oo < pre.outputs@.len() && pre.net_live(
                        #[trigger] pre.outputs@[oo] as int,
                    ) && e.dst == pre.ni() + pre.outputs@[oo] {
                    let oo = choose|oo: int|
                        0 <= oo < pre.outputs@.len() && pre.net_live(
                            #[trigger] pre.outputs@[oo] as int,
                        ) && e.dst == pre.ni() + pre.outputs@[oo];
                    assert(m@[ni + pre.outputs@[oo]]);
                    assert(self.net_live(pre.outputs@[oo] as int));
                    assert(self.outputs@[oo] == pre.outputs@[oo]);
                    assert(self.cone_edge(e));
                } else if exists|kk: int|
                    #![trigger pre.nets@[kk].driver]
                    pre.net_live(kk) && e.src == pre.ni() + kk && match pre.nets@[kk].driver {
                        Some(d) => pre.inst_live(d.0 as int) && e.dst == d.0,
                        None => false,
                    } {
                    let kk = choose|kk: int|
                        #![trigger pre.nets@[kk].driver]
                        pre.net_live(kk) && e.src == pre.ni() + kk && match pre.nets@[kk].driver {
                            Some(d) => pre.inst_live(d.0 as int) && e.dst == d.0,
                            None => false,
                        };
                    assert(m@[ni + kk]);
                    assert(m@[e.dst as int]);
                    assert(self.net_live(kk));
                    assert(self.inst_live(e.dst as int));
                    assert(self.nets@[kk].driver == pre.nets@[kk].driver);
                    assert(self.cone_edge(e));
                } else {
                    let pp = choose|pp: int|
                        0 <= pp < pre.instances@[e.src as int].inputs@.len() && match (
                        #[trigger] pre.instances@[e.src as int].inputs@[pp]) {
                            Some(kk) => pre.net_live(kk as int) && e.dst == pre.ni() + kk,
                            None => false,
                        };
                    assert(m@[e.src as int]);
                    assert(m@[e.dst as int]);
                    assert(self.inst_live(e.src as int));
                    let kk = pre.instances@[e.src as int].inputs@[pp].unwrap();
                    assert(self.net_live(kk as int));
                    assert(self.instances@[e.src as int].inputs == pre.instances@[
                        e.src as int
                    ].inputs);
                    assert(self.cone_edge(e)) by {
                        assert(self.instances@[e.src as int].inputs@[pp] == Some(kk));
                    }
                }
            }
            assert forall|u3: int| self.inst_live(u3) implies self.in_cone(u3) by {
                assert(m@[u3]);
                let kk = choose|kk: nat| reach_k(cset, root as int, u3, kk);
                lemma_reach_restrict(cset, cset2, root as int, root as int, u3, kk);
            }
            assert forall|k3: int| self.net_live(k3) implies self.in_cone(ni + k3) by {
                assert(m@[ni + k3]);
                let x: int = ni + k3;
                assert(reach(cset, root as int, x));
                let kk = choose|kk: nat| reach_k(cset, root as int, x, kk);
                lemma_reach_restrict(cset, cset2, root as int, root as int, x, kk);
            }
        }
        Ok(removed)
    }
}

/// A clean is idempotent: on a store with nothing left to clean, a clean
/// removes nothing, so running it twice in a row removes nothing the second
/// time.
pub proof fn lemma_clean_idempotent(pre: Netlist, removed: Seq<Removed>)
    requires
        pre.cleaned(),
        forall|u: usize|
            removed.contains(Removed::Inst(u)) <==> (pre.inst_live(u as int) && !pre.in_cone(
                u as int,
            )),
        forall|k: usize|
            removed.contains(Removed::Net(k)) <==> (pre.net_live(k as int) && !pre.in_cone(
                pre.ni() + k,
            )),
    ensures
        removed.len() == 0,
{
    if removed.len() > 0 {
        let x = removed[0];
        assert(removed.contains(x));
        match x {
            Removed::Inst(u) => {
                assert(removed.contains(Removed::Inst(u)));
                assert(pre.inst_live(u as int) && !pre.in_cone(u as int));
            },
            Removed::Net(k) => {
                assert(removed.contains(Removed::Net(k)));
                assert(pre.net_live(k as int) && !pre.in_cone(pre.ni() + k));
            },
        }
    }
}

} // verus!
