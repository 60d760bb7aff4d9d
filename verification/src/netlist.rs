//! The netlist store: the canonical mutable representation of circuit
//! connectivity.
//!
//! Instances and nets live in flat arenas and refer to one another through
//! indices, so the cyclic connectivity graph needs no ownership cycles. An
//! input port records the net that drives it; a net records the instance
//! output port that drives the net. Removal ("clean") retires objects by a
//! liveness flag, which keeps every index stable.
//!
//! Derived analyses (the multigraph view, the component partition, the
//! combinational depth) are cached next to the data, one slot per analysis
//! kind, and every cache slot carries its meaning as part of the store's
//! well-formedness: a filled slot always describes the current connectivity.
//! Every structural mutation clears all three slots.

use vstd::prelude::*;
use crate::graph::Edge;
use crate::scc::scc_valid;
use crate::depth::depth_valid;

verus! {

/// Why a store operation was refused, or which structural invariant a
/// verification found broken.
#[derive(Clone, Copy, PartialEq, Eq, Structural, Debug)]
pub enum NetlistError {
    /// An instance or net index does not name a live object.
    MissingObject,
    /// A port index is outside the instance's declared arity.
    BadPort,
    /// Two live objects would carry the same name.
    NameCollision,
    /// A rename was handed the wrong number of names.
    BadArity,
    /// An input port refers to a net that is not a live net of this store.
    DanglingInput,
    /// A net's driver is not a live instance output of this store.
    BadDriver,
    /// Two live nets claim the same driving output port.
    DriverConflict,
    /// An instance's port lists disagree with its declared arity.
    ArityMismatch,
    /// An observable output is not a live net.
    BadOutput,
    /// The store is too large for the renumbering a clean needs.
    TooLarge,
}

/// One object retired by a clean.
#[derive(Clone, Copy, PartialEq, Eq, Structural, Debug)]
pub enum Removed {
    Inst(usize),
    Net(usize),
}

/// A primitive cell with named ports. `inputs[p]` is the net driving input
/// port `p`, if any.
#[derive(Debug)]
pub struct Instance {
    pub name: String,
    pub is_seq: bool,
    pub input_names: Vec<String>,
    pub inputs: Vec<Option<usize>>,
    pub output_names: Vec<String>,
    pub live: bool,
}

/// A wire: at most one driving output port, any number of consuming inputs
/// (the consumers are the input ports that refer to the net).
#[derive(Debug)]
pub struct Net {
    pub name: String,
    pub driver: Option<(usize, usize)>,
    pub live: bool,
}

/// The netlist store with its analysis caches.
#[derive(Debug)]
pub struct Netlist {
    pub instances: Vec<Instance>,
    pub nets: Vec<Net>,
    pub outputs: Vec<usize>,
    pub graph_cache: Option<Vec<Edge>>,
    pub scc_cache: Option<(usize, usize)>,
    pub depth_cache: Option<Option<usize>>,
}

impl Netlist {
    pub open spec fn ni(self) -> int {
        self.instances@.len() as int
    }

    pub open spec fn nn(self) -> int {
        self.nets@.len() as int
    }

    pub open spec fn inst_live(self, u: int) -> bool {
        0 <= u < self.ni() && self.instances@[u].live
    }

    pub open spec fn net_live(self, k: int) -> bool {
        0 <= k < self.nn() && self.nets@[k].live
    }

    /// One arc of the connectivity multigraph: output `e.src_port` of
    /// instance `e.src` drives, through a live net, input `e.dst_port` of
    /// instance `e.dst`.
    pub open spec fn conn(self, e: Edge) -> bool {
        &&& self.inst_live(e.dst as int)
        &&& (e.dst_port as int) < self.instances@[e.dst as int].inputs@.len()
        &&& match self.instances@[e.dst as int].inputs@[e.dst_port as int] {
            Some(k) => self.net_live(k as int) && self.nets@[k as int].driver == Some(
                (e.src, e.src_port),
            ) && self.inst_live(e.src as int),
            None => false,
        }
    }

    /// The connectivity multigraph as a set of arcs.
    pub open spec fn conns(self) -> Set<Edge> {
        Set::new(|e: Edge| self.conn(e))
    }

    /// Which node indices are live combinational instances.
    pub open spec fn comb_flags(self) -> Seq<bool> {
        Seq::new(
            self.ni() as nat,
            |u: int| self.inst_live(u) && !self.instances@[u].is_seq,
        )
    }

    pub open spec fn names_ok(self) -> bool {
        &&& forall|u1: int, u2: int|
            0 <= u1 < u2 < self.ni() && self.instances@[u1].live && self.instances@[u2].live
                ==> (#[trigger] self.instances@[u1].name)@ != (#[trigger] self.instances@[u2].name)@
        &&& forall|k1: int, k2: int|
            0 <= k1 < k2 < self.nn() && self.nets@[k1].live && self.nets@[k2].live
                ==> (#[trigger] self.nets@[k1].name)@ != (#[trigger] self.nets@[k2].name)@
        &&& forall|u: int, k: int|
            self.inst_live(u) && self.net_live(k) ==> (#[trigger] self.instances@[u].name)@
                != (#[trigger] self.nets@[k].name)@
    }

    pub open spec fn arity_ok(self) -> bool {
        forall|u: int|
            0 <= u < self.ni() ==> (#[trigger] self.instances@[u]).inputs@.len()
                == self.instances@[u].input_names@.len()
    }

    pub open spec fn refs_ok(self) -> bool {
        &&& forall|u: int, p: int|
            self.inst_live(u) && 0 <= p < self.instances@[u].inputs@.len() ==> match (
            #[trigger] self.instances@[u].inputs@[p]) {
                Some(k) => self.net_live(k as int),
                None => true,
            }
        &&& forall|k: int|
            self.net_live(k) ==> match (#[trigger] self.nets@[k].driver) {
                Some(d) => self.inst_live(d.0 as int) && (d.1 as int) < self.instances@[
                    d.0 as int
                ].output_names@.len(),
                None => true,
            }
        &&& forall|k1: int, k2: int|
            self.net_live(k1) && self.net_live(k2) && k1 != k2 && (#[trigger] self.nets@[
                k1
            ].driver).is_some() && (#[trigger] self.nets@[k2].driver).is_some()
                ==> self.nets@[k1].driver != self.nets@[k2].driver
        &&& forall|o: int|
            0 <= o < self.outputs@.len() ==> self.net_live(#[trigger] self.outputs@[o] as int)
    }

    /// The structural invariants the verifier checks.
    pub open spec fn struct_ok(self) -> bool {
        self.arity_ok() && self.refs_ok() && self.names_ok()
    }

    /// The arc through input port `p` of instance `v`, if that port is
    /// driven by a live net with a live driver.
    pub open spec fn port_arc(self, v: int, p: int) -> Option<Edge> {
        if self.inst_live(v) && 0 <= p < self.instances@[v].inputs@.len() {
            match self.instances@[v].inputs@[p] {
                Some(k) => if self.net_live(k as int) {
                    match self.nets@[k as int].driver {
                        Some(d) => if self.inst_live(d.0 as int) {
                            Some(
                                Edge {
                                    src: d.0,
                                    src_port: d.1,
                                    dst: v as usize,
                                    dst_port: p as usize,
                                },
                            )
                        } else {
                            None
                        },
                        None => None,
                    }
                } else {
                    None
                },
                None => None,
            }
        } else {
            None
        }
    }

    /// The arcs of the first `p` input ports of instance `v`, port order.
    pub open spec fn inst_arcs(self, v: int, p: int) -> Seq<Edge>
        decreases p,
    {
        if p <= 0 {
            Seq::empty()
        } else {
            self.inst_arcs(v, p - 1) + match self.port_arc(v, p - 1) {
                Some(e) => seq![e],
                None => Seq::<Edge>::empty(),
            }
        }
    }

    /// The arcs of the first `v` instances, instance then port order.
    pub open spec fn arcs_prefix(self, v: int) -> Seq<Edge>
        decreases v,
    {
        if v <= 0 {
            Seq::empty()
        } else {
            self.arcs_prefix(v - 1) + self.inst_arcs(
                v - 1,
                self.instances@[v - 1].inputs@.len() as int,
            )
        }
    }

    /// The canonical enumeration of the connectivity multigraph: one arc
    /// per driven input port, in instance then port order. The multigraph
    /// view is exactly this list, which makes every analysis derived from
    /// it a function of the store.
    pub open spec fn graph_arcs(self) -> Seq<Edge> {
        self.arcs_prefix(self.ni())
    }

    pub open spec fn graph_cache_ok(self) -> bool {
        match self.graph_cache {
            None => true,
            Some(es) => {
                &&& es@ == self.graph_arcs()
                &&& es@.to_set() == self.conns()
                &&& forall|t: int|
                    0 <= t < es@.len() ==> (#[trigger] es@[t]).src < self.ni() && es@[t].dst
                        < self.ni()
                &&& es@.no_duplicates()
            },
        }
    }

    pub open spec fn live_flags(self) -> Seq<bool> {
        Seq::new(self.ni() as nat, |u: int| self.instances@[u].live)
    }

    pub open spec fn scc_cache_ok(self) -> bool {
        match self.scc_cache {
            None => true,
            Some(c) => exists|comps: Seq<Vec<usize>>|
                {
                    &&& #[trigger] scc_valid(self.ni() as nat, self.conns(), comps)
                    &&& c.0 == count_nontrivial(comps)
                    &&& c.1 == count_live_comps(self.live_flags(), comps)
                },
        }
    }

    pub open spec fn depth_cache_ok(self) -> bool {
        match self.depth_cache {
            None => true,
            Some(d) => depth_valid(self.conns(), self.comb_flags(), d),
        }
    }

    /// Full well-formedness: structure plus honest caches.
    pub open spec fn wf(self) -> bool {
        self.struct_ok() && self.graph_cache_ok() && self.scc_cache_ok() && self.depth_cache_ok()
    }

    /// Count of live objects, saturated at the machine limit: what `len`
    /// returns.
    pub open spec fn live_total(self) -> int {
        let t = count_live_insts(self.instances@) + count_live_nets(self.nets@);
        if t <= usize::MAX {
            t
        } else {
            usize::MAX as int
        }
    }

    /// The stored data agree, caches aside.
    pub open spec fn same_core(self, other: Netlist) -> bool {
        self.instances == other.instances && self.nets == other.nets && self.outputs
            == other.outputs
    }
}

/// The views of a list of names.
pub open spec fn views_of(names: Seq<String>) -> Seq<Seq<char>> {
    names.map_values(|s: String| s@)
}

/// Number of components holding more than one node.
pub open spec fn count_nontrivial(comps: Seq<Vec<usize>>) -> int
    decreases comps.len(),
{
    if comps.len() == 0 {
        0
    } else {
        count_nontrivial(comps.drop_last()) + if comps.last()@.len() > 1 {
            1int
        } else {
            0int
        }
    }
}

/// Number of components whose nodes are live instances. A component mixes no
/// liveness: dead nodes are isolated, so they sit in singleton components.
pub open spec fn count_live_comps(live: Seq<bool>, comps: Seq<Vec<usize>>) -> int
    decreases comps.len(),
{
    if comps.len() == 0 {
        0
    } else {
        count_live_comps(live, comps.drop_last()) + if comps.last()@.len() > 0 && 0 <= (
        comps.last()@[0] as int) < live.len() && live[comps.last()@[0] as int] {
            1int
        } else {
            0int
        }
    }
}

/// Number of live instances of the arena.
pub open spec fn count_live_insts(s: Seq<Instance>) -> int
    decreases s.len(),
{
    if s.len() == 0 {
        0
    } else {
        count_live_insts(s.drop_last()) + if s.last().live {
            1int
        } else {
            0int
        }
    }
}

/// Number of live nets of the arena.
pub open spec fn count_live_nets(s: Seq<Net>) -> int
    decreases s.len(),
{
    if s.len() == 0 {
        0
    } else {
        count_live_nets(s.drop_last()) + if s.last().live {
            1int
        } else {
            0int
        }
    }
}


impl Netlist {
    /// A name already carried by some live object.
    pub open spec fn name_taken(self, s: Seq<char>) -> bool {
        (exists|u: int| self.inst_live(u) && (#[trigger] self.instances@[u].name)@ == s) || (
        exists|k: int| self.net_live(k) && (#[trigger] self.nets@[k].name)@ == s)
    }

    /// A name already carried by some live object other than instance `u`.
    pub open spec fn name_taken_by_other(self, u: int, s: Seq<char>) -> bool {
        (exists|v: int|
            self.inst_live(v) && v != u && (#[trigger] self.instances@[v].name)@ == s) || (
        exists|k: int| self.net_live(k) && (#[trigger] self.nets@[k].name)@ == s)
    }

    /// Two live objects would end up sharing a name under the assignment
    /// `nv`, which gives one new name per net slot: two live nets take equal
    /// names, or a live net takes a live instance's name.
    pub open spec fn rename_collision(self, nv: Seq<Seq<char>>) -> bool {
        (exists|k1: int, k2: int|
            0 <= k1 < k2 < self.nn() && self.net_live(k1) && self.net_live(k2) && #[trigger] nv[
                k1
            ] == #[trigger] nv[k2]) || (exists|k: int, u: int|
            self.net_live(k) && self.inst_live(u) && (#[trigger] nv[k]) == (
            #[trigger] self.instances@[u].name)@)
    }

    /// An empty store.
    pub fn new() -> (r: Netlist)
        ensures
            r.wf(),
            r.ni() == 0,
            r.nn() == 0,
            r.outputs@.len() == 0,
    {
        Netlist {
            instances: Vec::new(),
            nets: Vec::new(),
            outputs: Vec::new(),
            graph_cache: None,
            scc_cache: None,
            depth_cache: None,
        }
    }

    /// Whether any live object other than instance `skip` carries `name`.
    fn name_used_except(&self, name: &String, skip_inst: usize, skip_net: usize) -> (b: bool)
        ensures
            b <==> ((exists|u: int|
                self.inst_live(u) && u != skip_inst && (#[trigger] self.instances@[u].name)@
                    == name@) || (exists|k: int|
                self.net_live(k) && k != skip_net && (#[trigger] self.nets@[k].name)@ == name@)),
    {
        let mut u: usize = 0;
        while u < self.instances.len()
            invariant
                u <= self.instances@.len(),
                forall|t: int|
                    0 <= t < u && self.inst_live(t) && t != skip_inst ==> (
                    #[trigger] self.instances@[t].name)@ != name@,
            decreases self.instances@.len() - u,
        {
            if u != skip_inst && self.instances[u].live && *name == self.instances[u].name {
                return true;
            }
            u += 1;
        }
        let mut k: usize = 0;
        while k < self.nets.len()
            invariant
                k <= self.nets@.len(),
                forall|t: int|
                    0 <= t < k && self.net_live(t) && t != skip_net ==> (
                    #[trigger] self.nets@[t].name)@ != name@,
            decreases self.nets@.len() - k,
        {
            if k != skip_net && self.nets[k].live && *name == self.nets[k].name {
                return true;
            }
            k += 1;
        }
        false
    }

    /// Create a live net with no driver. Fails on a name collision with any
    /// live object.
    pub fn add_net(&mut self, name: String) -> (r: Result<usize, NetlistError>)
        requires
            old(self).wf(),
        ensures
            final(self).wf(),
            match r {
                Ok(k) => {
                    &&& !old(self).name_taken(name@)
                    &&& k == old(self).nn()
                    &&& final(self).nn() == old(self).nn() + 1
                    &&& final(self).nets@[k as int].name@ == name@
                    &&& final(self).nets@[k as int].driver.is_none()
                    &&& final(self).nets@[k as int].live
                    &&& forall|t: int|
                        0 <= t < old(self).nn() ==> final(self).nets@[t] == old(self).nets@[t]
                    &&& final(self).instances == old(self).instances
                    &&& final(self).outputs == old(self).outputs
                },
                Err(e) => e == NetlistError::NameCollision && old(self).name_taken(name@) && *final(self) == *old(self),
            },
    {
        if self.name_used_except(&name, self.instances.len(), self.nets.len()) {
            return Err(NetlistError::NameCollision);
        }
        let k = self.nets.len();
        let ghost pre = *self;
        self.nets.push(Net { name, driver: None, live: true });
        self.graph_cache = None;
        self.scc_cache = None;
        self.depth_cache = None;
        proof {
            assert(self.nets@ == pre.nets@.push(self.nets@[k as int]));
            assert forall|e: Edge| self.conn(e) implies pre.conn(e) by {}
            assert forall|e: Edge| pre.conn(e) implies self.conn(e) by {}
            assert(self.struct_ok());
        }
        Ok(k)
    }

    /// Create a live instance with the given port names and no connections.
    /// Fails on a name collision with any live object.
    pub fn add_instance(
        &mut self,
        name: String,
        is_seq: bool,
        input_names: Vec<String>,
        output_names: Vec<String>,
    ) -> (r: Result<usize, NetlistError>)
        requires
            old(self).wf(),
        ensures
            final(self).wf(),
            match r {
                Ok(u) => {
                    &&& !old(self).name_taken(name@)
                    &&& u == old(self).ni()
                    &&& final(self).ni() == old(self).ni() + 1
                    &&& final(self).instances@[u as int].name@ == name@
                    &&& final(self).instances@[u as int].is_seq == is_seq
                    &&& final(self).instances@[u as int].live
                    &&& final(self).instances@[u as int].input_names == input_names
                    &&& final(self).instances@[u as int].output_names == output_names
                    &&& final(self).instances@[u as int].inputs@.len() == input_names@.len()
                    &&& forall|p: int|
                        0 <= p < input_names@.len() ==> (#[trigger] final(self).instances@[
                            u as int
                        ].inputs@[p]).is_none()
                    &&& forall|t: int|
                        0 <= t < old(self).ni() ==> final(self).instances@[t] == old(
                            self,
                        ).instances@[t]
                    &&& final(self).nets == old(self).nets
                    &&& final(self).outputs == old(self).outputs
                },
                Err(e) => e == NetlistError::NameCollision && old(self).name_taken(name@) && *final(self) == *old(self),
            },
    {
        if self.name_used_except(&name, self.instances.len(), self.nets.len()) {
            return Err(NetlistError::NameCollision);
        }
        let u = self.instances.len();
        let mut inputs: Vec<Option<usize>> = Vec::new();
        let mut p: usize = 0;
        while p < input_names.len()
            invariant
                p <= input_names@.len(),
                inputs@.len() == p,
                forall|t: int| 0 <= t < p ==> (#[trigger] inputs@[t]).is_none(),
            decreases input_names@.len() - p,
        {
            inputs.push(None);
            p += 1;
        }
        let ghost pre = *self;
        self.instances.push(
            Instance { name, is_seq, input_names, inputs, output_names, live: true },
        );
        self.graph_cache = None;
        self.scc_cache = None;
        self.depth_cache = None;
        proof {
            assert(self.instances@ == pre.instances@.push(self.instances@[u as int]));
            assert forall|e: Edge| self.conn(e) implies pre.conn(e) || e.dst == u by {}
            assert(self.struct_ok());
        }
        Ok(u)
    }

    /// Record that net `net` drives input `port` of instance `inst`.
    pub fn connect_input(&mut self, inst: usize, port: usize, net: usize) -> (r: Result<
        (),
        NetlistError,
    >)
        requires
            old(self).wf(),
        ensures
            final(self).wf(),
            match r {
                Ok(_) => {
                    &&& old(self).inst_live(inst as int)
                    &&& (port as int) < old(self).instances@[inst as int].inputs@.len()
                    &&& old(self).net_live(net as int)
                    &&& final(self).instances@[inst as int].inputs@ == old(self).instances@[
                        inst as int
                    ].inputs@.update(port as int, Some(net))
                    &&& final(self).ni() == old(self).ni()
                    &&& forall|t: int|
                        0 <= t < old(self).ni() && t != inst ==> final(self).instances@[t] == old(
                            self,
                        ).instances@[t]
                    &&& final(self).instances@[inst as int].name == old(self).instances@[
                        inst as int
                    ].name
                    &&& final(self).instances@[inst as int].live == old(self).instances@[
                        inst as int
                    ].live
                    &&& final(self).instances@[inst as int].is_seq == old(self).instances@[
                        inst as int
                    ].is_seq
                    &&& final(self).nets == old(self).nets
                    &&& final(self).outputs == old(self).outputs
                },
                Err(e) => {
                    &&& *final(self) == *old(self)
                    &&& (e == NetlistError::MissingObject || e == NetlistError::BadPort)
                    &&& !(old(self).inst_live(inst as int) && (port as int) < old(self).instances@[
                        inst as int
                    ].inputs@.len() && old(self).net_live(net as int))
                },
            },
    {
        if inst >= self.instances.len() || !self.instances[inst].live {
            return Err(NetlistError::MissingObject);
        }
        if port >= self.instances[inst].inputs.len() {
            return Err(NetlistError::BadPort);
        }
        if net >= self.nets.len() || !self.nets[net].live {
            return Err(NetlistError::MissingObject);
        }
        let ghost pre = *self;
        self.instances[inst].inputs[port] = Some(net);
        self.graph_cache = None;
        self.scc_cache = None;
        self.depth_cache = None;
        proof {
            assert(self.struct_ok());
        }
        Ok(())
    }

    /// Record that output `port` of instance `inst` drives net `net`.
    /// Fails if another live net already claims that output port.
    pub fn set_driver(&mut self, net: usize, inst: usize, port: usize) -> (r: Result<
        (),
        NetlistError,
    >)
        requires
            old(self).wf(),
        ensures
            final(self).wf(),
            match r {
                Ok(_) => {
                    &&& old(self).net_live(net as int)
                    &&& old(self).inst_live(inst as int)
                    &&& (port as int) < old(self).instances@[inst as int].output_names@.len()
                    &&& forall|k: int|
                        old(self).net_live(k) && k != net ==> (#[trigger] old(self).nets@[k].driver)
                            != Some((inst, port))
                    &&& final(self).nets@[net as int].driver == Some((inst, port))
                    &&& final(self).nets@[net as int].name == old(self).nets@[net as int].name
                    &&& final(self).nets@[net as int].live == old(self).nets@[net as int].live
                    &&& final(self).nn() == old(self).nn()
                    &&& forall|t: int|
                        0 <= t < old(self).nn() && t != net ==> final(self).nets@[t] == old(
                            self,
                        ).nets@[t]
                    &&& final(self).instances == old(self).instances
                    &&& final(self).outputs == old(self).outputs
                },
                Err(e) => {
                    &&& *final(self) == *old(self)
                    &&& (e == NetlistError::MissingObject || e == NetlistError::BadPort || e
                        == NetlistError::DriverConflict)
                    &&& !(old(self).net_live(net as int) && old(self).inst_live(inst as int) && (
                    port as int) < old(self).instances@[inst as int].output_names@.len() && (
                    forall|k: int|
                        old(self).net_live(k) && k != net ==> (#[trigger] old(self).nets@[k].driver)
                            != Some((inst, port))))
                },
            },
    {
        if net >= self.nets.len() || !self.nets[net].live {
            return Err(NetlistError::MissingObject);
        }
        if inst >= self.instances.len() || !self.instances[inst].live {
            return Err(NetlistError::MissingObject);
        }
        if port >= self.instances[inst].output_names.len() {
            return Err(NetlistError::BadPort);
        }
        let mut k: usize = 0;
        while k < self.nets.len()
            invariant
                *self == *old(self),
                old(self).wf(),
                k <= self.nets@.len(),
                inst < self.instances@.len(),
                port < self.instances@[inst as int].output_names@.len(),
                forall|t: int|
                    0 <= t < k && self.net_live(t) && t != net ==> (#[trigger] self.nets@[t].driver)
                        != Some((inst, port)),
            decreases self.nets@.len() - k,
        {
            if k != net && self.nets[k].live {
                if let Some(d) = self.nets[k].driver {
                    if d.0 == inst && d.1 == port {
                        return Err(NetlistError::DriverConflict);
                    }
                }
            }
            k += 1;
        }
        let ghost pre = *self;
        self.nets[net].driver = Some((inst, port));
        self.graph_cache = None;
        self.scc_cache = None;
        self.depth_cache = None;
        proof {
            assert forall|k1: int, k2: int|
                self.net_live(k1) && self.net_live(k2) && k1 != k2 && (#[trigger] self.nets@[
                    k1
                ].driver).is_some() && (#[trigger] self.nets@[k2].driver).is_some() implies
                self.nets@[k1].driver != self.nets@[k2].driver by {
                if k1 == net as int {
                    assert(pre.nets@[k2].driver != Some((inst, port)));
                } else if k2 == net as int {
                    assert(pre.nets@[k1].driver != Some((inst, port)));
                } else {
                    assert(pre.nets@[k1].driver != pre.nets@[k2].driver);
                }
            }
            assert(self.arity_ok());
            assert(self.refs_ok());
            assert(self.names_ok());
        }
        Ok(())
    }

    /// Declare a live net an observable output of the netlist.
    pub fn add_output(&mut self, net: usize) -> (r: Result<(), NetlistError>)
        requires
            old(self).wf(),
        ensures
            final(self).wf(),
            match r {
                Ok(_) => {
                    &&& old(self).net_live(net as int)
                    &&& final(self).outputs@ == old(self).outputs@.push(net)
                    &&& final(self).instances == old(self).instances
                    &&& final(self).nets == old(self).nets
                },
                Err(e) => e == NetlistError::MissingObject && !old(self).net_live(net as int)
                    && *final(self) == *old(self),
            },
    {
        if net >= self.nets.len() || !self.nets[net].live {
            return Err(NetlistError::MissingObject);
        }
        self.outputs.push(net);
        self.graph_cache = None;
        self.scc_cache = None;
        self.depth_cache = None;
        proof {
            assert forall|e: Edge| self.conn(e) <==> old(self).conn(e) by {}
            assert(self.struct_ok());
        }
        Ok(())
    }

    /// Count of live objects: live instances plus live nets, saturated at
    /// the machine limit.
    pub fn len(&self) -> (r: usize)
        ensures
            r == self.live_total(),
    {
        let mut c: usize = 0;
        let mut u: usize = 0;
        while u < self.instances.len()
            invariant
                u <= self.instances@.len(),
                c == count_live_insts(self.instances@.subrange(0, u as int)),
                c <= u,
            decreases self.instances@.len() - u,
        {
            proof {
                assert(self.instances@.subrange(0, u + 1int).drop_last() =~= self.instances@.subrange(
                    0,
                    u as int,
                ));
                assert(self.instances@.subrange(0, u + 1int).last() == self.instances@[u as int]);
            }
            if self.instances[u].live {
                c += 1;
            }
            u += 1;
        }
        proof {
            assert(self.instances@.subrange(0, self.instances@.len() as int) =~= self.instances@);
        }
        let mut c2: usize = 0;
        let mut k: usize = 0;
        while k < self.nets.len()
            invariant
                k <= self.nets@.len(),
                c2 == count_live_nets(self.nets@.subrange(0, k as int)),
                c2 <= k,
            decreases self.nets@.len() - k,
        {
            proof {
                assert(self.nets@.subrange(0, k + 1int).drop_last() =~= self.nets@.subrange(
                    0,
                    k as int,
                ));
                assert(self.nets@.subrange(0, k + 1int).last() == self.nets@[k as int]);
            }
            if self.nets[k].live {
                c2 += 1;
            }
            k += 1;
        }
        proof {
            assert(self.nets@.subrange(0, self.nets@.len() as int) =~= self.nets@);
            lemma_count_live_insts_bound(self.instances@);
            lemma_count_live_nets_bound(self.nets@);
        }
        if c > usize::MAX - c2 {
            usize::MAX
        } else {
            c + c2
        }
    }

    /// Clear the driver reference of one input port. Returns the net that
    /// was disconnected, or `None` when the port was already disconnected —
    /// the stored data are then left exactly as they were, though the
    /// analysis caches are still cleared: every mutating operation clears
    /// them, connected or not.
    pub fn disconnect(&mut self, inst: usize, port: usize) -> (r: Result<
        Option<usize>,
        NetlistError,
    >)
        requires
            old(self).wf(),
        ensures
            final(self).wf(),
            match r {
                Ok(prev) => {
                    &&& old(self).inst_live(inst as int)
                    &&& (port as int) < old(self).instances@[inst as int].inputs@.len()
                    &&& prev == old(self).instances@[inst as int].inputs@[port as int]
                    &&& final(self).instances@[inst as int].inputs@ == old(self).instances@[
                        inst as int
                    ].inputs@.update(port as int, None)
                    &&& final(self).ni() == old(self).ni()
                    &&& forall|t: int|
                        0 <= t < old(self).ni() && t != inst ==> final(self).instances@[t] == old(
                            self,
                        ).instances@[t]
                    &&& final(self).instances@[inst as int].name == old(self).instances@[
                        inst as int
                    ].name
                    &&& final(self).instances@[inst as int].live == old(self).instances@[
                        inst as int
                    ].live
                    &&& final(self).instances@[inst as int].is_seq == old(self).instances@[
                        inst as int
                    ].is_seq
                    &&& final(self).instances@[inst as int].input_names == old(self).instances@[
                        inst as int
                    ].input_names
                    &&& final(self).instances@[inst as int].output_names == old(self).instances@[
                        inst as int
                    ].output_names
                    &&& final(self).nets == old(self).nets
                    &&& final(self).outputs == old(self).outputs
                    &&& (prev.is_none() ==> final(self).instances@[inst as int].inputs@ == old(
                        self,
                    ).instances@[inst as int].inputs@)
                },
                Err(e) => {
                    &&& *final(self) == *old(self)
                    &&& !(old(self).inst_live(inst as int) && (port as int) < old(self).instances@[
                        inst as int
                    ].inputs@.len())
                    &&& (e == NetlistError::MissingObject || e == NetlistError::BadPort)
                },
            },
    {
        if inst >= self.instances.len() || !self.instances[inst].live {
            return Err(NetlistError::MissingObject);
        }
        if port >= self.instances[inst].inputs.len() {
            return Err(NetlistError::BadPort);
        }
        let prev = self.instances[inst].inputs[port];
        proof {
            if old(self).instances@[inst as int].inputs@[port as int].is_none() {
                assert(old(self).instances@[inst as int].inputs@.update(port as int, None) =~= old(
                    self,
                ).instances@[inst as int].inputs@);
            }
        }
        self.instances[inst].inputs[port] = None;
        self.graph_cache = None;
        self.scc_cache = None;
        self.depth_cache = None;
        proof {
            assert(self.struct_ok());
        }
        Ok(prev)
    }
}

/// Live objects are no more numerous than all objects.
proof fn lemma_inst_arcs_congruent(a: Netlist, b: Netlist, v: int, p: int)
    requires
        a.ni() == b.ni(),
        a.nn() == b.nn(),
        forall|u: int|
            0 <= u < a.ni() ==> (#[trigger] a.instances@[u]).live == b.instances@[u].live
                && a.instances@[u].inputs == b.instances@[u].inputs,
        forall|k: int|
            0 <= k < a.nn() ==> (#[trigger] a.nets@[k]).live == b.nets@[k].live && a.nets@[k].driver
                == b.nets@[k].driver,
    ensures
        a.inst_arcs(v, p) == b.inst_arcs(v, p),
    decreases p,
{
    if p > 0 {
        lemma_inst_arcs_congruent(a, b, v, p - 1);
        assert(a.port_arc(v, p - 1) == b.port_arc(v, p - 1));
    }
}

proof fn lemma_arcs_prefix_congruent(a: Netlist, b: Netlist, v: int)
    requires
        a.ni() == b.ni(),
        a.nn() == b.nn(),
        forall|u: int|
            0 <= u < a.ni() ==> (#[trigger] a.instances@[u]).live == b.instances@[u].live
                && a.instances@[u].inputs == b.instances@[u].inputs,
        forall|k: int|
            0 <= k < a.nn() ==> (#[trigger] a.nets@[k]).live == b.nets@[k].live && a.nets@[k].driver
                == b.nets@[k].driver,
        v <= a.ni(),
    ensures
        a.arcs_prefix(v) == b.arcs_prefix(v),
    decreases v,
{
    if v > 0 {
        lemma_arcs_prefix_congruent(a, b, v - 1);
        assert(a.instances@[v - 1].inputs == b.instances@[v - 1].inputs);
        lemma_inst_arcs_congruent(a, b, v - 1, a.instances@[v - 1].inputs@.len() as int);
    }
}

/// Liveness, connections and drivers alone decide the arc enumeration:
/// renaming anything leaves it untouched.
pub proof fn lemma_graph_arcs_congruent(a: Netlist, b: Netlist)
    requires
        a.ni() == b.ni(),
        a.nn() == b.nn(),
        forall|u: int|
            0 <= u < a.ni() ==> (#[trigger] a.instances@[u]).live == b.instances@[u].live
                && a.instances@[u].inputs == b.instances@[u].inputs,
        forall|k: int|
            0 <= k < a.nn() ==> (#[trigger] a.nets@[k]).live == b.nets@[k].live && a.nets@[k].driver
                == b.nets@[k].driver,
    ensures
        a.graph_arcs() == b.graph_arcs(),
{
    lemma_arcs_prefix_congruent(a, b, a.ni());
}

/// A dead instance contributes no arcs.
pub proof fn lemma_inst_arcs_dead(nl: Netlist, v: int, p: int)
    requires
        !nl.inst_live(v),
    ensures
        nl.inst_arcs(v, p) =~= Seq::<Edge>::empty(),
    decreases p,
{
    if p > 0 {
        lemma_inst_arcs_dead(nl, v, p - 1);
    }
}

pub proof fn lemma_count_live_insts_bound(s: Seq<Instance>)
    ensures
        0 <= count_live_insts(s) <= s.len(),
    decreases s.len(),
{
    if s.len() > 0 {
        lemma_count_live_insts_bound(s.drop_last());
    }
}

/// Liveness alone decides the count: nets that differ only in name count
/// alike.
pub proof fn lemma_count_live_nets_congruent(a: Seq<Net>, b: Seq<Net>)
    requires
        a.len() == b.len(),
        forall|t: int| 0 <= t < a.len() ==> a[t].live == b[t].live,
    ensures
        count_live_nets(a) == count_live_nets(b),
    decreases a.len(),
{
    if a.len() > 0 {
        assert(a.drop_last().len() == b.drop_last().len());
        lemma_count_live_nets_congruent(a.drop_last(), b.drop_last());
        assert(a.last().live == b.last().live);
    }
}

pub proof fn lemma_count_live_nets_bound(s: Seq<Net>)
    ensures
        0 <= count_live_nets(s) <= s.len(),
    decreases s.len(),
{
    if s.len() > 0 {
        lemma_count_live_nets_bound(s.drop_last());
    }
}


impl Netlist {
    /// Caches keep their meaning across a change that leaves connectivity,
    /// instance count, liveness and sequentiality untouched.
    proof fn lemma_caches_survive(self, pre: Netlist)
        requires
            pre.graph_cache_ok(),
            pre.scc_cache_ok(),
            pre.depth_cache_ok(),
            self.graph_cache == pre.graph_cache,
            self.scc_cache == pre.scc_cache,
            self.depth_cache == pre.depth_cache,
            self.conns() == pre.conns(),
            self.graph_arcs() == pre.graph_arcs(),
            self.ni() == pre.ni(),
            self.live_flags() == pre.live_flags(),
            self.comb_flags() == pre.comb_flags(),
        ensures
            self.graph_cache_ok(),
            self.scc_cache_ok(),
            self.depth_cache_ok(),
    {
        match pre.scc_cache {
            None => {},
            Some(c) => {
                let comps = choose|comps: Seq<Vec<usize>>|
                    {
                        &&& #[trigger] scc_valid(pre.ni() as nat, pre.conns(), comps)
                        &&& c.0 == count_nontrivial(comps)
                        &&& c.1 == count_live_comps(pre.live_flags(), comps)
                    };
                assert(scc_valid(self.ni() as nat, self.conns(), comps));
            },
        }
    }

    /// Rename input port `port` of instance `inst`. Connectivity and caches
    /// are untouched: only the port's external name changes.
    pub fn remap_input(&mut self, inst: usize, port: usize, name: String) -> (r: Result<
        (),
        NetlistError,
    >)
        requires
            old(self).wf(),
        ensures
            final(self).wf(),
            match r {
                Ok(_) => {
                    &&& old(self).inst_live(inst as int)
                    &&& (port as int) < old(self).instances@[inst as int].input_names@.len()
                    &&& final(self).instances@[inst as int].input_names@ == old(self).instances@[
                        inst as int
                    ].input_names@.update(port as int, name)
                    &&& final(self).ni() == old(self).ni()
                    &&& forall|t: int|
                        0 <= t < old(self).ni() && t != inst ==> final(self).instances@[t] == old(
                            self,
                        ).instances@[t]
                    &&& final(self).instances@[inst as int].name == old(self).instances@[
                        inst as int
                    ].name
                    &&& final(self).instances@[inst as int].inputs == old(self).instances@[
                        inst as int
                    ].inputs
                    &&& final(self).instances@[inst as int].output_names == old(self).instances@[
                        inst as int
                    ].output_names
                    &&& final(self).instances@[inst as int].live == old(self).instances@[
                        inst as int
                    ].live
                    &&& final(self).instances@[inst as int].is_seq == old(self).instances@[
                        inst as int
                    ].is_seq
                    &&& final(self).nets == old(self).nets
                    &&& final(self).outputs == old(self).outputs
                    &&& final(self).conns() == old(self).conns()
                },
                Err(e) => {
                    &&& *final(self) == *old(self)
                    &&& !(old(self).inst_live(inst as int) && (port as int) < old(self).instances@[
                        inst as int
                    ].input_names@.len())
                    &&& (e == NetlistError::MissingObject || e == NetlistError::BadPort)
                },
            },
    {
        if inst >= self.instances.len() || !self.instances[inst].live {
            return Err(NetlistError::MissingObject);
        }
        if port >= self.instances[inst].input_names.len() {
            return Err(NetlistError::BadPort);
        }
        let ghost pre = *self;
        self.instances[inst].input_names[port] = name;
        proof {
            assert forall|e: Edge| self.conn(e) <==> pre.conn(e) by {}
            assert(self.conns() =~= pre.conns());
            assert(self.live_flags() =~= pre.live_flags());
            assert(self.comb_flags() =~= pre.comb_flags());
            lemma_graph_arcs_congruent(*self, pre);
            self.lemma_caches_survive(pre);
            assert(self.struct_ok());
        }
        Ok(())
    }

    /// Rename output port `port` of instance `inst`; the counterpart of
    /// [`Self::remap_input`] for the driving side.
    pub fn remap_output(&mut self, inst: usize, port: usize, name: String) -> (r: Result<
        (),
        NetlistError,
    >)
        requires
            old(self).wf(),
        ensures
            final(self).wf(),
            match r {
                Ok(_) => {
                    &&& old(self).inst_live(inst as int)
                    &&& (port as int) < old(self).instances@[inst as int].output_names@.len()
                    &&& final(self).instances@[inst as int].output_names@ == old(self).instances@[
                        inst as int
                    ].output_names@.update(port as int, name)
                    &&& final(self).ni() == old(self).ni()
                    &&& forall|t: int|
                        0 <= t < old(self).ni() && t != inst ==> final(self).instances@[t] == old(
                            self,
                        ).instances@[t]
                    &&& final(self).instances@[inst as int].name == old(self).instances@[
                        inst as int
                    ].name
                    &&& final(self).instances@[inst as int].inputs == old(self).instances@[
                        inst as int
                    ].inputs
                    &&& final(self).instances@[inst as int].input_names == old(self).instances@[
                        inst as int
                    ].input_names
                    &&& final(self).instances@[inst as int].live == old(self).instances@[
                        inst as int
                    ].live
                    &&& final(self).instances@[inst as int].is_seq == old(self).instances@[
                        inst as int
                    ].is_seq
                    &&& final(self).nets == old(self).nets
                    &&& final(self).outputs == old(self).outputs
                    &&& final(self).conns() == old(self).conns()
                },
                Err(e) => {
                    &&& *final(self) == *old(self)
                    &&& !(old(self).inst_live(inst as int) && (port as int) < old(self).instances@[
                        inst as int
                    ].output_names@.len())
                    &&& (e == NetlistError::MissingObject || e == NetlistError::BadPort)
                },
            },
    {
        if inst >= self.instances.len() || !self.instances[inst].live {
            return Err(NetlistError::MissingObject);
        }
        if port >= self.instances[inst].output_names.len() {
            return Err(NetlistError::BadPort);
        }
        let ghost pre = *self;
        self.instances[inst].output_names[port] = name;
        proof {
            assert forall|e: Edge| self.conn(e) <==> pre.conn(e) by {}
            assert(self.conns() =~= pre.conns());
            assert(self.live_flags() =~= pre.live_flags());
            assert(self.comb_flags() =~= pre.comb_flags());
            lemma_graph_arcs_congruent(*self, pre);
            self.lemma_caches_survive(pre);
            assert(self.struct_ok());
        }
        Ok(())
    }

    /// Give instance `inst` a new name. Fails when any other live object
    /// already carries it; renaming an instance to its own name is allowed.
    pub fn set_instance_name(&mut self, inst: usize, name: String) -> (r: Result<
        (),
        NetlistError,
    >)
        requires
            old(self).wf(),
        ensures
            final(self).wf(),
            match r {
                Ok(_) => {
                    &&& old(self).inst_live(inst as int)
                    &&& forall|u: int|
                        old(self).inst_live(u) && u != inst ==> (#[trigger] old(self).instances@[
                            u
                        ].name)@ != name@
                    &&& forall|k: int|
                        old(self).net_live(k) ==> (#[trigger] old(self).nets@[k].name)@ != name@
                    &&& final(self).instances@[inst as int].name@ == name@
                    &&& final(self).ni() == old(self).ni()
                    &&& forall|t: int|
                        0 <= t < old(self).ni() && t != inst ==> final(self).instances@[t] == old(
                            self,
                        ).instances@[t]
                    &&& final(self).instances@[inst as int].inputs == old(self).instances@[
                        inst as int
                    ].inputs
                    &&& final(self).instances@[inst as int].input_names == old(self).instances@[
                        inst as int
                    ].input_names
                    &&& final(self).instances@[inst as int].output_names == old(self).instances@[
                        inst as int
                    ].output_names
                    &&& final(self).instances@[inst as int].live == old(self).instances@[
                        inst as int
                    ].live
                    &&& final(self).instances@[inst as int].is_seq == old(self).instances@[
                        inst as int
                    ].is_seq
                    &&& final(self).nets == old(self).nets
                    &&& final(self).outputs == old(self).outputs
                    &&& final(self).conns() == old(self).conns()
                },
                Err(e) => {
                    &&& *final(self) == *old(self)
                    &&& (e == NetlistError::MissingObject || e == NetlistError::NameCollision)
                    &&& (e == NetlistError::MissingObject <==> !old(self).inst_live(inst as int))
                    &&& (e == NetlistError::NameCollision <==> (old(self).inst_live(inst as int)
                        && old(self).name_taken_by_other(inst as int, name@)))
                },
            },
    {
        if inst >= self.instances.len() || !self.instances[inst].live {
            return Err(NetlistError::MissingObject);
        }
        if self.name_used_except(&name, inst, self.nets.len()) {
            proof {
                assert(self.name_taken_by_other(inst as int, name@)) by {
                    if !(exists|v: int|
                        self.inst_live(v) && v != inst && (#[trigger] self.instances@[v].name)@
                            == name@) {
                        let kk = choose|kk: int|
                            self.net_live(kk) && kk != self.nets@.len() && (
                            #[trigger] self.nets@[kk].name)@ == name@;
                        assert(self.net_live(kk) && self.nets@[kk].name@ == name@);
                    }
                }
            }
            return Err(NetlistError::NameCollision);
        }
        proof {
            assert(!self.name_taken_by_other(inst as int, name@)) by {
                if exists|v: int|
                    self.inst_live(v) && v != inst && (#[trigger] self.instances@[v].name)@
                        == name@ {
                    let v = choose|v: int|
                        self.inst_live(v) && v != inst && (#[trigger] self.instances@[v].name)@
                            == name@;
                    assert(false);
                }
                if exists|kk: int|
                    self.net_live(kk) && (#[trigger] self.nets@[kk].name)@ == name@ {
                    let kk = choose|kk: int|
                        self.net_live(kk) && (#[trigger] self.nets@[kk].name)@ == name@;
                    assert(kk != self.nets@.len());
                    assert(false);
                }
            }
        }
        let ghost pre = *self;
        self.instances[inst].name = name;
        proof {
            assert forall|e: Edge| self.conn(e) <==> pre.conn(e) by {}
            assert(self.conns() =~= pre.conns());
            assert(self.live_flags() =~= pre.live_flags());
            assert(self.comb_flags() =~= pre.comb_flags());
            lemma_graph_arcs_congruent(*self, pre);
            self.lemma_caches_survive(pre);
            assert(self.struct_ok());
        }
        Ok(())
    }

    /// Rename every live net: net `k` takes `names[k]`. The caller supplies
    /// one name per net slot, index order; the rename fails, changing
    /// nothing, when the count is off or two live objects would end up with
    /// one name. Returns the count of live objects.
    pub fn rename_nets(&mut self, names: &Vec<String>) -> (r: Result<usize, NetlistError>)
        requires
            old(self).wf(),
        ensures
            final(self).wf(),
            match r {
                Ok(c) => {
                    &&& names@.len() == old(self).nn()
                    &&& forall|k: int|
                        old(self).net_live(k) ==> (#[trigger] final(self).nets@[k].name)@
                            == names@[k]@
                    &&& forall|k: int|
                        0 <= k < old(self).nn() && !old(self).nets@[k].live ==> final(self).nets@[
                            k
                        ] == old(self).nets@[k]
                    &&& forall|k: int|
                        0 <= k < old(self).nn() ==> (#[trigger] final(self).nets@[k]).driver == old(
                            self,
                        ).nets@[k].driver && final(self).nets@[k].live == old(self).nets@[k].live
                    &&& final(self).nn() == old(self).nn()
                    &&& final(self).instances == old(self).instances
                    &&& final(self).outputs == old(self).outputs
                    &&& final(self).conns() == old(self).conns()
                    &&& final(self).names_ok()
                    &&& !old(self).rename_collision(views_of(names@))
                    &&& c == final(self).live_total()
                },
                Err(e) => {
                    &&& *final(self) == *old(self)
                    &&& (e == NetlistError::BadArity || e == NetlistError::NameCollision)
                    &&& (e == NetlistError::BadArity <==> names@.len() != old(self).nn())
                    &&& (e == NetlistError::NameCollision <==> (names@.len() == old(self).nn()
                        && old(self).rename_collision(views_of(names@))))
                },
            },
    {
        if names.len() != self.nets.len() {
            return Err(NetlistError::BadArity);
        }
        // no two live nets may take one name, and no live net may take a
        // live instance's name
        let mut k: usize = 0;
        while k < self.nets.len()
            invariant
                *self == *old(self),
                old(self).wf(),
                names@.len() == self.nets@.len(),
                k <= self.nets@.len(),
                forall|k1: int, k2: int|
                    0 <= k1 < k2 < k && self.net_live(k1) && self.net_live(k2) ==> (
                    #[trigger] names@[k1])@ != (#[trigger] names@[k2])@,
                forall|k1: int, u: int|
                    0 <= k1 < k && self.net_live(k1) && self.inst_live(u) ==> (#[trigger] names@[
                        k1
                    ])@ != (#[trigger] self.instances@[u].name)@,
            decreases self.nets@.len() - k,
        {
            if self.nets[k].live {
                let mut k2: usize = 0;
                while k2 < k
                    invariant
                        *self == *old(self),
                        old(self).wf(),
                        names@.len() == self.nets@.len(),
                        k2 <= k < self.nets@.len(),
                        self.net_live(k as int),
                        forall|t: int|
                            0 <= t < k2 && self.net_live(t) ==> (#[trigger] names@[t])@ != names@[
                                k as int
                            ]@,
                    decreases k - k2,
                {
                    if self.nets[k2].live && names[k2] == names[k] {
                        proof {
                            let nv = views_of(names@);
                            assert(nv[k2 as int] == names@[k2 as int]@);
                            assert(nv[k as int] == names@[k as int]@);
                            assert(self.rename_collision(nv));
                        }
                        return Err(NetlistError::NameCollision);
                    }
                    k2 += 1;
                }
                let mut u: usize = 0;
                while u < self.instances.len()
                    invariant
                        *self == *old(self),
                        old(self).wf(),
                        names@.len() == self.nets@.len(),
                        u <= self.instances@.len(),
                        k < self.nets@.len(),
                        self.net_live(k as int),
                        forall|t: int|
                            0 <= t < u && self.inst_live(t) ==> (#[trigger] self.instances@[
                                t
                            ].name)@ != names@[k as int]@,
                    decreases self.instances@.len() - u,
                {
                    if self.instances[u].live && self.instances[u].name == names[k] {
                        proof {
                            let nv = views_of(names@);
                            assert(nv[k as int] == names@[k as int]@);
                            assert(self.rename_collision(nv));
                        }
                        return Err(NetlistError::NameCollision);
                    }
                    u += 1;
                }
            }
            k += 1;
        }
        proof {
            assert(!self.rename_collision(views_of(names@))) by {
                let nv = views_of(names@);
                if exists|k1: int, k2: int|
                    0 <= k1 < k2 < self.nn() && self.net_live(k1) && self.net_live(k2)
                        && #[trigger] nv[k1] == #[trigger] nv[k2] {
                    let (k1, k2): (int, int) = choose|k1: int, k2: int|
                        0 <= k1 < k2 < self.nn() && self.net_live(k1) && self.net_live(k2)
                            && #[trigger] nv[k1] == #[trigger] nv[k2];
                    assert(nv[k1] == names@[k1]@ && nv[k2] == names@[k2]@);
                    assert(false);
                }
                if exists|kk: int, u: int|
                    self.net_live(kk) && self.inst_live(u) && (#[trigger] nv[kk]) == (
                    #[trigger] self.instances@[u].name)@ {
                    let (kk, u): (int, int) = choose|kk: int, u: int|
                        self.net_live(kk) && self.inst_live(u) && (#[trigger] nv[kk]) == (
                        #[trigger] self.instances@[u].name)@;
                    assert(nv[kk] == names@[kk]@);
                    assert(false);
                }
            }
        }
        // apply
        let ghost pre = *self;
        let mut k3: usize = 0;
        while k3 < self.nets.len()
            invariant
                pre == *old(self),
                old(self).wf(),
                names@.len() == pre.nets@.len(),
                self.nets@.len() == pre.nets@.len(),
                k3 <= self.nets@.len(),
                self.instances == pre.instances,
                self.outputs == pre.outputs,
                self.graph_cache == pre.graph_cache,
                self.scc_cache == pre.scc_cache,
                self.depth_cache == pre.depth_cache,
                forall|t: int|
                    0 <= t < k3 && pre.net_live(t) ==> (#[trigger] self.nets@[t].name)@ == names@[
                        t
                    ]@,
                forall|t: int|
                    0 <= t < pre.nn() && !pre.nets@[t].live ==> self.nets@[t] == pre.nets@[t],
                forall|t: int| k3 <= t < pre.nn() ==> self.nets@[t] == pre.nets@[t],
                forall|t: int|
                    0 <= t < pre.nn() ==> (#[trigger] self.nets@[t]).driver == pre.nets@[t].driver
                        && self.nets@[t].live == pre.nets@[t].live,
            decreases self.nets@.len() - k3,
        {
            if self.nets[k3].live {
                let nm = names[k3].clone();
                self.nets[k3].name = nm;
            }
            k3 += 1;
        }
        proof {
            assert forall|e: Edge| self.conn(e) <==> pre.conn(e) by {}
            assert(self.conns() =~= pre.conns());
            assert(self.live_flags() =~= pre.live_flags());
            assert(self.comb_flags() =~= pre.comb_flags());
            lemma_graph_arcs_congruent(*self, pre);
            self.lemma_caches_survive(pre);
            assert(self.arity_ok());
            assert(self.refs_ok());
            assert(self.names_ok());
            lemma_count_live_nets_congruent(self.nets@, pre.nets@);
        }
        Ok(self.len())
    }

    /// The live instances satisfying the caller's predicate, in arena
    /// (insertion) order. The result lists exactly the live instances on
    /// which the predicate returned true, each once, ascending.
    pub fn matches<F: Fn(&Instance) -> bool>(&self, pred: F) -> (r: Vec<usize>)
        requires
            forall|i: &Instance| #[trigger] call_requires(pred, (i,)),
        ensures
            forall|t: int|
                0 <= t < r@.len() ==> self.inst_live(#[trigger] r@[t] as int) && call_ensures(
                    pred,
                    (&self.instances@[r@[t] as int],),
                    true,
                ),
            forall|u: usize|
                self.inst_live(u as int) && !r@.contains(u) ==> call_ensures(
                    pred,
                    (&self.instances@[u as int],),
                    false,
                ),
            forall|t1: int, t2: int| 0 <= t1 < t2 < r@.len() ==> r@[t1] < r@[t2],
    {
        broadcast use vstd::seq_lib::group_seq_properties;

        let mut r: Vec<usize> = Vec::new();
        let mut u: usize = 0;
        while u < self.instances.len()
            invariant
                u <= self.instances@.len(),
                forall|i: &Instance| #[trigger] call_requires(pred, (i,)),
                forall|t: int|
                    0 <= t < r@.len() ==> self.inst_live(#[trigger] r@[t] as int) && call_ensures(
                        pred,
                        (&self.instances@[r@[t] as int],),
                        true,
                    ) && r@[t] < u,
                forall|w: usize|
                    w < u && self.inst_live(w as int) && !r@.contains(w) ==> call_ensures(
                        pred,
                        (&self.instances@[w as int],),
                        false,
                    ),
                forall|t1: int, t2: int| 0 <= t1 < t2 < r@.len() ==> r@[t1] < r@[t2],
            decreases self.instances@.len() - u,
        {
            if self.instances[u].live {
                if pred(&self.instances[u]) {
                    let ghost r0 = r@;
                    r.push(u);
                    proof {
                        assert(r@[r@.len() - 1] == u);
                        assert forall|x: usize| r0.contains(x) implies r@.contains(x) by {
                            let t = choose|t: int| 0 <= t < r0.len() && r0[t] == x;
                            assert(r@[t] == x);
                        }
                        assert forall|x: usize| r@.contains(x) && x != u implies r0.contains(
                            x,
                        ) by {
                            let t = choose|t: int| 0 <= t < r@.len() && r@[t] == x;
                            assert(r0[t] == x);
                        }
                    }
                } else {
                    proof {
                        assert(!r@.contains(u)) by {
                            if r@.contains(u) {
                                let t = choose|t: int| 0 <= t < r@.len() && r@[t] == u;
                            }
                        }
                    }
                }
            }
            u += 1;
        }
        r
    }

    /// The live sequential instances, in arena (insertion) order: the
    /// `matches` query instantiated with the sequential predicate.
    pub fn seq_instances(&self) -> (r: Vec<usize>)
        ensures
            forall|t: int|
                0 <= t < r@.len() ==> self.inst_live(#[trigger] r@[t] as int) && self.instances@[
                    r@[t] as int
                ].is_seq,
            forall|u: usize|
                self.inst_live(u as int) && self.instances@[u as int].is_seq ==> r@.contains(u),
            forall|t1: int, t2: int| 0 <= t1 < t2 < r@.len() ==> r@[t1] < r@[t2],
    {
        broadcast use vstd::seq_lib::group_seq_properties;

        let mut r: Vec<usize> = Vec::new();
        let mut u: usize = 0;
        while u < self.instances.len()
            invariant
                u <= self.instances@.len(),
                forall|t: int|
                    0 <= t < r@.len() ==> self.inst_live(#[trigger] r@[t] as int)
                        && self.instances@[r@[t] as int].is_seq && r@[t] < u,
                forall|w: usize|
                    w < u && self.inst_live(w as int) && self.instances@[w as int].is_seq
                        ==> r@.contains(w),
                forall|t1: int, t2: int| 0 <= t1 < t2 < r@.len() ==> r@[t1] < r@[t2],
            decreases self.instances@.len() - u,
        {
            if self.instances[u].live && self.instances[u].is_seq {
                let ghost r0 = r@;
                r.push(u);
                proof {
                    assert(r@[r@.len() - 1] == u);
                    assert forall|x: usize| r0.contains(x) implies r@.contains(x) by {
                        let t = choose|t: int| 0 <= t < r0.len() && r0[t] == x;
                        assert(r@[t] == x);
                    }
                }
            }
            u += 1;
        }
        r
    }

    /// Check every structural invariant of the store and report the first
    /// kind of violation found; `Ok` exactly when the structure is sound.
    pub fn verify(&self) -> (r: Result<(), NetlistError>)
        ensures
            r.is_ok() <==> self.struct_ok(),
    {
        // arities
        let mut u: usize = 0;
        while u < self.instances.len()
            invariant
                u <= self.instances@.len(),
                forall|t: int|
                    0 <= t < u ==> (#[trigger] self.instances@[t]).inputs@.len()
                        == self.instances@[t].input_names@.len(),
            decreases self.instances@.len() - u,
        {
            if self.instances[u].inputs.len() != self.instances[u].input_names.len() {
                proof {
                    assert(!self.struct_ok());
                }
                return Err(NetlistError::ArityMismatch);
            }
            u += 1;
        }
        // input references
        let mut u2: usize = 0;
        while u2 < self.instances.len()
            invariant
                u2 <= self.instances@.len(),
                forall|t: int, p: int|
                    0 <= t < u2 && self.inst_live(t) && 0 <= p < self.instances@[t].inputs@.len()
                        ==> match (#[trigger] self.instances@[t].inputs@[p]) {
                        Some(k) => self.net_live(k as int),
                        None => true,
                    },
            decreases self.instances@.len() - u2,
        {
            if self.instances[u2].live {
                let mut p: usize = 0;
                while p < self.instances[u2].inputs.len()
                    invariant
                        u2 < self.instances@.len(),
                        self.inst_live(u2 as int),
                        p <= self.instances@[u2 as int].inputs@.len(),
                        forall|q: int|
                            0 <= q < p ==> match (#[trigger] self.instances@[u2 as int].inputs@[
                                q
                            ]) {
                                Some(k) => self.net_live(k as int),
                                None => true,
                            },
                    decreases self.instances@[u2 as int].inputs@.len() - p,
                {
                    if let Some(k) = self.instances[u2].inputs[p] {
                        if k >= self.nets.len() || !self.nets[k].live {
                            proof {
                                assert(!self.struct_ok());
                            }
                            return Err(NetlistError::DanglingInput);
                        }
                    }
                    p += 1;
                }
            }
            u2 += 1;
        }
        // drivers
        let mut k: usize = 0;
        while k < self.nets.len()
            invariant
                k <= self.nets@.len(),
                forall|t: int|
                    0 <= t < k && self.net_live(t) ==> match (#[trigger] self.nets@[t].driver) {
                        Some(d) => self.inst_live(d.0 as int) && (d.1 as int) < self.instances@[
                            d.0 as int
                        ].output_names@.len(),
                        None => true,
                    },
            decreases self.nets@.len() - k,
        {
            if self.nets[k].live {
                if let Some(d) = self.nets[k].driver {
                    if d.0 >= self.instances.len() || !self.instances[d.0].live || d.1
                        >= self.instances[d.0].output_names.len() {
                        proof {
                            assert(!self.struct_ok());
                        }
                        return Err(NetlistError::BadDriver);
                    }
                }
            }
            k += 1;
        }
        // driver uniqueness
        let mut k1: usize = 0;
        while k1 < self.nets.len()
            invariant
                k1 <= self.nets@.len(),
                forall|t1: int, t2: int|
                    0 <= t1 < t2 < k1 && self.net_live(t1) && self.net_live(t2) && (
                    #[trigger] self.nets@[t1].driver).is_some() && (#[trigger] self.nets@[
                        t2
                    ].driver).is_some() ==> self.nets@[t1].driver != self.nets@[t2].driver,
            decreases self.nets@.len() - k1,
        {
            if self.nets[k1].live {
                if let Some(d1) = self.nets[k1].driver {
                    let mut k2: usize = 0;
                    while k2 < k1
                        invariant
                            k2 <= k1 < self.nets@.len(),
                            self.net_live(k1 as int),
                            self.nets@[k1 as int].driver == Some(d1),
                            forall|t: int|
                                0 <= t < k2 && self.net_live(t) && (#[trigger] self.nets@[
                                    t
                                ].driver).is_some() ==> self.nets@[t].driver != self.nets@[
                                    k1 as int
                                ].driver,
                        decreases k1 - k2,
                    {
                        if self.nets[k2].live {
                            if let Some(d2) = self.nets[k2].driver {
                                if d1.0 == d2.0 && d1.1 == d2.1 {
                                    proof {
                                        assert(!self.struct_ok());
                                    }
                                    return Err(NetlistError::DriverConflict);
                                }
                            }
                        }
                        k2 += 1;
                    }
                }
            }
            k1 += 1;
        }
        // outputs
        let mut o: usize = 0;
        while o < self.outputs.len()
            invariant
                o <= self.outputs@.len(),
                forall|t: int| 0 <= t < o ==> self.net_live(#[trigger] self.outputs@[t] as int),
            decreases self.outputs@.len() - o,
        {
            let kk = self.outputs[o];
            if kk >= self.nets.len() || !self.nets[kk].live {
                proof {
                    assert(!self.struct_ok());
                }
                return Err(NetlistError::BadOutput);
            }
            o += 1;
        }
        // name uniqueness
        let mut a: usize = 0;
        while a < self.instances.len()
            invariant
                a <= self.instances@.len(),
                forall|t1: int, t2: int|
                    0 <= t1 < t2 < a && self.instances@[t1].live && self.instances@[t2].live ==> (
                    #[trigger] self.instances@[t1].name)@ != (#[trigger] self.instances@[
                        t2
                    ].name)@,
                forall|t1: int, t2: int|
                    0 <= t1 < a && self.inst_live(t1) && self.net_live(t2) ==> (
                    #[trigger] self.instances@[t1].name)@ != (#[trigger] self.nets@[t2].name)@,
            decreases self.instances@.len() - a,
        {
            if self.instances[a].live {
                let mut b: usize = 0;
                while b < a
                    invariant
                        b <= a < self.instances@.len(),
                        self.inst_live(a as int),
                        forall|t: int|
                            0 <= t < b && self.instances@[t].live ==> (#[trigger] self.instances@[
                                t
                            ].name)@ != self.instances@[a as int].name@,
                    decreases a - b,
                {
                    if self.instances[b].live && self.instances[b].name == self.instances[a].name {
                        proof {
                            assert(!self.struct_ok());
                        }
                        return Err(NetlistError::NameCollision);
                    }
                    b += 1;
                }
                let mut c: usize = 0;
                while c < self.nets.len()
                    invariant
                        c <= self.nets@.len(),
                        a < self.instances@.len(),
                        self.inst_live(a as int),
                        forall|t: int|
                            0 <= t < c && self.net_live(t) ==> self.instances@[a as int].name@ != (
                            #[trigger] self.nets@[t].name)@,
                    decreases self.nets@.len() - c,
                {
                    if self.nets[c].live && self.nets[c].name == self.instances[a].name {
                        proof {
                            assert(!self.struct_ok());
                        }
                        return Err(NetlistError::NameCollision);
                    }
                    c += 1;
                }
            }
            a += 1;
        }
        let mut x: usize = 0;
        while x < self.nets.len()
            invariant
                x <= self.nets@.len(),
                forall|t1: int, t2: int|
                    0 <= t1 < t2 < x && self.nets@[t1].live && self.nets@[t2].live ==> (
                    #[trigger] self.nets@[t1].name)@ != (#[trigger] self.nets@[t2].name)@,
            decreases self.nets@.len() - x,
        {
            if self.nets[x].live {
                let mut y: usize = 0;
                while y < x
                    invariant
                        y <= x < self.nets@.len(),
                        self.net_live(x as int),
                        forall|t: int|
                            0 <= t < y && self.nets@[t].live ==> (#[trigger] self.nets@[t].name)@
                                != self.nets@[x as int].name@,
                    decreases x - y,
                {
                    if self.nets[y].live && self.nets[y].name == self.nets[x].name {
                        proof {
                            assert(!self.struct_ok());
                        }
                        return Err(NetlistError::NameCollision);
                    }
                    y += 1;
                }
            }
            x += 1;
        }
        Ok(())
    }
}

} // verus!


