//! The named operations of the pass pipeline.
//!
//! Each pass is a unit struct with a `run` method: it reads or mutates one
//! shared netlist store and returns a short textual report. What each run
//! guarantees is a named relation between the store before and after the
//! call (`dot_graph_post` and friends), which the dispatcher and the
//! pipeline restate per pass kind. The pipeline executes a caller-ordered
//! list of passes, verifying the store after the final pass and, on
//! request, after every pass; the first failure aborts the remaining
//! passes.

use vstd::prelude::*;
use vstd::string::*;
use crate::graph::{Edge, has_cycle};
use crate::fas::{greedy_feedback_arcs, greedy_arcs};
use crate::depth::depth_valid;
use crate::netlist::{Netlist, NetlistError, Removed, views_of};

verus! {

/// The character of one decimal digit.
pub open spec fn digit_str(d: int) -> Seq<char> {
    if d == 0 {
        "0"@
    } else if d == 1 {
        "1"@
    } else if d == 2 {
        "2"@
    } else if d == 3 {
        "3"@
    } else if d == 4 {
        "4"@
    } else if d == 5 {
        "5"@
    } else if d == 6 {
        "6"@
    } else if d == 7 {
        "7"@
    } else if d == 8 {
        "8"@
    } else {
        "9"@
    }
}

/// The decimal digits of a non-negative number, most significant first and
/// without leading zeroes.
pub open spec fn decimal_digits(n: int) -> Seq<char>
    decreases n,
{
    if n < 10 {
        digit_str(n)
    } else {
        decimal_digits(n / 10) + digit_str(n % 10)
    }
}

/// The decimal rendering of `n`.
pub open spec fn decimal_of(n: u64) -> Seq<char> {
    decimal_digits(n as int)
}

fn append_digit(s: &mut String, d: u64)
    requires
        d < 10,
    ensures
        final(s)@ == old(s)@ + digit_str(d as int),
{
    match d {
        0 => s.append("0"),
        1 => s.append("1"),
        2 => s.append("2"),
        3 => s.append("3"),
        4 => s.append("4"),
        5 => s.append("5"),
        6 => s.append("6"),
        7 => s.append("7"),
        8 => s.append("8"),
        _ => s.append("9"),
    }
}

fn push_decimal(s: &mut String, n: u64)
    ensures
        final(s)@ == old(s)@ + decimal_digits(n as int),
    decreases n,
{
    if n >= 10 {
        push_decimal(s, n / 10);
    }
    append_digit(s, n % 10);
    proof {
        if n >= 10 {
            assert(s@ =~= old(s)@ + decimal_digits(n as int));
        }
    }
}

fn u64_to_string(n: u64) -> (r: String)
    ensures
        r@ == decimal_of(n),
{
    let mut s = String::new();
    push_decimal(&mut s, n);
    proof {
        assert(s@ =~= decimal_of(n));
    }
    s
}

/// No filled analysis cache slot has been dropped: a pure pass must not
/// invalidate caches.
pub open spec fn caches_kept(pre: Netlist, post: Netlist) -> bool {
    &&& pre.graph_cache.is_some() ==> post.graph_cache == pre.graph_cache
    &&& pre.scc_cache.is_some() ==> post.scc_cache == pre.scc_cache
    &&& pre.depth_cache.is_some() ==> post.depth_cache == pre.depth_cache
}

/// Render the connectivity as a graph-description text. A convenience
/// export with no algorithmic content: one node line per live instance, one
/// arrow line per arc.
pub struct DotGraph;

/// Remove the objects no observable output depends on.
pub struct Clean;

/// Clear every sequential instance's input connections.
pub struct DisconnectRegisters;

/// Remove the connections of the greedy feedback arc set, leaving the
/// connectivity graph acyclic.
pub struct DisconnectArcSet;

/// Tag each instance that sources a feedback arc with a naming prefix.
pub struct MarkArcSet;

/// Rename every net to the fixed sequential pattern.
pub struct RenameNets;

/// Count the strongly connected components of the connectivity graph.
pub struct ReportSccs;

/// Report the maximum combinational depth, or its absence.
pub struct ReportDepth;

/// The node lines of the rendering: one quoted name per live instance, in
/// index order.
pub open spec fn dot_nodes(pre: Netlist, i: int) -> Seq<char>
    decreases i,
{
    if i <= 0 {
        Seq::empty()
    } else {
        dot_nodes(pre, i - 1) + if pre.inst_live(i - 1) {
            "  \""@ + pre.instances@[i - 1].name@ + "\";\n"@
        } else {
            Seq::<char>::empty()
        }
    }
}

/// The arc lines of the rendering: one arrow per listed arc, in list order.
pub open spec fn dot_arcs(pre: Netlist, es: Seq<Edge>, t: int) -> Seq<char>
    decreases t,
{
    if t <= 0 {
        Seq::empty()
    } else {
        dot_arcs(pre, es, t - 1) + "  \""@ + pre.instances@[es[t - 1].src as int].name@
            + "\" -> \""@ + pre.instances@[es[t - 1].dst as int].name@ + "\";\n"@
    }
}

/// What the dot-graph pass guarantees: the store untouched (caches kept)
/// and the full rendering of its connectivity, the arcs in the order of
/// some duplicate-free enumeration of the multigraph.
pub open spec fn dot_graph_post(pre: Netlist, post: Netlist, r: Result<
    String,
    NetlistError,
>) -> bool {
    &&& post.same_core(pre)
    &&& caches_kept(pre, post)
    &&& match r {
        Ok(s) => exists|es: Seq<Edge>|
            #![trigger es.to_set()]
            {
                &&& es.to_set() == pre.conns()
                &&& es.no_duplicates()
                &&& s@ == "digraph netlist {\n"@ + dot_nodes(pre, pre.ni()) + dot_arcs(
                    pre,
                    es,
                    es.len() as int,
                ) + "}\n"@
            },
        Err(_) => false,
    }
}

impl DotGraph {
    pub fn run(&self, nl: &mut Netlist) -> (r: Result<String, NetlistError>)
        requires
            old(nl).wf(),
        ensures
            final(nl).wf(),
            dot_graph_post(*old(nl), *final(nl), r),
    {
        let ghost pre = *old(nl);
        let es = nl.get_graph();
        let mut s = ("digraph netlist {\n").to_owned();
        let mut u: usize = 0;
        while u < nl.instances.len()
            invariant
                pre == *old(nl),
                pre.wf(),
                nl.wf(),
                nl.same_core(pre),
                u <= pre.ni(),
                nl.ni() == pre.ni(),
                s@ == "digraph netlist {\n"@ + dot_nodes(pre, u as int),
            decreases pre.ni() - u,
        {
            proof {
                assert(nl.instances@[u as int] == pre.instances@[u as int]);
            }
            if nl.instances[u].live {
                s.append("  \"");
                s.append(nl.instances[u].name.as_str());
                s.append("\";\n");
            }
            proof {
                assert(s@ =~= "digraph netlist {\n"@ + dot_nodes(pre, u + 1int));
            }
            u += 1;
        }
        let mut t: usize = 0;
        while t < es.len()
            invariant
                pre == *old(nl),
                pre.wf(),
                nl.wf(),
                nl.same_core(pre),
                nl.ni() == pre.ni(),
                t <= es@.len(),
                forall|j: int|
                    0 <= j < es@.len() ==> (#[trigger] es@[j]).src < pre.ni() && es@[j].dst
                        < pre.ni(),
                s@ == "digraph netlist {\n"@ + dot_nodes(pre, pre.ni()) + dot_arcs(
                    pre,
                    es@,
                    t as int,
                ),
            decreases es@.len() - t,
        {
            let e = es[t];
            proof {
                assert(nl.instances@[e.src as int] == pre.instances@[e.src as int]);
                assert(nl.instances@[e.dst as int] == pre.instances@[e.dst as int]);
            }
            s.append("  \"");
            s.append(nl.instances[e.src].name.as_str());
            s.append("\" -> \"");
            s.append(nl.instances[e.dst].name.as_str());
            s.append("\";\n");
            proof {
                assert(s@ =~= "digraph netlist {\n"@ + dot_nodes(pre, pre.ni()) + dot_arcs(
                    pre,
                    es@,
                    t + 1int,
                ));
            }
            t += 1;
        }
        s.append("}\n");
        proof {
            assert(s@ =~= "digraph netlist {\n"@ + dot_nodes(pre, pre.ni()) + dot_arcs(
                pre,
                es@,
                es@.len() as int,
            ) + "}\n"@);
            assert(es@.to_set() == pre.conns());
        }
        Ok(s)
    }
}

/// What a clean guarantees: exactly the objects outside the output cone
/// retired (and counted in the report), everything else byte-for-byte as it
/// was, or a `TooLarge` refusal exactly when the store cannot be
/// renumbered.
pub open spec fn clean_post(pre: Netlist, post: Netlist, r: Result<String, NetlistError>) -> bool {
    match r {
        Ok(s) => {
            &&& post.cleaned()
            &&& post.ni() == pre.ni()
            &&& post.nn() == pre.nn()
            &&& post.outputs == pre.outputs
            &&& forall|u: int|
                0 <= u < pre.ni() ==> {
                    let a = #[trigger] post.instances@[u];
                    let b = pre.instances@[u];
                    a.name == b.name && a.is_seq == b.is_seq && a.input_names == b.input_names
                        && a.inputs == b.inputs && a.output_names == b.output_names && (a.live == (
                    b.live && pre.in_cone(u)))
                }
            &&& forall|k: int|
                0 <= k < pre.nn() ==> {
                    let a = #[trigger] post.nets@[k];
                    let b = pre.nets@[k];
                    a.name == b.name && a.driver == b.driver && (a.live == (b.live && pre.in_cone(
                        pre.ni() + k,
                    )))
                }
            &&& exists|rem: Seq<Removed>|
                #![trigger rem.no_duplicates()]
                {
                    &&& rem.no_duplicates()
                    &&& (forall|u: usize|
                        rem.contains(Removed::Inst(u)) <==> (pre.inst_live(u as int)
                            && !pre.in_cone(u as int)))
                    &&& (forall|k: usize|
                        rem.contains(Removed::Net(k)) <==> (pre.net_live(k as int) && !pre.in_cone(
                            pre.ni() + k,
                        )))
                    &&& s@ == "Cleaned "@ + decimal_of(rem.len() as u64) + " objects. "@
                        + decimal_of(post.live_total() as u64) + " remain."@
                }
        },
        Err(e) => {
            &&& e == NetlistError::TooLarge
            &&& post == pre
            &&& pre.ni() + pre.nn() >= usize::MAX
        },
    }
}

impl Clean {
    pub fn run(&self, nl: &mut Netlist) -> (r: Result<String, NetlistError>)
        requires
            old(nl).wf(),
        ensures
            final(nl).wf(),
            clean_post(*old(nl), *final(nl), r),
    {
        let removed = match nl.clean() {
            Ok(v) => v,
            Err(e) => {
                return Err(e);
            },
        };
        let remain = nl.len();
        let mut s = ("Cleaned ").to_owned();
        s.append(u64_to_string(removed.len() as u64).as_str());
        s.append(" objects. ");
        s.append(u64_to_string(remain as u64).as_str());
        s.append(" remain.");
        proof {
            let rem = removed@;
            assert(remain == nl.live_total());
            assert((forall|u: usize|
                rem.contains(Removed::Inst(u)) <==> (old(nl).inst_live(u as int) && !old(
                    nl,
                ).in_cone(u as int))) && (forall|k: usize|
                rem.contains(Removed::Net(k)) <==> (old(nl).net_live(k as int) && !old(nl).in_cone(
                    old(nl).ni() + k,
                ))) && rem.no_duplicates() && s@ == "Cleaned "@ + decimal_of(rem.len() as u64)
                + " objects. "@ + decimal_of(nl.live_total() as u64) + " remain."@);
        }
        Ok(s)
    }
}

/// Instance `u` has at least one connected input.
pub open spec fn had_connection(nl: Netlist, u: int) -> bool {
    exists|p: int|
        0 <= p < nl.instances@[u].inputs@.len() && (#[trigger] nl.instances@[u].inputs@[
            p
        ]).is_some()
}

/// How many of the first `i` instances are live sequential instances with a
/// connected input.
pub open spec fn count_connected_regs(nl: Netlist, i: int) -> int
    decreases i,
{
    if i <= 0 {
        0
    } else {
        count_connected_regs(nl, i - 1) + if nl.inst_live(i - 1) && nl.instances@[i - 1].is_seq
            && had_connection(nl, i - 1) {
            1int
        } else {
            0int
        }
    }
}

/// What disconnecting the registers guarantees: every live sequential
/// instance ends with every input cleared, nothing else changes, and the
/// report counts the registers that actually had a connection.
pub open spec fn disconnect_registers_post(pre: Netlist, post: Netlist, r: Result<
    String,
    NetlistError,
>) -> bool {
    match r {
        Ok(s) => {
            &&& post.ni() == pre.ni()
            &&& post.nets == pre.nets
            &&& post.outputs == pre.outputs
            &&& forall|u: int|
                0 <= u < pre.ni() && !(pre.inst_live(u) && pre.instances@[u].is_seq)
                    ==> post.instances@[u] == pre.instances@[u]
            &&& forall|u: int, p: int|
                pre.inst_live(u) && pre.instances@[u].is_seq && 0 <= p < pre.instances@[
                    u
                ].inputs@.len() ==> (#[trigger] post.instances@[u].inputs@[p]).is_none()
            &&& forall|u: int|
                0 <= u < pre.ni() ==> {
                    let a = #[trigger] post.instances@[u];
                    let b = pre.instances@[u];
                    a.name == b.name && a.is_seq == b.is_seq && a.live == b.live && a.input_names
                        == b.input_names && a.output_names == b.output_names && a.inputs@.len()
                        == b.inputs@.len()
                }
            &&& s@ == "Disconnected "@ + decimal_of(count_connected_regs(pre, pre.ni()) as u64)
                + " registers"@
        },
        Err(_) => false,
    }
}

impl DisconnectRegisters {
    pub fn run(&self, nl: &mut Netlist) -> (r: Result<String, NetlistError>)
        requires
            old(nl).wf(),
        ensures
            final(nl).wf(),
            disconnect_registers_post(*old(nl), *final(nl), r),
    {
        let ghost pre = *old(nl);
        let mut count: usize = 0;
        let mut u: usize = 0;
        while u < nl.instances.len()
            invariant
                pre.wf(),
                nl.wf(),
                nl.ni() == pre.ni(),
                u <= pre.ni(),
                nl.nets == pre.nets,
                nl.outputs == pre.outputs,
                count == count_connected_regs(pre, u as int),
                count <= u,
                forall|t: int| u <= t < pre.ni() ==> nl.instances@[t] == pre.instances@[t],
                forall|t: int|
                    0 <= t < u && !(pre.inst_live(t) && pre.instances@[t].is_seq) ==> (
                    #[trigger] nl.instances@[t]) == pre.instances@[t],
                forall|t: int, p: int|
                    0 <= t < u && pre.inst_live(t) && pre.instances@[t].is_seq && 0 <= p
                        < pre.instances@[t].inputs@.len() ==> (#[trigger] nl.instances@[t].inputs@[
                        p
                    ]).is_none(),
                forall|t: int|
                    0 <= t < pre.ni() ==> {
                        let a = #[trigger] nl.instances@[t];
                        let b = pre.instances@[t];
                        a.name == b.name && a.is_seq == b.is_seq && a.live == b.live
                            && a.input_names == b.input_names && a.output_names == b.output_names
                            && a.inputs@.len() == b.inputs@.len()
                    },
            decreases pre.ni() - u,
        {
            if nl.instances[u].live && nl.instances[u].is_seq {
                let mut any = false;
                let mut p: usize = 0;
                let np = nl.instances[u].inputs.len();
                while p < np
                    invariant
                        pre.wf(),
                        nl.wf(),
                        nl.ni() == pre.ni(),
                        u < pre.ni(),
                        pre.inst_live(u as int),
                        pre.instances@[u as int].is_seq,
                        np == pre.instances@[u as int].inputs@.len(),
                        p <= np,
                        nl.nets == pre.nets,
                        nl.outputs == pre.outputs,
                        count == count_connected_regs(pre, u as int),
                        forall|t: int| u < t < pre.ni() ==> nl.instances@[t] == pre.instances@[t],
                        forall|t: int|
                            0 <= t < u && !(pre.inst_live(t) && pre.instances@[t].is_seq) ==> (
                            #[trigger] nl.instances@[t]) == pre.instances@[t],
                        forall|t: int, q2: int|
                            0 <= t < u && pre.inst_live(t) && pre.instances@[t].is_seq && 0 <= q2
                                < pre.instances@[t].inputs@.len() ==> (#[trigger] nl.instances@[
                                t
                            ].inputs@[q2]).is_none(),
                        forall|t: int|
                            0 <= t < pre.ni() ==> {
                                let a = #[trigger] nl.instances@[t];
                                let b = pre.instances@[t];
                                a.name == b.name && a.is_seq == b.is_seq && a.live == b.live
                                    && a.input_names == b.input_names && a.output_names
                                    == b.output_names && a.inputs@.len() == b.inputs@.len()
                            },
                        forall|q: int|
                            0 <= q < p ==> (#[trigger] nl.instances@[u as int].inputs@[
                                q
                            ]).is_none(),
                        forall|q: int|
                            p <= q < np ==> nl.instances@[u as int].inputs@[q] == pre.instances@[
                                u as int
                            ].inputs@[q],
                        any <==> (exists|q: int|
                            0 <= q < p && (#[trigger] pre.instances@[u as int].inputs@[
                                q
                            ]).is_some()),
                    decreases np - p,
                {
                    match nl.disconnect(u, p) {
                        Ok(prev) => {
                            if prev.is_some() {
                                any = true;
                                proof {
                                    assert(pre.instances@[u as int].inputs@[p as int].is_some());
                                }
                            } else {
                                proof {
                                    assert(!pre.instances@[u as int].inputs@[p as int].is_some());
                                }
                            }
                        },
                        Err(e) => {
                            proof {
                                assert(false);
                            }
                            return Err(e);
                        },
                    }
                    p += 1;
                }
                if any {
                    count += 1;
                    proof {
                        assert(had_connection(pre, u as int));
                    }
                } else {
                    proof {
                        assert(!had_connection(pre, u as int));
                    }
                }
            } else {
                proof {
                    assert(count_connected_regs(pre, u + 1int) == count_connected_regs(
                        pre,
                        u as int,
                    ));
                }
            }
            u += 1;
        }
        let mut s = ("Disconnected ").to_owned();
        s.append(u64_to_string(count as u64).as_str());
        s.append(" registers");
        Ok(s)
    }
}

/// Two arcs into one and the same input port are one and the same arc: the
/// port names one driving net, and the net one driving output.
proof fn lemma_conn_unique(nl: Netlist, a: Edge, b: Edge)
    requires
        nl.conn(a),
        nl.conn(b),
        a.dst == b.dst,
        a.dst_port == b.dst_port,
    ensures
        a == b,
{
}

/// The arcs of `base` whose target port is not among the first `j` entries
/// of `fs`.
pub open spec fn pruned(base: Netlist, fs: Seq<Edge>, j: int) -> Set<Edge> {
    Set::new(
        |x: Edge|
            base.conn(x) && !exists|t: int|
                0 <= t < j && (#[trigger] fs[t]).dst == x.dst && fs[t].dst_port == x.dst_port,
    )
}

/// What removing the feedback arc set guarantees: exactly the arcs of
/// [`greedy_arcs`] over the store's canonical arc enumeration leave — a
/// duplicate-free function of the store, so equal stores lose equal arc
/// sets — what remains is acyclic, and nothing else changes.
pub open spec fn disconnect_arc_set_post(pre: Netlist, post: Netlist, r: Result<
    String,
    NetlistError,
>) -> bool {
    match r {
        Ok(s) => {
            let fs = greedy_arcs(pre.graph_arcs(), pre.ni());
            &&& !has_cycle(post.conns())
            &&& post.ni() == pre.ni()
            &&& post.nets == pre.nets
            &&& post.outputs == pre.outputs
            &&& forall|u: int|
                0 <= u < pre.ni() ==> {
                    let a = #[trigger] post.instances@[u];
                    let b = pre.instances@[u];
                    a.name == b.name && a.is_seq == b.is_seq && a.live == b.live && a.input_names
                        == b.input_names && a.output_names == b.output_names && a.inputs@.len()
                        == b.inputs@.len()
                }
            &&& (forall|t: int| 0 <= t < fs.len() ==> pre.conns().contains(#[trigger] fs[t]))
            &&& fs.no_duplicates()
            &&& post.conns() == pre.conns().difference(fs.to_set())
            &&& s@ == "Disconnected "@ + decimal_of(fs.len() as u64) + " arcs"@
        },
        Err(_) => false,
    }
}

impl DisconnectArcSet {
    pub fn run(&self, nl: &mut Netlist) -> (r: Result<String, NetlistError>)
        requires
            old(nl).wf(),
        ensures
            final(nl).wf(),
            disconnect_arc_set_post(*old(nl), *final(nl), r),
    {
        broadcast use vstd::seq_lib::group_seq_properties;

        let ghost pre = *old(nl);
        let es = nl.get_graph();
        let n = nl.instances.len();
        proof {
            assert forall|t: int|
                0 <= t < es@.len() implies (#[trigger] es@[t]).src < n && es@[t].dst < n by {}
        }
        let fas = greedy_feedback_arcs(n, &es);
        proof {
            assert forall|t: int|
                0 <= t < fas@.len() implies pre.conns().contains(#[trigger] fas@[t]) by {
                assert(es@.to_set().contains(fas@[t]));
            }
            assert(fas@.no_duplicates());
            assert(es@ == pre.graph_arcs());
            assert(fas@ == greedy_arcs(pre.graph_arcs(), pre.ni()));
        }
        let mut i: usize = 0;
        while i < fas.len()
            invariant
                pre.wf(),
                nl.wf(),
                nl.ni() == pre.ni(),
                fas@ == greedy_arcs(pre.graph_arcs(), pre.ni()),
                i <= fas@.len(),
                nl.nets == pre.nets,
                nl.outputs == pre.outputs,
                forall|t: int|
                    0 <= t < fas@.len() ==> pre.conns().contains(#[trigger] fas@[t]),
                fas@.no_duplicates(),
                forall|u: int| nl.inst_live(u) <==> pre.inst_live(u),
                forall|u: int|
                    0 <= u < pre.ni() ==> {
                        let a = #[trigger] nl.instances@[u];
                        let b = pre.instances@[u];
                        a.name == b.name && a.is_seq == b.is_seq && a.live == b.live
                            && a.input_names == b.input_names && a.output_names == b.output_names
                            && a.inputs@.len() == b.inputs@.len()
                    },
                nl.conns() == pruned(pre, fas@, i as int),
            decreases fas@.len() - i,
        {
            let e = fas[i];
            let ghost mid = *nl;
            proof {
                assert(pre.conns().contains(fas@[i as int]));
                assert(pre.conn(e));
                assert(pre.inst_live(e.dst as int));
                assert(nl.inst_live(e.dst as int));
                assert((e.dst_port as int) < nl.instances@[e.dst as int].inputs@.len());
            }
            match nl.disconnect(e.dst, e.dst_port) {
                Ok(_) => {
                    proof {
                        assert forall|x: Edge|
                            nl.conn(x) <==> pruned(pre, fas@, i + 1int).contains(x) by {
                            if x.dst == e.dst && x.dst_port == e.dst_port {
                                assert(!nl.conn(x));
                                assert(fas@[i as int].dst == x.dst && fas@[i as int].dst_port
                                    == x.dst_port);
                            } else {
                                assert(nl.conn(x) <==> mid.conn(x));
                                assert(mid.conn(x) <==> pruned(pre, fas@, i as int).contains(x));
                            }
                        }
                        assert(nl.conns() =~= pruned(pre, fas@, i + 1int));
                    }
                },
                Err(er) => {
                    proof {
                        assert(false);
                    }
                    return Err(er);
                },
            }
            i += 1;
        }
        proof {
            assert(nl.conns() =~= pre.conns().difference(fas@.to_set())) by {
                assert forall|x: Edge|
                    pruned(pre, fas@, fas@.len() as int).contains(x) implies pre.conns().difference(
                    fas@.to_set(),
                ).contains(x) by {
                    if fas@.to_set().contains(x) {
                        let t = choose|t: int| 0 <= t < fas@.len() && fas@[t] == x;
                        assert(fas@[t].dst == x.dst && fas@[t].dst_port == x.dst_port);
                    }
                }
                assert forall|x: Edge|
                    pre.conns().difference(fas@.to_set()).contains(x) implies pruned(
                    pre,
                    fas@,
                    fas@.len() as int,
                ).contains(x) by {
                    if exists|t: int|
                        0 <= t < fas@.len() && (#[trigger] fas@[t]).dst == x.dst && fas@[
                            t
                        ].dst_port == x.dst_port {
                        let t = choose|t: int|
                            0 <= t < fas@.len() && (#[trigger] fas@[t]).dst == x.dst && fas@[
                                t
                            ].dst_port == x.dst_port;
                        assert(pre.conn(fas@[t]));
                        assert(pre.conn(x));
                        lemma_conn_unique(pre, x, fas@[t]);
                        assert(fas@.to_set().contains(x));
                    }
                }
            }
            assert(es@.to_set() == pre.conns());
            assert(!has_cycle(nl.conns()));
        }
        let mut s = ("Disconnected ").to_owned();
        s.append(u64_to_string(fas.len() as u64).as_str());
        s.append(" arcs");
        proof {
            let fs = greedy_arcs(pre.graph_arcs(), pre.ni());
            assert(fs == fas@);
            assert((forall|t: int|
                0 <= t < fs.len() ==> pre.conns().contains(#[trigger] fs[t])) && fs.no_duplicates()
                && nl.conns() == pre.conns().difference(fs.to_set()) && s@ == "Disconnected "@
                + decimal_of(fs.len() as u64) + " arcs"@);
        }
        Ok(s)
    }
}

/// `s` prefixed `n` times with the arc marker.
pub open spec fn arc_marked(n: nat, s: Seq<char>) -> Seq<char>
    decreases n,
{
    if n == 0 {
        s
    } else {
        "arc_"@ + arc_marked((n - 1) as nat, s)
    }
}

/// How many of the first `j` arcs of `fs` have source `u`.
pub open spec fn count_src(fs: Seq<Edge>, u: int, j: int) -> nat
    decreases j,
{
    if j <= 0 {
        0
    } else {
        count_src(fs, u, j - 1) + if fs[j - 1].src == u {
            1nat
        } else {
            0nat
        }
    }
}

/// What marking the feedback arc set guarantees: connectivity, liveness,
/// ports and sequentiality are untouched; on success every instance's name
/// is its old name prefixed once per reported arc it sources (so
/// non-sources keep their names); a failure is a genuine collision, with
/// the would-be marked name already carried by another live object.
pub open spec fn mark_arc_set_post(pre: Netlist, post: Netlist, r: Result<
    String,
    NetlistError,
>) -> bool {
    &&& post.conns() == pre.conns()
    &&& post.ni() == pre.ni()
    &&& post.nets == pre.nets
    &&& post.outputs == pre.outputs
    &&& forall|u: int|
        0 <= u < pre.ni() ==> {
            let a = #[trigger] post.instances@[u];
            let b = pre.instances@[u];
            a.is_seq == b.is_seq && a.live == b.live && a.input_names == b.input_names && a.inputs
                == b.inputs && a.output_names == b.output_names
        }
    &&& match r {
        Ok(s) => {
            let fs = greedy_arcs(pre.graph_arcs(), pre.ni());
            &&& (forall|t: int|
                0 <= t < fs.len() ==> pre.conns().contains(#[trigger] fs[t]))
            &&& fs.no_duplicates()
            &&& !has_cycle(pre.conns().difference(fs.to_set()))
            &&& (forall|u: int|
                0 <= u < pre.ni() ==> (#[trigger] post.instances@[u].name)@ == arc_marked(
                    count_src(fs, u, fs.len() as int),
                    pre.instances@[u].name@,
                ))
            &&& s@ == "Marked "@ + decimal_of(fs.len() as u64) + " arcs"@
        },
        Err(e) => {
            &&& e == NetlistError::NameCollision
            &&& exists|u: int|
                post.inst_live(u) && post.name_taken_by_other(
                    u,
                    "arc_"@ + (#[trigger] post.instances@[u].name)@,
                )
        },
    }
}

impl MarkArcSet {
    /// Prefix the name of each feedback-arc source with `arc_`, once per
    /// reported arc. A name collision aborts the pass with an error and may
    /// leave earlier marks in place; connectivity is never touched.
    pub fn run(&self, nl: &mut Netlist) -> (r: Result<String, NetlistError>)
        requires
            old(nl).wf(),
        ensures
            final(nl).wf(),
            mark_arc_set_post(*old(nl), *final(nl), r),
    {
        let ghost pre = *old(nl);
        let es = nl.get_graph();
        let n = nl.instances.len();
        proof {
            assert forall|t: int|
                0 <= t < es@.len() implies (#[trigger] es@[t]).src < n && es@[t].dst < n by {}
        }
        let fas = greedy_feedback_arcs(n, &es);
        proof {
            assert forall|t: int|
                0 <= t < fas@.len() implies pre.conns().contains(#[trigger] fas@[t]) by {
                assert(es@.to_set().contains(fas@[t]));
            }
            assert(!has_cycle(pre.conns().difference(fas@.to_set())));
            assert(fas@.no_duplicates());
            assert(es@ == pre.graph_arcs());
            assert(fas@ == greedy_arcs(pre.graph_arcs(), pre.ni()));
        }
        let mut i: usize = 0;
        while i < fas.len()
            invariant
                pre == *old(nl),
                fas@ == greedy_arcs(pre.graph_arcs(), pre.ni()),
                pre.wf(),
                nl.wf(),
                nl.ni() == pre.ni(),
                i <= fas@.len(),
                nl.nets == pre.nets,
                nl.outputs == pre.outputs,
                forall|t: int|
                    0 <= t < fas@.len() ==> pre.conns().contains(#[trigger] fas@[t]),
                fas@.no_duplicates(),
                !has_cycle(pre.conns().difference(fas@.to_set())),
                forall|u: int| nl.inst_live(u) <==> pre.inst_live(u),
                nl.conns() == pre.conns(),
                forall|u: int|
                    0 <= u < pre.ni() ==> {
                        let a = #[trigger] nl.instances@[u];
                        let b = pre.instances@[u];
                        a.is_seq == b.is_seq && a.live == b.live && a.input_names == b.input_names
                            && a.inputs == b.inputs && a.output_names == b.output_names
                    },
                forall|u: int|
                    0 <= u < pre.ni() ==> (#[trigger] nl.instances@[u].name)@ == arc_marked(
                        count_src(fas@, u, i as int),
                        pre.instances@[u].name@,
                    ),
            decreases fas@.len() - i,
        {
            let e = fas[i];
            proof {
                assert(pre.conns().contains(fas@[i as int]));
                assert(pre.conn(e));
                assert(pre.inst_live(e.src as int));
            }
            if !nl.instances[e.src].live {
                proof {
                    assert(false);
                }
                return Err(NetlistError::MissingObject);
            }
            let base = nl.instances[e.src].name.clone();
            let mut nm = ("arc_").to_owned();
            nm.append(base.as_str());
            let ghost mid = *nl;
            proof {
                assert(nm@ == "arc_"@ + mid.instances@[e.src as int].name@);
            }
            match nl.set_instance_name(e.src, nm) {
                Ok(_) => {
                    proof {
                        assert(nl.conns() == mid.conns());
                        assert forall|u: int| nl.inst_live(u) <==> mid.inst_live(u) by {}
                        assert forall|u: int|
                            0 <= u < pre.ni() implies (#[trigger] nl.instances@[u].name)@
                            == arc_marked(
                            count_src(fas@, u, i + 1int),
                            pre.instances@[u].name@,
                        ) by {
                            if u == e.src as int {
                                assert(nl.instances@[u].name@ == "arc_"@ + arc_marked(
                                    count_src(fas@, u, i as int),
                                    pre.instances@[u].name@,
                                ));
                                assert(count_src(fas@, u, i + 1int) == count_src(fas@, u, i as int)
                                    + 1);
                            } else {
                                assert(nl.instances@[u] == mid.instances@[u]);
                                assert(count_src(fas@, u, i + 1int) == count_src(
                                    fas@,
                                    u,
                                    i as int,
                                ));
                            }
                        }
                    }
                },
                Err(er) => {
                    proof {
                        assert(*nl == mid);
                        assert(er == NetlistError::NameCollision);
                        assert(mid.inst_live(e.src as int));
                        assert(mid.name_taken_by_other(e.src as int, nm@));
                        assert(nl.conns() == pre.conns());
                        assert forall|u: int| nl.inst_live(u) <==> pre.inst_live(u) by {
                            assert(mid.inst_live(u) <==> pre.inst_live(u));
                        }
                    }
                    return Err(NetlistError::NameCollision);
                },
            }
            i += 1;
        }
        let mut s = ("Marked ").to_owned();
        s.append(u64_to_string(i as u64).as_str());
        s.append(" arcs");
        proof {
            let fs = greedy_arcs(pre.graph_arcs(), pre.ni());
            assert(fs == fas@);
            assert(s@ == "Marked "@ + decimal_of(fs.len() as u64) + " arcs"@);
        }
        Ok(s)
    }
}

/// The fixed sequential renaming: slot `k` takes `__<k>__`.
pub open spec fn rename_pattern(nn: int) -> Seq<Seq<char>> {
    Seq::new(nn as nat, |k: int| "__"@ + decimal_of(k as u64) + "__"@)
}

/// What the sequential rename guarantees: only net names change, every live
/// net takes its slot's pattern name, all live names end up pairwise
/// distinct, and a failure happens exactly when the pattern would collide.
pub open spec fn rename_nets_post(pre: Netlist, post: Netlist, r: Result<
    String,
    NetlistError,
>) -> bool {
    &&& post.conns() == pre.conns()
    &&& match r {
        Ok(s) => {
            &&& post.names_ok()
            &&& post.instances == pre.instances
            &&& post.outputs == pre.outputs
            &&& post.nn() == pre.nn()
            &&& forall|k: int|
                0 <= k < pre.nn() ==> (#[trigger] post.nets@[k]).driver == pre.nets@[k].driver
                    && post.nets@[k].live == pre.nets@[k].live
            &&& forall|k: int|
                0 <= k < pre.nn() && !pre.nets@[k].live ==> post.nets@[k] == pre.nets@[k]
            &&& forall|k: int|
                pre.net_live(k) ==> (#[trigger] post.nets@[k].name)@ == "__"@ + decimal_of(
                    k as u64,
                ) + "__"@
            &&& !pre.rename_collision(rename_pattern(pre.nn()))
            &&& s@ == "Renamed "@ + decimal_of(post.live_total() as u64) + " cells"@
        },
        Err(e) => {
            &&& e == NetlistError::NameCollision
            &&& post == pre
            &&& pre.rename_collision(rename_pattern(pre.nn()))
        },
    }
}

impl RenameNets {
    /// Rename every net to `__<index>__`. Distinct indices render as
    /// distinct digit strings, which the collision check confirms at run
    /// time, so a successful rename leaves all live names pairwise distinct.
    pub fn run(&self, nl: &mut Netlist) -> (r: Result<String, NetlistError>)
        requires
            old(nl).wf(),
        ensures
            final(nl).wf(),
            rename_nets_post(*old(nl), *final(nl), r),
    {
        let mut names: Vec<String> = Vec::new();
        let mut k: usize = 0;
        let nn = nl.nets.len();
        while k < nn
            invariant
                k <= nn,
                names@.len() == k,
                forall|t: int|
                    0 <= t < k ==> (#[trigger] names@[t])@ == "__"@ + decimal_of(t as u64) + "__"@,
            decreases nn - k,
        {
            let mut nm = ("__").to_owned();
            nm.append(u64_to_string(k as u64).as_str());
            nm.append("__");
            names.push(nm);
            k += 1;
        }
        proof {
            assert(views_of(names@) =~= rename_pattern(nl.nn())) by {
                assert forall|t: int| 0 <= t < nn implies views_of(names@)[t] == rename_pattern(
                    nl.nn(),
                )[t] by {
                    assert(views_of(names@)[t] == names@[t]@);
                }
            }
        }
        match nl.rename_nets(&names) {
            Ok(c) => {
                let mut s = ("Renamed ").to_owned();
                s.append(u64_to_string(c as u64).as_str());
                s.append(" cells");
                proof {
                    assert(c == nl.live_total());
                    assert(s@ == "Renamed "@ + decimal_of(nl.live_total() as u64) + " cells"@);
                }
                Ok(s)
            },
            Err(e) => {
                proof {
                    assert(e == NetlistError::NameCollision);
                    assert(old(nl).rename_collision(rename_pattern(old(nl).nn())));
                }
                Err(NetlistError::NameCollision)
            },
        }
    }
}

/// What the component report guarantees: the store untouched (caches kept)
/// and counts that match a valid partition of its multigraph.
pub open spec fn report_sccs_post(pre: Netlist, post: Netlist, r: Result<
    String,
    NetlistError,
>) -> bool {
    &&& post.same_core(pre)
    &&& caches_kept(pre, post)
    &&& match r {
        Ok(s) => exists|nt: usize, tot: usize|
            {
                &&& pre.scc_counts_ok(nt as int, tot as int)
                &&& s@ == "Netlist contains "@ + decimal_of(nt as u64)
                    + " non-trivial strongly connected components ("@ + decimal_of(tot as u64)
                    + " total)"@
            },
        Err(_) => false,
    }
}

impl ReportSccs {
    pub fn run(&self, nl: &mut Netlist) -> (r: Result<String, NetlistError>)
        requires
            old(nl).wf(),
        ensures
            final(nl).wf(),
            report_sccs_post(*old(nl), *final(nl), r),
    {
        let (nt, tot) = nl.get_scc_counts();
        let mut s = ("Netlist contains ").to_owned();
        s.append(u64_to_string(nt as u64).as_str());
        s.append(" non-trivial strongly connected components (");
        s.append(u64_to_string(tot as u64).as_str());
        s.append(" total)");
        proof {
            assert(s@ == "Netlist contains "@ + decimal_of(nt as u64)
                + " non-trivial strongly connected components ("@ + decimal_of(tot as u64)
                + " total)"@);
        }
        Ok(s)
    }
}

/// What the depth report guarantees: the store untouched (caches kept) and
/// a report of the exact maximum combinational depth, or of its absence
/// exactly when a combinational cycle exists.
pub open spec fn report_depth_post(pre: Netlist, post: Netlist, r: Result<
    String,
    NetlistError,
>) -> bool {
    &&& post.same_core(pre)
    &&& caches_kept(pre, post)
    &&& match r {
        Ok(s) => exists|d: Option<usize>|
            {
                &&& depth_valid(pre.conns(), pre.comb_flags(), d)
                &&& match d {
                    Some(v) => s@ == "Maximum combinational depth: "@ + decimal_of(v as u64),
                    None => s@ == "Maximum combinational depth: undefined"@,
                }
            },
        Err(_) => false,
    }
}

impl ReportDepth {
    pub fn run(&self, nl: &mut Netlist) -> (r: Result<String, NetlistError>)
        requires
            old(nl).wf(),
        ensures
            final(nl).wf(),
            report_depth_post(*old(nl), *final(nl), r),
    {
        let d = nl.get_max_depth();
        match d {
            Some(v) => {
                let mut s = ("Maximum combinational depth: ").to_owned();
                s.append(u64_to_string(v as u64).as_str());
                proof {
                    assert(s@ == "Maximum combinational depth: "@ + decimal_of(v as u64));
                }
                Ok(s)
            },
            None => {
                let s = ("Maximum combinational depth: undefined").to_owned();
                Ok(s)
            },
        }
    }
}

impl Netlist {
    /// Textual graph-description rendering: the store operation behind the
    /// dot-graph pass, a convenience export with no algorithmic content.
    pub fn dot_string(&mut self) -> (r: Result<String, NetlistError>)
        requires
            old(self).wf(),
        ensures
            final(self).wf(),
            dot_graph_post(*old(self), *final(self), r),
    {
        DotGraph.run(self)
    }
}

/// One named pass of the closed pass set.
#[derive(Clone, Copy, PartialEq, Eq, Structural, Debug)]
pub enum PassKind {
    DotGraph,
    Clean,
    DisconnectRegisters,
    DisconnectArcSet,
    MarkArcSet,
    RenameNets,
    ReportSccs,
    ReportDepth,
}

/// The guarantee of one pass of the given kind, relating the store before
/// and after the run to its result.
pub open spec fn pass_post(kind: PassKind, pre: Netlist, post: Netlist, r: Result<
    String,
    NetlistError,
>) -> bool {
    match kind {
        PassKind::DotGraph => dot_graph_post(pre, post, r),
        PassKind::Clean => clean_post(pre, post, r),
        PassKind::DisconnectRegisters => disconnect_registers_post(pre, post, r),
        PassKind::DisconnectArcSet => disconnect_arc_set_post(pre, post, r),
        PassKind::MarkArcSet => mark_arc_set_post(pre, post, r),
        PassKind::RenameNets => rename_nets_post(pre, post, r),
        PassKind::ReportSccs => report_sccs_post(pre, post, r),
        PassKind::ReportDepth => report_depth_post(pre, post, r),
    }
}

/// Dispatch one pass by its kind.
pub fn run_pass(kind: PassKind, nl: &mut Netlist) -> (r: Result<String, NetlistError>)
    requires
        old(nl).wf(),
    ensures
        final(nl).wf(),
        pass_post(kind, *old(nl), *final(nl), r),
{
    match kind {
        PassKind::DotGraph => DotGraph.run(nl),
        PassKind::Clean => Clean.run(nl),
        PassKind::DisconnectRegisters => DisconnectRegisters.run(nl),
        PassKind::DisconnectArcSet => DisconnectArcSet.run(nl),
        PassKind::MarkArcSet => MarkArcSet.run(nl),
        PassKind::RenameNets => RenameNets.run(nl),
        PassKind::ReportSccs => ReportSccs.run(nl),
        PassKind::ReportDepth => ReportDepth.run(nl),
    }
}

/// Execute the passes in the caller's order against one shared store.
///
/// Every pass sees the cumulative effect of the passes before it. The store
/// is verified after the last pass, and after every pass when
/// `verify_each` is set; the first pass failure aborts the remaining
/// passes. On success the reports come back in order, and some chain of
/// intermediate stores links each report to its pass's guarantee; a failure
/// is always a pass's own conditioned failure, reached from some
/// well-formed intermediate store.
pub fn run_pipeline(nl: &mut Netlist, passes: &Vec<PassKind>, verify_each: bool) -> (r: Result<
    Vec<String>,
    NetlistError,
>)
    requires
        old(nl).wf(),
    ensures
        final(nl).wf(),
        match r {
            Ok(reports) => {
                &&& reports@.len() == passes@.len()
                &&& final(nl).struct_ok()
                &&& exists|hist: Seq<Netlist>|
                    #![trigger hist.len()]
                    {
                        &&& hist.len() == passes@.len() + 1
                        &&& hist[0] == *old(nl)
                        &&& hist[passes@.len() as int] == *final(nl)
                        &&& forall|t: int|
                            0 <= t < passes@.len() ==> pass_post(
                                passes@[t],
                                hist[t],
                                #[trigger] hist[t + 1],
                                Ok(reports@[t]),
                            )
                    }
            },
            Err(e) => exists|t: int, mid: Netlist|
                0 <= t < passes@.len() && mid.wf() && #[trigger] pass_post(
                    passes@[t],
                    mid,
                    *final(nl),
                    Err(e),
                ),
        },
{
    let mut reports: Vec<String> = Vec::new();
    let ghost mut hist: Seq<Netlist> = Seq::empty().push(*old(nl));
    let mut i: usize = 0;
    while i < passes.len()
        invariant
            nl.wf(),
            i <= passes@.len(),
            reports@.len() == i,
            hist.len() == i + 1,
            hist[0] == *old(nl),
            hist[i as int] == *nl,
            forall|t: int|
                0 <= t < i ==> pass_post(passes@[t], hist[t], #[trigger] hist[t + 1], Ok(
                    reports@[t],
                )),
        decreases passes@.len() - i,
    {
        let ghost st = *nl;
        let report = match run_pass(passes[i], nl) {
            Ok(s) => s,
            Err(e) => {
                proof {
                    assert(st.wf());
                    assert(pass_post(passes@[i as int], st, *nl, Err(e)));
                }
                return Err(e);
            },
        };
        let last = i + 1 == passes.len();
        if last || verify_each {
            match nl.verify() {
                Ok(_) => {},
                Err(e) => {
                    // a well-formed store always passes its own verification
                    proof {
                        assert(false);
                    }
                    return Err(e);
                },
            }
        }
        reports.push(report);
        proof {
            hist = hist.push(*nl);
            assert(hist[i + 1int] == *nl);
            assert forall|t: int|
                0 <= t < i + 1 implies pass_post(passes@[t], hist[t], #[trigger] hist[t + 1], Ok(
                reports@[t],
            )) by {
                if t < i {
                    assert(hist[t] == hist.drop_last()[t]);
                    assert(hist[t + 1] == hist.drop_last()[t + 1]);
                    assert(reports@[t] == reports@.subrange(0, i as int)[t]);
                } else {
                    assert(pass_post(passes@[t], st, *nl, Ok(report)));
                }
            }
        }
        i += 1;
    }
    proof {
        assert(hist.len() == passes@.len() + 1);
    }
    Ok(reports)
}

} // verus!
