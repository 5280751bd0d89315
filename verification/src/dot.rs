//! Rendering the dependency graph in the DOT textual format: a `digraph`
//! block holding the clusters as `subgraph` sub-blocks, one labeled node
//! declaration per file node, and one edge line per justifying symbol (or a
//! single unlabeled line for an edge whose justification list is empty).
//! The output is specified byte for byte, and iteration follows the stored
//! order, so one run's output is deterministic.

use crate::graph::{clusters_view, edges_view, nodes_view, ClusterV, EdgeV, Graph, NodeV};
use crate::table::StringTable;
use vstd::prelude::*;

verus! {

/// Decimal digits of `n`, most significant first.
pub open spec fn dec_rep(n: nat) -> Seq<u8>
    decreases n,
{
    if n < 10 {
        seq![(48 + n) as u8]
    } else {
        dec_rep(n / 10).push((48 + n % 10) as u8)
    }
}

pub open spec fn lit_digraph() -> Seq<u8> {
    seq![100u8, 105u8, 103u8, 114u8, 97u8, 112u8, 104u8, 32u8]
}

pub open spec fn lit_open() -> Seq<u8> {
    seq![32u8, 123u8, 10u8]
}

pub open spec fn lit_subgraph() -> Seq<u8> {
    seq![32u8, 32u8, 32u8, 32u8, 115u8, 117u8, 98u8, 103u8, 114u8, 97u8, 112u8, 104u8]
}

pub open spec fn lit_node8() -> Seq<u8> {
    seq![32u8, 32u8, 32u8, 32u8, 32u8, 32u8, 32u8, 32u8, 110u8]
}

pub open spec fn lit_node4() -> Seq<u8> {
    seq![32u8, 32u8, 32u8, 32u8, 110u8]
}

pub open spec fn lit_label() -> Seq<u8> {
    seq![32u8, 91u8, 108u8, 97u8, 98u8, 101u8, 108u8, 61u8, 34u8]
}

pub open spec fn lit_label_end() -> Seq<u8> {
    seq![34u8, 93u8, 10u8]
}

pub open spec fn lit_arrow() -> Seq<u8> {
    seq![32u8, 45u8, 62u8, 32u8, 110u8]
}

pub open spec fn lit_close4() -> Seq<u8> {
    seq![32u8, 32u8, 32u8, 32u8, 125u8, 10u8]
}

pub open spec fn lit_close() -> Seq<u8> {
    seq![125u8, 10u8]
}

/// A node declaration inside a cluster: labeled when the id resolves.
pub open spec fn cluster_node_line(t: Seq<Seq<u8>>, id: usize) -> Seq<u8> {
    if (id as int) < t.len() {
        lit_node8() + dec_rep(id as nat) + lit_label() + t[id as int] + lit_label_end()
    } else {
        lit_node8() + dec_rep(id as nat) + seq![10u8]
    }
}

pub open spec fn cluster_nodes_out(t: Seq<Seq<u8>>, ids: Seq<usize>) -> Seq<u8>
    decreases ids.len(),
{
    if ids.len() == 0 {
        Seq::empty()
    } else {
        cluster_nodes_out(t, ids.drop_last()) + cluster_node_line(t, ids.last())
    }
}

/// One whole `subgraph` block: named when its name id resolves.
pub open spec fn cluster_out(t: Seq<Seq<u8>>, c: ClusterV) -> Seq<u8> {
    (if (c.name as int) < t.len() {
        lit_subgraph() + seq![32u8] + t[c.name as int] + lit_open()
    } else {
        lit_subgraph() + lit_open()
    }) + cluster_nodes_out(t, c.nodes) + lit_close4()
}

pub open spec fn clusters_out(t: Seq<Seq<u8>>, cs: Seq<ClusterV>) -> Seq<u8>
    decreases cs.len(),
{
    if cs.len() == 0 {
        Seq::empty()
    } else {
        clusters_out(t, cs.drop_last()) + cluster_out(t, cs.last())
    }
}

/// A top-level node declaration; a node whose id does not resolve is skipped.
pub open spec fn node_line(t: Seq<Seq<u8>>, id: usize) -> Seq<u8> {
    if (id as int) < t.len() {
        lit_node4() + dec_rep(id as nat) + lit_label() + t[id as int] + lit_label_end()
    } else {
        Seq::empty()
    }
}

pub open spec fn nodes_out(t: Seq<Seq<u8>>, ns: Seq<NodeV>) -> Seq<u8>
    decreases ns.len(),
{
    if ns.len() == 0 {
        Seq::empty()
    } else {
        nodes_out(t, ns.drop_last()) + node_line(t, ns.last().id)
    }
}

/// One labeled edge line per justifying symbol; a symbol id that does not
/// resolve is skipped.
pub open spec fn edge_sym_line(t: Seq<Seq<u8>>, src: usize, dst: usize, sym: usize) -> Seq<u8> {
    if (sym as int) < t.len() {
        lit_node4() + dec_rep(src as nat) + lit_arrow() + dec_rep(dst as nat) + lit_label() + t[sym as int]
            + lit_label_end()
    } else {
        Seq::empty()
    }
}

pub open spec fn edge_syms_out(t: Seq<Seq<u8>>, src: usize, dst: usize, syms: Seq<usize>) -> Seq<u8>
    decreases syms.len(),
{
    if syms.len() == 0 {
        Seq::empty()
    } else {
        edge_syms_out(t, src, dst, syms.drop_last()) + edge_sym_line(t, src, dst, syms.last())
    }
}

/// One edge: a single unlabeled line when its justification list is empty,
/// otherwise one labeled line per symbol in it.
pub open spec fn edge_out(t: Seq<Seq<u8>>, e: EdgeV) -> Seq<u8> {
    if e.syms.len() == 0 {
        lit_node4() + dec_rep(e.src as nat) + lit_arrow() + dec_rep(e.dst as nat) + seq![10u8]
    } else {
        edge_syms_out(t, e.src, e.dst, e.syms)
    }
}

pub open spec fn edges_out(t: Seq<Seq<u8>>, es: Seq<EdgeV>) -> Seq<u8>
    decreases es.len(),
{
    if es.len() == 0 {
        Seq::empty()
    } else {
        edges_out(t, es.drop_last()) + edge_out(t, es.last())
    }
}

/// The whole DOT document for a graph state.
pub open spec fn dot_spec(g: crate::graph::GraphV) -> Seq<u8> {
    lit_digraph() + g.name + lit_open() + clusters_out(g.table, g.clusters) + nodes_out(
        g.table,
        g.nodes,
    ) + edges_out(g.table, g.edges) + lit_close()
}

/// Append the decimal digits of `n`.
fn push_decimal(out: &mut Vec<u8>, n: usize)
    ensures
        final(out)@ == old(out)@ + dec_rep(n as nat),
    decreases n,
{
    if n < 10 {
        out.push((48 + n) as u8);
        proof {
            assert(out@ =~= old(out)@ + dec_rep(n as nat));
        }
    } else {
        push_decimal(out, n / 10);
        out.push((48 + n % 10) as u8);
        proof {
            assert(out@ =~= old(out)@ + dec_rep(n as nat));
        }
    }
}

/// Append a byte string.
fn push_bytes(out: &mut Vec<u8>, s: &Vec<u8>)
    ensures
        final(out)@ == old(out)@ + s@,
{
    let mut i: usize = 0;
    while i < s.len()
        invariant
            i <= s.len(),
            out@ == old(out)@ + s@.subrange(0, i as int),
        decreases s.len() - i,
    {
        out.push(s[i]);
        proof {
            assert(out@ =~= old(out)@ + s@.subrange(0, i + 1));
        }
        i += 1;
    }
    proof {
        assert(out@ =~= old(out)@ + s@);
    }
}

fn push_lit_digraph(out: &mut Vec<u8>)
    ensures
        final(out)@ == old(out)@ + lit_digraph(),
{
    out.push(100);
    out.push(105);
    out.push(103);
    out.push(114);
    out.push(97);
    out.push(112);
    out.push(104);
    out.push(32);
    proof {
        assert(out@ =~= old(out)@ + lit_digraph());
    }
}

fn push_lit_open(out: &mut Vec<u8>)
    ensures
        final(out)@ == old(out)@ + lit_open(),
{
    out.push(32);
    out.push(123);
    out.push(10);
    proof {
        assert(out@ =~= old(out)@ + lit_open());
    }
}

fn push_lit_subgraph(out: &mut Vec<u8>)
    ensures
        final(out)@ == old(out)@ + lit_subgraph(),
{
    out.push(32);
    out.push(32);
    out.push(32);
    out.push(32);
    out.push(115);
    out.push(117);
    out.push(98);
    out.push(103);
    out.push(114);
    out.push(97);
    out.push(112);
    out.push(104);
    proof {
        assert(out@ =~= old(out)@ + lit_subgraph());
    }
}

fn push_lit_node8(out: &mut Vec<u8>)
    ensures
        final(out)@ == old(out)@ + lit_node8(),
{
    out.push(32);
    out.push(32);
    out.push(32);
    out.push(32);
    out.push(32);
    out.push(32);
    out.push(32);
    out.push(32);
    out.push(110);
    proof {
        assert(out@ =~= old(out)@ + lit_node8());
    }
}

fn push_lit_node4(out: &mut Vec<u8>)
    ensures
        final(out)@ == old(out)@ + lit_node4(),
{
    out.push(32);
    out.push(32);
    out.push(32);
    out.push(32);
    out.push(110);
    proof {
        assert(out@ =~= old(out)@ + lit_node4());
    }
}

fn push_lit_label(out: &mut Vec<u8>)
    ensures
        final(out)@ == old(out)@ + lit_label(),
{
    out.push(32);
    out.push(91);
    out.push(108);
    out.push(97);
    out.push(98);
    out.push(101);
    out.push(108);
    out.push(61);
    out.push(34);
    proof {
        assert(out@ =~= old(out)@ + lit_label());
    }
}

fn push_lit_label_end(out: &mut Vec<u8>)
    ensures
        final(out)@ == old(out)@ + lit_label_end(),
{
    out.push(34);
    out.push(93);
    out.push(10);
    proof {
        assert(out@ =~= old(out)@ + lit_label_end());
    }
}

fn push_lit_arrow(out: &mut Vec<u8>)
    ensures
        final(out)@ == old(out)@ + lit_arrow(),
{
    out.push(32);
    out.push(45);
    out.push(62);
    out.push(32);
    out.push(110);
    proof {
        assert(out@ =~= old(out)@ + lit_arrow());
    }
}

fn push_lit_close4(out: &mut Vec<u8>)
    ensures
        final(out)@ == old(out)@ + lit_close4(),
{
    out.push(32);
    out.push(32);
    out.push(32);
    out.push(32);
    out.push(125);
    out.push(10);
    proof {
        assert(out@ =~= old(out)@ + lit_close4());
    }
}

fn push_lit_close(out: &mut Vec<u8>)
    ensures
        final(out)@ == old(out)@ + lit_close(),
{
    out.push(125);
    out.push(10);
    proof {
        assert(out@ =~= old(out)@ + lit_close());
    }
}

/// Append one in-cluster node declaration.
fn push_cluster_node_line(out: &mut Vec<u8>, strings: &StringTable, id: usize)
    ensures
        final(out)@ == old(out)@ + cluster_node_line(strings@, id),
{
    push_lit_node8(out);
    push_decimal(out, id);
    match strings.resolve(id) {
        Some(label) => {
            push_lit_label(out);
            push_bytes(out, label);
            push_lit_label_end(out);
        },
        None => {
            out.push(10);
        },
    }
    proof {
        assert(out@ =~= old(out)@ + cluster_node_line(strings@, id));
    }
}

/// Append one whole `subgraph` block.
fn push_cluster(out: &mut Vec<u8>, strings: &StringTable, cluster: &crate::graph::SubGraph)
    ensures
        final(out)@ == old(out)@ + cluster_out(
            strings@,
            ClusterV { name: cluster.name, nodes: cluster.nodes@ },
        ),
{
    push_lit_subgraph(out);
    match strings.resolve(cluster.name) {
        Some(label) => {
            out.push(32);
            push_bytes(out, label);
            push_lit_open(out);
        },
        None => {
            push_lit_open(out);
        },
    }
    let ghost hdr = out@;
    proof {
        assert(cluster.nodes@.subrange(0, 0) =~= Seq::<usize>::empty());
    }
    let mut k: usize = 0;
    let n = cluster.nodes.len();
    while k < n
        invariant
            k <= n,
            n == cluster.nodes@.len(),
            out@ == hdr + cluster_nodes_out(strings@, cluster.nodes@.subrange(0, k as int)),
        decreases n - k,
    {
        let id = cluster.nodes[k];
        push_cluster_node_line(out, strings, id);
        proof {
            let taken = cluster.nodes@.subrange(0, k + 1);
            assert(taken.drop_last() =~= cluster.nodes@.subrange(0, k as int));
            assert(taken.last() == cluster.nodes@[k as int]);
            assert(out@ =~= hdr + cluster_nodes_out(strings@, taken));
        }
        k += 1;
    }
    proof {
        assert(cluster.nodes@.subrange(0, cluster.nodes@.len() as int) =~= cluster.nodes@);
    }
    push_lit_close4(out);
    proof {
        assert(out@ =~= old(out)@ + cluster_out(
            strings@,
            ClusterV { name: cluster.name, nodes: cluster.nodes@ },
        ));
    }
}

/// Append one top-level node declaration, or nothing when the id does not
/// resolve.
fn push_node_line(out: &mut Vec<u8>, strings: &StringTable, id: usize)
    ensures
        final(out)@ == old(out)@ + node_line(strings@, id),
{
    match strings.resolve(id) {
        Some(label) => {
            push_lit_node4(out);
            push_decimal(out, id);
            push_lit_label(out);
            push_bytes(out, label);
            push_lit_label_end(out);
            proof {
                assert(out@ =~= old(out)@ + node_line(strings@, id));
            }
        },
        None => {
            proof {
                assert(out@ =~= old(out)@ + node_line(strings@, id));
            }
        },
    }
}

/// Append one labeled edge line, or nothing when the symbol id does not
/// resolve.
fn push_edge_sym_line(out: &mut Vec<u8>, strings: &StringTable, src: usize, dst: usize, sym: usize)
    ensures
        final(out)@ == old(out)@ + edge_sym_line(strings@, src, dst, sym),
{
    match strings.resolve(sym) {
        Some(label) => {
            push_lit_node4(out);
            push_decimal(out, src);
            push_lit_arrow(out);
            push_decimal(out, dst);
            push_lit_label(out);
            push_bytes(out, label);
            push_lit_label_end(out);
            proof {
                assert(out@ =~= old(out)@ + edge_sym_line(strings@, src, dst, sym));
            }
        },
        None => {
            proof {
                assert(out@ =~= old(out)@ + edge_sym_line(strings@, src, dst, sym));
            }
        },
    }
}

/// Append everything one edge contributes.
fn push_edge(out: &mut Vec<u8>, strings: &StringTable, edge: &crate::graph::EdgeEntry)
    ensures
        final(out)@ == old(out)@ + edge_out(
            strings@,
            EdgeV { src: edge.src, dst: edge.dst, syms: edge.props.symbols@ },
        ),
{
    if edge.props.symbols.len() == 0 {
        push_lit_node4(out);
        push_decimal(out, edge.src);
        push_lit_arrow(out);
        push_decimal(out, edge.dst);
        out.push(10);
        proof {
            assert(out@ =~= old(out)@ + edge_out(
                strings@,
                EdgeV { src: edge.src, dst: edge.dst, syms: edge.props.symbols@ },
            ));
        }
        return ;
    }
    let ghost base = out@;
    proof {
        assert(edge.props.symbols@.subrange(0, 0) =~= Seq::<usize>::empty());
    }
    let mut k: usize = 0;
    let n = edge.props.symbols.len();
    while k < n
        invariant
            k <= n,
            n == edge.props.symbols@.len(),
            out@ == base + edge_syms_out(
                strings@,
                edge.src,
                edge.dst,
                edge.props.symbols@.subrange(0, k as int),
            ),
        decreases n - k,
    {
        let sym = edge.props.symbols[k];
        push_edge_sym_line(out, strings, edge.src, edge.dst, sym);
        proof {
            let taken = edge.props.symbols@.subrange(0, k + 1);
            assert(taken.drop_last() =~= edge.props.symbols@.subrange(0, k as int));
            assert(taken.last() == edge.props.symbols@[k as int]);
            assert(out@ =~= base + edge_syms_out(strings@, edge.src, edge.dst, taken));
        }
        k += 1;
    }
    proof {
        assert(edge.props.symbols@.subrange(0, edge.props.symbols@.len() as int)
            =~= edge.props.symbols@);
        assert(out@ =~= old(out)@ + edge_out(
            strings@,
            EdgeV { src: edge.src, dst: edge.dst, syms: edge.props.symbols@ },
        ));
    }
}

impl Graph {
    /// Render the whole graph as a DOT document, byte for byte as `dot_spec`
    /// lays it out: header, clusters, node declarations, edge lines, footer.
    pub fn to_dot(&self) -> (out: Vec<u8>)
        ensures
            out@ == dot_spec(self@),
    {
        let mut out: Vec<u8> = Vec::new();
        proof {
            assert(out@ =~= Seq::<u8>::empty());
        }
        push_lit_digraph(&mut out);
        push_bytes(&mut out, &self.name);
        push_lit_open(&mut out);

        let ghost t = self.strings@;
        let ghost hdr = out@;
        proof {
            assert(clusters_view(self.clusters@).subrange(0, 0) =~= Seq::<ClusterV>::empty());
        }
        let mut k: usize = 0;
        let n = self.clusters.len();
        while k < n
            invariant
                k <= n,
                n == self.clusters@.len(),
                t == self.strings@,
                out@ == hdr + clusters_out(t, clusters_view(self.clusters@).subrange(0, k as int)),
            decreases n - k,
        {
            push_cluster(&mut out, &self.strings, &self.clusters[k]);
            proof {
                let cv = clusters_view(self.clusters@);
                let taken = cv.subrange(0, k + 1);
                assert(taken.drop_last() =~= cv.subrange(0, k as int));
                assert(taken.last() == cv[k as int]);
                assert(out@ =~= hdr + clusters_out(t, taken));
            }
            k += 1;
        }
        proof {
            let cv = clusters_view(self.clusters@);
            assert(cv.subrange(0, cv.len() as int) =~= cv);
        }

        let ghost mid = out@;
        proof {
            assert(nodes_view(self.nodes@).subrange(0, 0) =~= Seq::<NodeV>::empty());
        }
        let mut k2: usize = 0;
        let n2 = self.nodes.len();
        while k2 < n2
            invariant
                k2 <= n2,
                n2 == self.nodes@.len(),
                t == self.strings@,
                out@ == mid + nodes_out(t, nodes_view(self.nodes@).subrange(0, k2 as int)),
            decreases n2 - k2,
        {
            let id = self.nodes[k2].id;
            push_node_line(&mut out, &self.strings, id);
            proof {
                let nv = nodes_view(self.nodes@);
                let taken = nv.subrange(0, k2 + 1);
                assert(taken.drop_last() =~= nv.subrange(0, k2 as int));
                assert(taken.last() == nv[k2 as int]);
                assert(out@ =~= mid + nodes_out(t, taken));
            }
            k2 += 1;
        }
        proof {
            let nv = nodes_view(self.nodes@);
            assert(nv.subrange(0, nv.len() as int) =~= nv);
        }

        let ghost mid2 = out@;
        proof {
            assert(edges_view(self.edges@).subrange(0, 0) =~= Seq::<EdgeV>::empty());
        }
        let mut k3: usize = 0;
        let n3 = self.edges.len();
        while k3 < n3
            invariant
                k3 <= n3,
                n3 == self.edges@.len(),
                t == self.strings@,
                out@ == mid2 + edges_out(t, edges_view(self.edges@).subrange(0, k3 as int)),
            decreases n3 - k3,
        {
            push_edge(&mut out, &self.strings, &self.edges[k3]);
            proof {
                let ev = edges_view(self.edges@);
                let taken = ev.subrange(0, k3 + 1);
                assert(taken.drop_last() =~= ev.subrange(0, k3 as int));
                assert(taken.last() == ev[k3 as int]);
                assert(out@ =~= mid2 + edges_out(t, taken));
            }
            k3 += 1;
        }
        proof {
            let ev = edges_view(self.edges@);
            assert(ev.subrange(0, ev.len() as int) =~= ev);
        }

        push_lit_close(&mut out);
        proof {
            assert(out@ =~= dot_spec(self@));
        }
        out
    }
}

} // verus!
