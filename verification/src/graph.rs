//! The dependency graph and the symbol-resolution algorithm.
//!
//! Files are ingested one at a time; each symbol record either defines a
//! symbol (the file exports it) or requires one (the file imports it). A
//! requirement met by an already-known provider becomes an edge immediately;
//! one met by no provider yet is parked in the awaiting index and resolved
//! retroactively the moment the first provider arrives, so the final edge set
//! does not depend on the order in which the two sides are seen. Once a
//! symbol has a provider its awaiting bucket is drained for good: a provider
//! arriving later gains edges only from consumers seen after it.
//!
//! A file that defines and requires the same symbol never gains a self-loop
//! edge: linking a node to itself is skipped everywhere, as the explicit
//! policy for the self-resolution corner case.

use crate::index::{append_entry, SymIndex};
use crate::sanitize::{is_rejected, sanitize_spec};
use crate::table::{
    distinct_strings, intern_id, intern_tbl, lemma_intern_properties, StringTable,
};
use vstd::pervasive::VecAdditionalExecFns;
use vstd::prelude::*;

verus! {

/// Per-node display data: the symbols a file defines, in the order seen.
pub struct NodeProperties {
    pub symbols: Vec<usize>,
}

/// Per-edge data: the symbols justifying the edge, in resolution order.
pub struct EdgeProperties {
    pub symbols: Vec<usize>,
}

/// One file node under its canonical id.
pub struct NodeEntry {
    pub id: usize,
    pub props: NodeProperties,
}

/// One directed edge, consumer to provider.
pub struct EdgeEntry {
    pub src: usize,
    pub dst: usize,
    pub props: EdgeProperties,
}

/// Ghost mirror of a node.
#[verifier::ext_equal]
pub ghost struct NodeV {
    pub id: usize,
    pub syms: Seq<usize>,
}

/// Ghost mirror of an edge.
#[verifier::ext_equal]
pub ghost struct EdgeV {
    pub src: usize,
    pub dst: usize,
    pub syms: Seq<usize>,
}

/// Ghost mirror of a cluster.
#[verifier::ext_equal]
pub ghost struct ClusterV {
    pub name: usize,
    pub nodes: Seq<usize>,
}

/// Ghost mirror of the whole graph state, including the transient
/// resolution indices.
#[verifier::ext_equal]
pub ghost struct GraphV {
    pub name: Seq<u8>,
    pub nodes: Seq<NodeV>,
    pub edges: Seq<EdgeV>,
    pub clusters: Seq<ClusterV>,
    pub table: Seq<Seq<u8>>,
    pub providers: Map<usize, Seq<usize>>,
    pub awaiting: Map<usize, Seq<usize>>,
    pub reserved: int,
}

pub open spec fn nodes_view(s: Seq<NodeEntry>) -> Seq<NodeV> {
    Seq::new(s.len(), |i: int| NodeV { id: s[i].id, syms: s[i].props.symbols@ })
}

pub open spec fn edges_view(s: Seq<EdgeEntry>) -> Seq<EdgeV> {
    Seq::new(s.len(), |i: int| EdgeV { src: s[i].src, dst: s[i].dst, syms: s[i].props.symbols@ })
}

/// First index of the edge `src -> dst`, or -1 when there is none.
pub open spec fn find_edge(edges: Seq<EdgeV>, src: usize, dst: usize) -> int
    decreases edges.len(),
{
    if edges.len() == 0 {
        -1
    } else if edges[0].src == src && edges[0].dst == dst {
        0
    } else {
        let r = find_edge(edges.subrange(1, edges.len() as int), src, dst);
        if r == -1 {
            -1
        } else {
            r + 1
        }
    }
}

/// Each node pair has at most one edge, and no edge links a node to itself.
pub open spec fn edges_wf(edges: Seq<EdgeV>) -> bool {
    &&& forall|i: int, j: int|
        0 <= i < j < edges.len() ==> !(edges[i].src == edges[j].src && edges[i].dst
            == edges[j].dst)
    &&& forall|i: int| 0 <= i < edges.len() ==> edges[i].src != edges[i].dst
}

/// There is an edge `src -> dst` justified by `sym`.
pub open spec fn has_edge_sym(edges: Seq<EdgeV>, src: usize, dst: usize, sym: usize) -> bool {
    exists|i: int|
        0 <= i < edges.len() && edges[i].src == src && edges[i].dst == dst
            && edges[i].syms.contains(sym)
}

/// Create or extend the edge `src -> dst` with justification `sym`: a fresh
/// pair gains a new edge, an existing pair accumulates the symbol. Linking a
/// node to itself is refused, so resolving a symbol a file both defines and
/// requires never creates a self-loop.
pub open spec fn link_edges(edges: Seq<EdgeV>, src: usize, dst: usize, sym: usize) -> Seq<EdgeV> {
    if src == dst {
        edges
    } else {
        let i = find_edge(edges, src, dst);
        if i >= 0 {
            edges.update(i, EdgeV { src, dst, syms: edges[i].syms.push(sym) })
        } else {
            edges.push(EdgeV { src, dst, syms: seq![sym] })
        }
    }
}

/// Link every waiting consumer to the newly arrived provider.
pub open spec fn link_consumers(
    edges: Seq<EdgeV>,
    consumers: Seq<usize>,
    provider: usize,
    sym: usize,
) -> Seq<EdgeV>
    decreases consumers.len(),
{
    if consumers.len() == 0 {
        edges
    } else {
        link_consumers(
            link_edges(edges, consumers[0], provider, sym),
            consumers.subrange(1, consumers.len() as int),
            provider,
            sym,
        )
    }
}

/// Link the consumer to every already-known provider.
pub open spec fn link_providers(
    edges: Seq<EdgeV>,
    consumer: usize,
    providers: Seq<usize>,
    sym: usize,
) -> Seq<EdgeV>
    decreases providers.len(),
{
    if providers.len() == 0 {
        edges
    } else {
        link_providers(
            link_edges(edges, consumer, providers[0], sym),
            consumer,
            providers.subrange(1, providers.len() as int),
            sym,
        )
    }
}

/// The id the canonical name `name` interns to.
pub open spec fn interned_sym(t: Seq<Seq<u8>>, name: Seq<u8>) -> usize {
    intern_id(t, name) as usize
}

/// Effect of one defined-symbol record issued by `file`: sanitize and intern
/// the name, record it in the node's display list, register `file` as a
/// provider, and resolve every consumer that was awaiting the symbol,
/// draining its awaiting bucket for good. A rejected name changes nothing.
pub open spec fn export_step(g: GraphV, props: Seq<usize>, file: usize, raw: Seq<u8>) -> (
    GraphV,
    Seq<usize>,
) {
    match sanitize_spec(raw, g.reserved) {
        None => (g, props),
        Some(name) => {
            let sym = interned_sym(g.table, name);
            let table2 = intern_tbl(g.table, name);
            let providers2 = g.providers.insert(sym, append_entry(g.providers, sym, file));
            if g.awaiting.dom().contains(sym) {
                (
                    GraphV {
                        table: table2,
                        providers: providers2,
                        awaiting: g.awaiting.remove(sym),
                        edges: link_consumers(g.edges, g.awaiting[sym], file, sym),
                        ..g
                    },
                    props.push(sym),
                )
            } else {
                (GraphV { table: table2, providers: providers2, ..g }, props.push(sym))
            }
        },
    }
}

/// Effect of one undefined-symbol record issued by `file`: sanitize and
/// intern the name, then either link `file` to every known provider at once,
/// or park it in the awaiting index until a provider arrives. A rejected
/// name changes nothing.
pub open spec fn import_step(g: GraphV, file: usize, raw: Seq<u8>) -> GraphV {
    match sanitize_spec(raw, g.reserved) {
        None => g,
        Some(name) => {
            let sym = interned_sym(g.table, name);
            let table2 = intern_tbl(g.table, name);
            if g.providers.dom().contains(sym) {
                GraphV {
                    table: table2,
                    edges: link_providers(g.edges, file, g.providers[sym], sym),
                    ..g
                }
            } else {
                GraphV {
                    table: table2,
                    awaiting: g.awaiting.insert(sym, append_entry(g.awaiting, sym, file)),
                    ..g
                }
            }
        },
    }
}

/// The graph's whole-state invariant: node ids are unique, edge pairs are
/// unique and never self-loops, the string table is a bijection, the
/// reserved-prefix policy is positive, and no symbol with a known provider is
/// still awaited.
pub open spec fn inv(g: GraphV) -> bool {
    &&& forall|i: int, j: int| 0 <= i < j < g.nodes.len() ==> g.nodes[i].id != g.nodes[j].id
    &&& edges_wf(g.edges)
    &&& distinct_strings(g.table)
    &&& g.reserved >= 1
    &&& forall|k: usize|
        #[trigger] g.providers.dom().contains(k) ==> !g.awaiting.dom().contains(k)
}

/// `find_edge` returns the first index of the pair, or -1 when there is none.
pub proof fn lemma_find_edge_props(edges: Seq<EdgeV>, src: usize, dst: usize)
    ensures
        -1 <= find_edge(edges, src, dst) < edges.len(),
        find_edge(edges, src, dst) >= 0 ==> edges[find_edge(edges, src, dst)].src == src && edges[
            find_edge(edges, src, dst)
        ].dst == dst,
        forall|j: int|
            0 <= j < find_edge(edges, src, dst) ==> !((#[trigger] edges[j]).src == src && edges[j].dst
                == dst),
        find_edge(edges, src, dst) == -1 ==> forall|j: int|
            0 <= j < edges.len() ==> !((#[trigger] edges[j]).src == src && edges[j].dst == dst),
    decreases edges.len(),
{
    if edges.len() == 0 {
    } else if edges[0].src == src && edges[0].dst == dst {
    } else {
        let rest = edges.subrange(1, edges.len() as int);
        lemma_find_edge_props(rest, src, dst);
        assert forall|j: int|
            0 <= j < find_edge(edges, src, dst) implies !((#[trigger] edges[j]).src == src
            && edges[j].dst == dst) by {
            if j > 0 {
                assert(edges[j] == rest[j - 1]);
            }
        }
        if find_edge(edges, src, dst) == -1 {
            assert forall|j: int|
                0 <= j < edges.len() implies !((#[trigger] edges[j]).src == src && edges[j].dst
                == dst) by {
                if j > 0 {
                    assert(edges[j] == rest[j - 1]);
                }
            }
        }
    }
}

/// A first occurrence of the pair pins `find_edge` down.
pub proof fn lemma_find_edge_at(edges: Seq<EdgeV>, src: usize, dst: usize, i: int)
    requires
        0 <= i < edges.len(),
        edges[i].src == src,
        edges[i].dst == dst,
        forall|j: int| 0 <= j < i ==> !((#[trigger] edges[j]).src == src && edges[j].dst == dst),
    ensures
        find_edge(edges, src, dst) == i,
{
    lemma_find_edge_props(edges, src, dst);
    let f = find_edge(edges, src, dst);
    if f == -1 {
        assert(!(edges[i].src == src && edges[i].dst == dst));
    } else if f < i {
        assert(!(edges[f].src == src && edges[f].dst == dst));
    } else if f > i {
        assert(!(edges[i].src == src && edges[i].dst == dst));
    }
}

/// Linking keeps the edge set well formed, records the new justification
/// (unless it would be a self-loop), and never loses an existing one.
pub proof fn lemma_link_edges_props(edges: Seq<EdgeV>, src: usize, dst: usize, sym: usize)
    requires
        edges_wf(edges),
    ensures
        edges_wf(link_edges(edges, src, dst, sym)),
        src != dst ==> has_edge_sym(link_edges(edges, src, dst, sym), src, dst, sym),
        forall|a: usize, b: usize, s: usize|
            #[trigger] has_edge_sym(edges, a, b, s) ==> has_edge_sym(
                link_edges(edges, src, dst, sym),
                a,
                b,
                s,
            ),
        forall|a: usize, b: usize, s: usize|
            #[trigger] has_edge_sym(link_edges(edges, src, dst, sym), a, b, s) ==> has_edge_sym(
                edges,
                a,
                b,
                s,
            ) || (a == src && b == dst && s == sym),
{
    lemma_find_edge_props(edges, src, dst);
    let out = link_edges(edges, src, dst, sym);
    if src == dst {
    } else {
        let i = find_edge(edges, src, dst);
        if i >= 0 {
            assert(out[i].syms.contains(sym)) by {
                assert(out[i].syms == edges[i].syms.push(sym));
                assert(out[i].syms[out[i].syms.len() - 1] == sym);
            }
            assert forall|a: usize, b: usize, s: usize|
                #[trigger] has_edge_sym(edges, a, b, s) implies has_edge_sym(out, a, b, s) by {
                let j = choose|j: int|
                    0 <= j < edges.len() && edges[j].src == a && edges[j].dst == b
                        && edges[j].syms.contains(s);
                if j == i {
                    let k = choose|k: int| 0 <= k < edges[i].syms.len() && edges[i].syms[k] == s;
                    assert(out[i].syms[k] == s);
                    assert(out[i].syms.contains(s));
                } else {
                    assert(out[j] == edges[j]);
                }
            }
            assert forall|a: usize, b: usize, s: usize|
                #[trigger] has_edge_sym(out, a, b, s) implies has_edge_sym(edges, a, b, s) || (a
                == src && b == dst && s == sym) by {
                let j = choose|j: int|
                    0 <= j < out.len() && out[j].src == a && out[j].dst == b && out[j].syms.contains(
                        s,
                    );
                if j == i {
                    let k = choose|k: int| 0 <= k < out[i].syms.len() && out[i].syms[k] == s;
                    if k < edges[i].syms.len() {
                        assert(edges[i].syms[k] == s);
                        assert(edges[i].syms.contains(s));
                    }
                } else {
                    assert(out[j] == edges[j]);
                }
            }
        } else {
            assert(out[edges.len() as int].syms.contains(sym)) by {
                assert(out[edges.len() as int].syms[0] == sym);
            }
            assert forall|a: usize, b: usize, s: usize|
                #[trigger] has_edge_sym(edges, a, b, s) implies has_edge_sym(out, a, b, s) by {
                let j = choose|j: int|
                    0 <= j < edges.len() && edges[j].src == a && edges[j].dst == b
                        && edges[j].syms.contains(s);
                assert(out[j] == edges[j]);
            }
            assert forall|a: usize, b: usize, s: usize|
                #[trigger] has_edge_sym(out, a, b, s) implies has_edge_sym(edges, a, b, s) || (a
                == src && b == dst && s == sym) by {
                let j = choose|j: int|
                    0 <= j < out.len() && out[j].src == a && out[j].dst == b && out[j].syms.contains(
                        s,
                    );
                if j < edges.len() {
                    assert(out[j] == edges[j]);
                } else {
                    assert(out[j].syms == seq![sym]);
                    let k = choose|k: int| 0 <= k < out[j].syms.len() && out[j].syms[k] == s;
                    assert(s == sym);
                }
            }
        }
    }
}

/// Draining a waiting list links every consumer in it to the provider and
/// loses no existing justification.
pub proof fn lemma_link_consumers_props(
    edges: Seq<EdgeV>,
    consumers: Seq<usize>,
    provider: usize,
    sym: usize,
)
    requires
        edges_wf(edges),
    ensures
        edges_wf(link_consumers(edges, consumers, provider, sym)),
        forall|c: usize|
            consumers.contains(c) && c != provider ==> has_edge_sym(
                link_consumers(edges, consumers, provider, sym),
                c,
                provider,
                sym,
            ),
        forall|a: usize, b: usize, s: usize|
            #[trigger] has_edge_sym(edges, a, b, s) ==> has_edge_sym(
                link_consumers(edges, consumers, provider, sym),
                a,
                b,
                s,
            ),
    decreases consumers.len(),
{
    if consumers.len() == 0 {
    } else {
        let e1 = link_edges(edges, consumers[0], provider, sym);
        let rest = consumers.subrange(1, consumers.len() as int);
        lemma_link_edges_props(edges, consumers[0], provider, sym);
        lemma_link_consumers_props(e1, rest, provider, sym);
        assert forall|c: usize|
            consumers.contains(c) && c != provider implies has_edge_sym(
            link_consumers(edges, consumers, provider, sym),
            c,
            provider,
            sym,
        ) by {
            let j = choose|j: int| 0 <= j < consumers.len() && consumers[j] == c;
            if j == 0 {
                assert(has_edge_sym(e1, c, provider, sym));
            } else {
                assert(rest[j - 1] == c);
                assert(rest.contains(c));
            }
        }
    }
}

/// Fanning out over the provider list links the consumer to every provider
/// in it and loses no existing justification.
pub proof fn lemma_link_providers_props(
    edges: Seq<EdgeV>,
    consumer: usize,
    providers: Seq<usize>,
    sym: usize,
)
    requires
        edges_wf(edges),
    ensures
        edges_wf(link_providers(edges, consumer, providers, sym)),
        forall|p: usize|
            providers.contains(p) && p != consumer ==> has_edge_sym(
                link_providers(edges, consumer, providers, sym),
                consumer,
                p,
                sym,
            ),
        forall|a: usize, b: usize, s: usize|
            #[trigger] has_edge_sym(edges, a, b, s) ==> has_edge_sym(
                link_providers(edges, consumer, providers, sym),
                a,
                b,
                s,
            ),
    decreases providers.len(),
{
    if providers.len() == 0 {
    } else {
        let e1 = link_edges(edges, consumer, providers[0], sym);
        let rest = providers.subrange(1, providers.len() as int);
        lemma_link_edges_props(edges, consumer, providers[0], sym);
        lemma_link_providers_props(e1, consumer, rest, sym);
        assert forall|p: usize|
            providers.contains(p) && p != consumer implies has_edge_sym(
            link_providers(edges, consumer, providers, sym),
            consumer,
            p,
            sym,
        ) by {
            let j = choose|j: int| 0 <= j < providers.len() && providers[j] == p;
            if j == 0 {
                assert(has_edge_sym(e1, consumer, p, sym));
            } else {
                assert(rest[j - 1] == p);
                assert(rest.contains(p));
            }
        }
    }
}

/// A defined-symbol step preserves the whole-state invariant.
pub proof fn lemma_export_step_inv(g: GraphV, props: Seq<usize>, file: usize, raw: Seq<u8>)
    requires
        inv(g),
    ensures
        inv(export_step(g, props, file, raw).0),
{
    match sanitize_spec(raw, g.reserved) {
        None => {},
        Some(name) => {
            lemma_intern_properties(g.table, name);
            let sym = interned_sym(g.table, name);
            if g.awaiting.dom().contains(sym) {
                lemma_link_consumers_props(g.edges, g.awaiting[sym], file, sym);
            }
        },
    }
}

/// Create or extend the edge `src -> dst` in place, matching `link_edges`.
fn link_edge_vec(edges: &mut Vec<EdgeEntry>, src: usize, dst: usize, sym: usize)
    requires
        edges_wf(edges_view(old(edges)@)),
    ensures
        edges_wf(edges_view(final(edges)@)),
        edges_view(final(edges)@) == link_edges(edges_view(old(edges)@), src, dst, sym),
{
    proof {
        lemma_link_edges_props(edges_view(edges@), src, dst, sym);
    }
    if src == dst {
        return ;
    }
    let ghost e0 = edges_view(edges@);
    let n = edges.len();
    let mut i: usize = 0;
    while i < n
        invariant
            i <= n,
            n == edges@.len(),
            edges@ == old(edges)@,
            e0 == edges_view(edges@),
            src != dst,
            edges_wf(e0),
            forall|j: int| 0 <= j < i ==> !((#[trigger] e0[j]).src == src && e0[j].dst == dst),
        decreases n - i,
    {
        if edges[i].src == src && edges[i].dst == dst {
            proof {
                lemma_find_edge_at(e0, src, dst, i as int);
            }
            let mut e = edges.remove(i);
            e.props.symbols.push(sym);
            edges.insert(i, e);
            proof {
                assert(edges_view(edges@) =~~= link_edges(e0, src, dst, sym));
            }
            return ;
        }
        i += 1;
    }
    proof {
        lemma_find_edge_props(e0, src, dst);
        if find_edge(e0, src, dst) >= 0 {
            assert(false);
        }
    }
    let mut syms: Vec<usize> = Vec::new();
    syms.push(sym);
    edges.push(EdgeEntry { src, dst, props: EdgeProperties { symbols: syms } });
    proof {
        assert(edges_view(edges@) =~~= link_edges(e0, src, dst, sym));
    }
}

/// Link every consumer in `libs` to `provider`, matching `link_consumers`.
fn link_all_consumers(edges: &mut Vec<EdgeEntry>, libs: &Vec<usize>, provider: usize, sym: usize)
    requires
        edges_wf(edges_view(old(edges)@)),
    ensures
        edges_wf(edges_view(final(edges)@)),
        edges_view(final(edges)@) == link_consumers(edges_view(old(edges)@), libs@, provider, sym),
{
    let ghost e0 = edges_view(edges@);
    proof {
        assert(libs@.subrange(0, libs@.len() as int) =~= libs@);
    }
    let mut k: usize = 0;
    while k < libs.len()
        invariant
            k <= libs@.len(),
            edges_wf(edges_view(edges@)),
            link_consumers(e0, libs@, provider, sym) == link_consumers(
                edges_view(edges@),
                libs@.subrange(k as int, libs@.len() as int),
                provider,
                sym,
            ),
        decreases libs@.len() - k,
    {
        let ghost ecur = edges_view(edges@);
        let ghost rest = libs@.subrange(k as int, libs@.len() as int);
        let lib = libs[k];
        link_edge_vec(edges, lib, provider, sym);
        proof {
            assert(rest[0] == libs@[k as int]);
            assert(rest.subrange(1, rest.len() as int) =~= libs@.subrange(
                k + 1,
                libs@.len() as int,
            ));
        }
        k += 1;
    }
    proof {
        assert(libs@.subrange(libs@.len() as int, libs@.len() as int)
            =~= Seq::<usize>::empty());
    }
}

/// Link `consumer` to every provider in `libs`, matching `link_providers`.
fn link_all_providers(edges: &mut Vec<EdgeEntry>, consumer: usize, libs: &Vec<usize>, sym: usize)
    requires
        edges_wf(edges_view(old(edges)@)),
    ensures
        edges_wf(edges_view(final(edges)@)),
        edges_view(final(edges)@) == link_providers(edges_view(old(edges)@), consumer, libs@, sym),
{
    let ghost e0 = edges_view(edges@);
    proof {
        assert(libs@.subrange(0, libs@.len() as int) =~= libs@);
    }
    let mut k: usize = 0;
    while k < libs.len()
        invariant
            k <= libs@.len(),
            edges_wf(edges_view(edges@)),
            link_providers(e0, consumer, libs@, sym) == link_providers(
                edges_view(edges@),
                consumer,
                libs@.subrange(k as int, libs@.len() as int),
                sym,
            ),
        decreases libs@.len() - k,
    {
        let ghost rest = libs@.subrange(k as int, libs@.len() as int);
        let lib = libs[k];
        link_edge_vec(edges, consumer, lib, sym);
        proof {
            assert(rest[0] == libs@[k as int]);
            assert(rest.subrange(1, rest.len() as int) =~= libs@.subrange(
                k + 1,
                libs@.len() as int,
            ));
        }
        k += 1;
    }
    proof {
        assert(libs@.subrange(libs@.len() as int, libs@.len() as int)
            =~= Seq::<usize>::empty());
    }
}

/// A named cluster of node ids, purely a rendering aid: it never affects
/// resolution, and a node may sit in any number of clusters.
pub struct SubGraph {
    pub name: usize,
    pub nodes: Vec<usize>,
}

impl SubGraph {
    /// An empty cluster labeled by the id `name`.
    pub fn new(name: usize) -> (r: SubGraph)
        ensures
            r.name == name,
            r.nodes@ == Seq::<usize>::empty(),
    {
        let r = SubGraph { name, nodes: Vec::new() };
        proof {
            assert(r.nodes@ =~= Seq::<usize>::empty());
        }
        r
    }

    /// Add a node id to the cluster; an id already present is kept once.
    pub fn insert(&mut self, symbol_name: usize)
        ensures
            final(self).name == old(self).name,
            final(self).nodes@ == if old(self).nodes@.contains(symbol_name) {
                old(self).nodes@
            } else {
                old(self).nodes@.push(symbol_name)
            },
    {
        let mut i: usize = 0;
        let n = self.nodes.len();
        while i < n
            invariant
                i <= n,
                n == self.nodes@.len(),
                self == old(self),
                forall|j: int| 0 <= j < i ==> self.nodes@[j] != symbol_name,
            decreases n - i,
        {
            if self.nodes[i] == symbol_name {
                return ;
            }
            i += 1;
        }
        assert(!self.nodes@.contains(symbol_name));
        self.nodes.push(symbol_name);
    }
}

pub open spec fn clusters_view(s: Seq<SubGraph>) -> Seq<ClusterV> {
    Seq::new(s.len(), |i: int| ClusterV { name: s[i].name, nodes: s[i].nodes@ })
}

/// The state `Graph::new` creates: empty everything, under the given graph
/// name, with the one-underscore reserved-prefix policy.
pub open spec fn empty_graph(name: Seq<u8>) -> GraphV {
    GraphV {
        name: name,
        nodes: Seq::empty(),
        edges: Seq::empty(),
        clusters: Seq::empty(),
        table: Seq::empty(),
        providers: Map::empty(),
        awaiting: Map::empty(),
        reserved: 1,
    }
}

/// The dependency graph under construction, together with the transient
/// pending-resolution index (`providers` and `awaiting`) that makes
/// resolution order-independent.
pub struct Graph {
    pub name: Vec<u8>,
    pub nodes: Vec<NodeEntry>,
    pub edges: Vec<EdgeEntry>,
    pub clusters: Vec<SubGraph>,
    pub strings: StringTable,
    pub providers: SymIndex,
    pub awaiting: SymIndex,
    pub reserved_prefix_len: usize,
}

impl View for Graph {
    type V = GraphV;

    open spec fn view(&self) -> GraphV {
        GraphV {
            name: self.name@,
            nodes: nodes_view(self.nodes@),
            edges: edges_view(self.edges@),
            clusters: clusters_view(self.clusters@),
            table: self.strings@,
            providers: self.providers@,
            awaiting: self.awaiting@,
            reserved: self.reserved_prefix_len as int,
        }
    }
}

impl Graph {
    /// Representation invariants plus the whole-state invariant on the model.
    pub open spec fn wf(&self) -> bool {
        &&& self.strings.wf()
        &&& self.providers.wf()
        &&& self.awaiting.wf()
        &&& inv(self@)
    }

    /// An empty graph with the given name.
    pub fn new(name: Vec<u8>) -> (g: Graph)
        ensures
            g.wf(),
            g@ == empty_graph(name@),
    {
        let g = Graph {
            name,
            nodes: Vec::new(),
            edges: Vec::new(),
            clusters: Vec::new(),
            strings: StringTable::new(),
            providers: SymIndex::new(),
            awaiting: SymIndex::new(),
            reserved_prefix_len: 1,
        };
        proof {
            assert(g@ =~~= empty_graph(g.name@));
        }
        g
    }

    /// Choose how many leading underscores mark a reserved name.
    pub fn set_reserved_prefix_len(&mut self, n: usize)
        requires
            old(self).wf(),
            n >= 1,
        ensures
            final(self).wf(),
            final(self)@ == (GraphV { reserved: n as int, ..old(self)@ }),
    {
        self.reserved_prefix_len = n;
        proof {
            assert(self@ =~~= (GraphV { reserved: n as int, ..old(self)@ }));
        }
    }

    /// Record a cluster for rendering.
    pub fn add_cluster(&mut self, cluster: SubGraph)
        requires
            old(self).wf(),
        ensures
            final(self).wf(),
            final(self)@ == (GraphV {
                clusters: old(self)@.clusters.push(
                    ClusterV { name: cluster.name, nodes: cluster.nodes@ },
                ),
                ..old(self)@
            }),
    {
        let ghost cv = ClusterV { name: cluster.name, nodes: cluster.nodes@ };
        self.clusters.push(cluster);
        proof {
            assert(self@ =~~= (GraphV { clusters: old(self)@.clusters.push(cv), ..old(self)@ }));
        }
    }

    /// Ingest one defined-symbol record issued by the file `filename`:
    /// exactly the `export_step` transition on the graph state and on the
    /// node's display list.
    pub fn insert_exported(
        &mut self,
        properties: &mut NodeProperties,
        filename: usize,
        exported_symbol: &Vec<u8>,
    )
        requires
            old(self).wf(),
        ensures
            final(self).wf(),
            final(self)@ == export_step(
                old(self)@,
                old(properties).symbols@,
                filename,
                exported_symbol@,
            ).0,
            final(properties).symbols@ == export_step(
                old(self)@,
                old(properties).symbols@,
                filename,
                exported_symbol@,
            ).1,
    {
        let ghost g0 = self@;
        let ghost p0 = properties.symbols@;
        let name = match crate::sanitize::mangle_as_valid_dot_name(
            exported_symbol,
            self.reserved_prefix_len,
        ) {
            Some(v) => v,
            None => {
                return ;
            },
        };
        let ghost nm = name@;
        let sym = self.strings.intern(&name);
        proof {
            lemma_intern_properties(g0.table, nm);
        }
        properties.symbols.push(sym);
        self.providers.append(sym, filename);
        let waiting = self.awaiting.remove(sym);
        match waiting {
            Some(libs) => {
                link_all_consumers(&mut self.edges, &libs, filename, sym);
            },
            None => {},
        }
        proof {
            lemma_export_step_inv(g0, p0, filename, exported_symbol@);
            assert(self@ =~~= export_step(g0, p0, filename, exported_symbol@).0);
        }
    }

    /// Ingest one undefined-symbol record issued by the file `filename`:
    /// exactly the `import_step` transition. The node's display list only
    /// shows defined symbols, so it is left untouched.
    pub fn insert_imported(
        &mut self,
        properties: &mut NodeProperties,
        filename: usize,
        imported_symbol: &Vec<u8>,
    )
        requires
            old(self).wf(),
        ensures
            final(self).wf(),
            final(self)@ == import_step(old(self)@, filename, imported_symbol@),
            final(properties).symbols@ == old(properties).symbols@,
    {
        let ghost g0 = self@;
        let name = match crate::sanitize::mangle_as_valid_dot_name(
            imported_symbol,
            self.reserved_prefix_len,
        ) {
            Some(v) => v,
            None => {
                return ;
            },
        };
        let ghost nm = name@;
        let sym = self.strings.intern(&name);
        proof {
            lemma_intern_properties(g0.table, nm);
        }
        match self.providers.get(sym) {
            Some(libs) => {
                link_all_providers(&mut self.edges, filename, libs, sym);
            },
            None => {
                self.awaiting.append(sym, filename);
            },
        }
        proof {
            lemma_import_step_inv(g0, filename, imported_symbol@);
            assert(self@ =~~= import_step(g0, filename, imported_symbol@));
        }
    }

    /// Ingest one whole input file: its raw name and the symbol records the
    /// binary decoder extracted from it, in order. Returns whether the file
    /// gained a node (it does not when its name is rejected).
    pub fn ingest_file(&mut self, filename: &Vec<u8>, records: &Vec<SymbolRecord>) -> (added: bool)
        requires
            old(self).wf(),
        ensures
            final(self).wf(),
            final(self)@ == ingest_spec(old(self)@, filename@, records@),
            added == !is_rejected(filename@, old(self)@.reserved),
    {
        let ghost g = self@;
        let name = match crate::sanitize::mangle_as_valid_dot_name(
            filename,
            self.reserved_prefix_len,
        ) {
            Some(v) => v,
            None => {
                return false;
            },
        };
        let ghost nm = name@;
        let fid = self.strings.intern(&name);
        proof {
            lemma_intern_properties(g.table, nm);
            assert(self@ =~~= (GraphV { table: intern_tbl(g.table, nm), ..g }));
        }
        let ghost g0 = self@;
        let mut properties = NodeProperties { symbols: Vec::new() };
        proof {
            assert(properties.symbols@ =~= Seq::<usize>::empty());
            assert(records@.subrange(0, records@.len() as int) =~= records@);
        }
        let mut k: usize = 0;
        while k < records.len()
            invariant
                k <= records@.len(),
                self.wf(),
                process_records(g0, Seq::<usize>::empty(), fid, records@) == process_records(
                    self@,
                    properties.symbols@,
                    fid,
                    records@.subrange(k as int, records@.len() as int),
                ),
            decreases records@.len() - k,
        {
            let ghost rest = records@.subrange(k as int, records@.len() as int);
            let rec = &records[k];
            if rec.defined {
                self.insert_exported(&mut properties, fid, &rec.name);
            } else {
                self.insert_imported(&mut properties, fid, &rec.name);
            }
            proof {
                assert(rest[0] == records@[k as int]);
                assert(rest.subrange(1, rest.len() as int) =~= records@.subrange(
                    k + 1,
                    records@.len() as int,
                ));
            }
            k += 1;
        }
        proof {
            assert(records@.subrange(records@.len() as int, records@.len() as int)
                =~= Seq::<SymbolRecord>::empty());
        }
        let ghost gn = self@;
        let ghost pn = properties.symbols@;
        match position_node(&self.nodes, fid) {
            Some(i) => {
                proof {
                    lemma_find_node_at(gn.nodes, fid, i as int);
                }
                self.nodes.set(i, NodeEntry { id: fid, props: properties });
                proof {
                    assert(nodes_view(self.nodes@) =~~= upsert_node(gn.nodes, fid, pn));
                    assert(self@ =~~= ingest_spec(g, filename@, records@));
                    let newn = nodes_view(self.nodes@);
                    assert forall|a: int, b: int|
                        0 <= a < b < newn.len() implies newn[a].id != newn[b].id by {
                        assert(newn[a].id == gn.nodes[a].id);
                        assert(newn[b].id == gn.nodes[b].id);
                    }
                }
            },
            None => {
                proof {
                    lemma_find_node_props(gn.nodes, fid);
                    if find_node(gn.nodes, fid) >= 0 {
                        assert(false);
                    }
                }
                self.nodes.push(NodeEntry { id: fid, props: properties });
                proof {
                    assert(nodes_view(self.nodes@) =~~= upsert_node(gn.nodes, fid, pn));
                    assert(self@ =~~= ingest_spec(g, filename@, records@));
                    let newn = nodes_view(self.nodes@);
                    assert forall|a: int, b: int|
                        0 <= a < b < newn.len() implies newn[a].id != newn[b].id by {
                        if b < gn.nodes.len() {
                            assert(newn[a].id == gn.nodes[a].id);
                            assert(newn[b].id == gn.nodes[b].id);
                        } else {
                            assert(newn[a].id == gn.nodes[a].id);
                            assert(newn[b].id == fid);
                        }
                    }
                }
            },
        }
        true
    }

    /// Sanitize a raw name under this graph's reserved-prefix policy.
    pub fn mangle_as_valid_dot_name(&self, v: &Vec<u8>) -> (r: Option<Vec<u8>>)
        requires
            self.wf(),
        ensures
            (r is None) == is_rejected(v@, self@.reserved),
            r matches Some(out) ==> out@ == crate::sanitize::canonical_form(v@),
    {
        crate::sanitize::mangle_as_valid_dot_name(v, self.reserved_prefix_len)
    }

    /// How many file nodes the graph holds.
    pub fn node_count(&self) -> (n: usize)
        ensures
            n == self@.nodes.len(),
    {
        self.nodes.len()
    }

    /// How many edges the graph holds.
    pub fn edge_count(&self) -> (n: usize)
        ensures
            n == self@.edges.len(),
    {
        self.edges.len()
    }

    /// The canonical id of the node at position `i`.
    pub fn node_id(&self, i: usize) -> (id: usize)
        requires
            i < self@.nodes.len(),
        ensures
            id == self@.nodes[i as int].id,
    {
        self.nodes[i].id
    }

    /// The display list of the node at position `i`: the symbols it defines.
    pub fn node_symbols(&self, i: usize) -> (syms: &Vec<usize>)
        requires
            i < self@.nodes.len(),
        ensures
            syms@ == self@.nodes[i as int].syms,
    {
        &self.nodes[i].props.symbols
    }

    /// The consumer and provider ids of the edge at position `i`.
    pub fn edge_endpoints(&self, i: usize) -> (r: (usize, usize))
        requires
            i < self@.edges.len(),
        ensures
            r.0 == self@.edges[i as int].src,
            r.1 == self@.edges[i as int].dst,
    {
        (self.edges[i].src, self.edges[i].dst)
    }

    /// The justification list of the edge at position `i`.
    pub fn edge_symbols(&self, i: usize) -> (syms: &Vec<usize>)
        requires
            i < self@.edges.len(),
        ensures
            syms@ == self@.edges[i as int].syms,
    {
        &self.edges[i].props.symbols
    }

    /// Resolve a canonical id back to its name through the string table.
    pub fn resolve(&self, id: usize) -> (r: Option<&Vec<u8>>)
        ensures
            id < self@.table.len() ==> (r matches Some(s) && s@ == self@.table[id as int]),
            id >= self@.table.len() ==> r is None,
    {
        self.strings.resolve(id)
    }

    /// Position of the edge `src -> dst`, when the graph has one.
    pub fn find_edge_index(&self, src: usize, dst: usize) -> (r: Option<usize>)
        ensures
            r matches Some(i) ==> i as int == find_edge(self@.edges, src, dst),
            r is None ==> find_edge(self@.edges, src, dst) == -1,
    {
        let ghost ev = self@.edges;
        let n = self.edges.len();
        let mut i: usize = 0;
        while i < n
            invariant
                i <= n,
                n == self.edges@.len(),
                ev == self@.edges,
                forall|j: int| 0 <= j < i ==> !((#[trigger] ev[j]).src == src && ev[j].dst == dst),
            decreases n - i,
        {
            if self.edges[i].src == src && self.edges[i].dst == dst {
                proof {
                    lemma_find_edge_at(ev, src, dst, i as int);
                }
                return Some(i);
            }
            i += 1;
        }
        proof {
            lemma_find_edge_props(ev, src, dst);
            if find_edge(ev, src, dst) >= 0 {
                assert(!(ev[find_edge(ev, src, dst)].src == src && ev[
                    find_edge(ev, src, dst)
                ].dst == dst));
                assert(false);
            }
        }
        None
    }

    /// Strip the justification lists of every edge in place: connectivity is
    /// unchanged, only the labels are discarded. Merging an already merged
    /// graph changes nothing.
    pub fn merge(&mut self)
        requires
            old(self).wf(),
        ensures
            final(self).wf(),
            final(self)@ == (GraphV { edges: merge_edges(old(self)@.edges), ..old(self)@ }),
    {
        clear_edge_symbols(&mut self.edges);
        proof {
            assert(self@ =~~= (GraphV { edges: merge_edges(old(self)@.edges), ..old(self)@ }));
        }
    }
}

/// One symbol record handed over by the binary decoder: the raw symbol name
/// and whether the file defines it (`true`) or requires it (`false`).
pub struct SymbolRecord {
    pub name: Vec<u8>,
    pub defined: bool,
}

/// Effect of a file's record sequence, applied in order.
pub open spec fn process_records(
    g: GraphV,
    props: Seq<usize>,
    file: usize,
    recs: Seq<SymbolRecord>,
) -> (GraphV, Seq<usize>)
    decreases recs.len(),
{
    if recs.len() == 0 {
        (g, props)
    } else {
        let first = if recs[0].defined {
            export_step(g, props, file, recs[0].name@)
        } else {
            (import_step(g, file, recs[0].name@), props)
        };
        process_records(first.0, first.1, file, recs.subrange(1, recs.len() as int))
    }
}

/// First index of the node with this id, or -1 when there is none.
pub open spec fn find_node(nodes: Seq<NodeV>, id: usize) -> int
    decreases nodes.len(),
{
    if nodes.len() == 0 {
        -1
    } else if nodes[0].id == id {
        0
    } else {
        let r = find_node(nodes.subrange(1, nodes.len() as int), id);
        if r == -1 {
            -1
        } else {
            r + 1
        }
    }
}

/// Add the node, or replace its display list when the id is already present:
/// two input names sanitizing to the same canonical string share one node.
pub open spec fn upsert_node(nodes: Seq<NodeV>, id: usize, syms: Seq<usize>) -> Seq<NodeV> {
    let i = find_node(nodes, id);
    if i >= 0 {
        nodes.update(i, NodeV { id, syms })
    } else {
        nodes.push(NodeV { id, syms })
    }
}

/// Effect of ingesting one whole file: sanitize and intern its name, process
/// its records in order, then record the node with its display list. A file
/// whose name is rejected contributes nothing at all.
pub open spec fn ingest_spec(g: GraphV, raw_name: Seq<u8>, recs: Seq<SymbolRecord>) -> GraphV {
    match sanitize_spec(raw_name, g.reserved) {
        None => g,
        Some(nm) => {
            let fid = interned_sym(g.table, nm);
            let g0 = GraphV { table: intern_tbl(g.table, nm), ..g };
            let st = process_records(g0, Seq::empty(), fid, recs);
            GraphV { nodes: upsert_node(st.0.nodes, fid, st.1), ..st.0 }
        },
    }
}

/// `find_node` returns the first index of the id, or -1 when there is none.
pub proof fn lemma_find_node_props(nodes: Seq<NodeV>, id: usize)
    ensures
        -1 <= find_node(nodes, id) < nodes.len(),
        find_node(nodes, id) >= 0 ==> nodes[find_node(nodes, id)].id == id,
        forall|j: int| 0 <= j < find_node(nodes, id) ==> (#[trigger] nodes[j]).id != id,
        find_node(nodes, id) == -1 ==> forall|j: int|
            0 <= j < nodes.len() ==> (#[trigger] nodes[j]).id != id,
    decreases nodes.len(),
{
    if nodes.len() == 0 {
    } else if nodes[0].id == id {
    } else {
        let rest = nodes.subrange(1, nodes.len() as int);
        lemma_find_node_props(rest, id);
        assert forall|j: int|
            0 <= j < find_node(nodes, id) implies (#[trigger] nodes[j]).id != id by {
            if j > 0 {
                assert(nodes[j] == rest[j - 1]);
            }
        }
        if find_node(nodes, id) == -1 {
            assert forall|j: int| 0 <= j < nodes.len() implies (#[trigger] nodes[j]).id != id by {
                if j > 0 {
                    assert(nodes[j] == rest[j - 1]);
                }
            }
        }
    }
}

/// A first occurrence of the id pins `find_node` down.
pub proof fn lemma_find_node_at(nodes: Seq<NodeV>, id: usize, i: int)
    requires
        0 <= i < nodes.len(),
        nodes[i].id == id,
        forall|j: int| 0 <= j < i ==> (#[trigger] nodes[j]).id != id,
    ensures
        find_node(nodes, id) == i,
{
    lemma_find_node_props(nodes, id);
    let f = find_node(nodes, id);
    if f == -1 {
        assert(nodes[i].id != id);
    } else if f < i {
        assert(nodes[f].id != id);
    } else if f > i {
        assert(nodes[i].id != id);
    }
}

/// Index of the node entry holding `id`, when there is one.
fn position_node(nodes: &Vec<NodeEntry>, id: usize) -> (r: Option<usize>)
    ensures
        r matches Some(i) ==> i < nodes@.len() && nodes@[i as int].id == id,
        r is None ==> forall|j: int| 0 <= j < nodes@.len() ==> (#[trigger] nodes@[j].id) != id,
{
    let mut i: usize = 0;
    let n = nodes.len();
    while i < n
        invariant
            i <= n,
            n == nodes@.len(),
            forall|j: int| 0 <= j < i ==> (#[trigger] nodes@[j].id) != id,
        decreases n - i,
    {
        if nodes[i].id == id {
            return Some(i);
        }
        i += 1;
    }
    None
}

/// Strip every edge's justification list in place, matching `merge_edges`.
fn clear_edge_symbols(edges: &mut Vec<EdgeEntry>)
    ensures
        edges_view(final(edges)@) == merge_edges(edges_view(old(edges)@)),
{
    let n = edges.len();
    let mut i: usize = 0;
    while i < n
        invariant
            i <= n,
            n == edges@.len(),
            n == old(edges)@.len(),
            forall|j: int|
                i <= j < n ==> edges_view(edges@)[j] == edges_view(old(edges)@)[j],
            forall|j: int|
                0 <= j < i ==> edges_view(edges@)[j] == merge_edges(edges_view(old(edges)@))[j],
        decreases n - i,
    {
        let ghost prevv = edges_view(edges@);
        let src = edges[i].src;
        let dst = edges[i].dst;
        let cleared: Vec<usize> = Vec::new();
        let ghost cv = cleared@;
        edges.set(i, EdgeEntry { src, dst, props: EdgeProperties { symbols: cleared } });
        proof {
            let ov = edges_view(old(edges)@);
            let nv = edges_view(edges@);
            assert(prevv[i as int] == ov[i as int]);
            assert(nv[i as int].src == ov[i as int].src);
            assert(nv[i as int].dst == ov[i as int].dst);
            assert(nv[i as int].syms == cv);
            assert(cv =~= Seq::<usize>::empty());
            assert(nv[i as int] =~~= merge_edges(ov)[i as int]);
            assert forall|j: int| 0 <= j < i + 1 implies nv[j] == merge_edges(ov)[j] by {
                if j < i {
                    assert(nv[j] == prevv[j]);
                }
            }
            assert forall|j: int| i + 1 <= j < n implies nv[j] == ov[j] by {
                assert(nv[j] == prevv[j]);
            }
        }
        i += 1;
    }
    proof {
        assert(edges_view(edges@) =~~= merge_edges(edges_view(old(edges)@)));
    }
}

/// Every edge of the merged graph: same endpoints, empty justification list.
pub open spec fn merge_edges(edges: Seq<EdgeV>) -> Seq<EdgeV> {
    Seq::new(edges.len(), |i: int| EdgeV { src: edges[i].src, dst: edges[i].dst, syms: Seq::empty() })
}

/// An undefined-symbol step preserves the whole-state invariant.
pub proof fn lemma_import_step_inv(g: GraphV, file: usize, raw: Seq<u8>)
    requires
        inv(g),
    ensures
        inv(import_step(g, file, raw)),
{
    match sanitize_spec(raw, g.reserved) {
        None => {},
        Some(name) => {
            lemma_intern_properties(g.table, name);
            let sym = interned_sym(g.table, name);
            if g.providers.dom().contains(sym) {
                lemma_link_providers_props(g.edges, file, g.providers[sym], sym);
            }
        },
    }
}

} // verus!
