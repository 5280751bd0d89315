//! The resolution algorithm's global laws, stated over the spec-level
//! transitions (`export_step`, `import_step`, `merge_edges`) and proved once
//! and for all. The executable methods' contracts say they perform exactly
//! those transitions, so these laws carry over to every run.

use crate::graph::{
    export_step, has_edge_sym, import_step, interned_sym, inv, lemma_export_step_inv,
    lemma_import_step_inv, lemma_link_consumers_props, lemma_link_providers_props, merge_edges,
    EdgeV, GraphV,
};
use crate::index::append_entry;
use crate::sanitize::{canonical_form, is_rejected};
use crate::table::{
    find_str, intern_id, intern_tbl, lemma_find_str_at, lemma_find_str_props,
    lemma_intern_distinct, lemma_intern_properties,
};
use vstd::prelude::*;

verus! {

/// The id the raw name `raw` resolves to against the graph's current table.
pub open spec fn sym_of(g: GraphV, raw: Seq<u8>) -> usize {
    interned_sym(g.table, canonical_form(raw))
}

/// Order independence: when file `a` requires a not-yet-seen symbol and file
/// `b` defines it, the edge `a -> b` justified by that symbol is in the
/// resulting graph whichever of the two records is processed first.
pub proof fn lemma_order_independence(g: GraphV, a: usize, b: usize, raw: Seq<u8>, props: Seq<usize>)
    requires
        inv(g),
        a != b,
        !is_rejected(raw, g.reserved),
        !g.providers.dom().contains(sym_of(g, raw)),
        !g.awaiting.dom().contains(sym_of(g, raw)),
    ensures
        has_edge_sym(
            export_step(import_step(g, a, raw), props, b, raw).0.edges,
            a,
            b,
            sym_of(g, raw),
        ),
        has_edge_sym(import_step(export_step(g, props, b, raw).0, a, raw).edges, a, b, sym_of(g, raw)),
{
    let nm = canonical_form(raw);
    let s = sym_of(g, raw);
    lemma_intern_properties(g.table, nm);

    // Consumer first: the requirement is parked, then drained when the
    // provider arrives.
    let g1 = import_step(g, a, raw);
    assert(g1.awaiting[s] == append_entry(g.awaiting, s, a));
    assert(g1.awaiting[s] == seq![a]);
    assert(interned_sym(g1.table, nm) == s);
    lemma_import_step_inv(g, a, raw);
    let g2 = export_step(g1, props, b, raw).0;
    lemma_link_consumers_props(g1.edges, g1.awaiting[s], b, s);
    assert(g1.awaiting[s].contains(a)) by {
        assert(g1.awaiting[s][0] == a);
    }
    assert(has_edge_sym(g2.edges, a, b, s));

    // Provider first: the requirement resolves immediately against the
    // registered provider.
    let h1 = export_step(g, props, b, raw).0;
    assert(h1.providers[s] == append_entry(g.providers, s, b));
    assert(h1.providers[s] == seq![b]);
    assert(interned_sym(h1.table, nm) == s);
    lemma_export_step_inv(g, props, b, raw);
    let h2 = import_step(h1, a, raw);
    lemma_link_providers_props(h1.edges, a, h1.providers[s], s);
    assert(h1.providers[s].contains(b)) by {
        assert(h1.providers[s][0] == b);
    }
    assert(has_edge_sym(h2.edges, a, b, s));
}

/// Multi-symbol accumulation: when file `a` requires two distinct symbols,
/// both later defined by file `b`, the single edge `a -> b` carries both
/// justifications.
pub proof fn lemma_multi_symbol_accumulation(
    g: GraphV,
    a: usize,
    b: usize,
    x: Seq<u8>,
    y: Seq<u8>,
    props: Seq<usize>,
)
    requires
        inv(g),
        a != b,
        g.table.len() + 1 <= usize::MAX,
        !is_rejected(x, g.reserved),
        !is_rejected(y, g.reserved),
        canonical_form(x) != canonical_form(y),
        !g.providers.dom().contains(sym_of(g, x)),
        !g.awaiting.dom().contains(sym_of(g, x)),
        !g.providers.dom().contains(
            interned_sym(intern_tbl(g.table, canonical_form(x)), canonical_form(y)),
        ),
        !g.awaiting.dom().contains(
            interned_sym(intern_tbl(g.table, canonical_form(x)), canonical_form(y)),
        ),
    ensures
        ({
            let g2 = import_step(import_step(g, a, x), a, y);
            let e1 = export_step(g2, props, b, x);
            let gf = export_step(e1.0, e1.1, b, y).0;
            has_edge_sym(gf.edges, a, b, sym_of(g, x)) && has_edge_sym(
                gf.edges,
                a,
                b,
                interned_sym(intern_tbl(g.table, canonical_form(x)), canonical_form(y)),
            )
        }),
{
    let cx = canonical_form(x);
    let cy = canonical_form(y);
    let t = g.table;
    let t1 = intern_tbl(t, cx);
    let sx = interned_sym(t, cx);
    let sy = interned_sym(t1, cy);
    lemma_intern_properties(t, cx);
    lemma_intern_properties(t1, cy);
    lemma_intern_distinct(t, cx, cy);
    assert(0 <= intern_id(t, cx) <= t.len());
    assert(0 <= intern_id(t1, cy) <= t1.len());
    assert(sx as int == intern_id(t, cx));
    assert(sy as int == intern_id(t1, cy));
    assert(sx != sy);
    let t2 = intern_tbl(t1, cy);

    let g1 = import_step(g, a, x);
    assert(g1.table == t1);
    assert(g1.awaiting == g.awaiting.insert(sx, seq![a]));
    lemma_import_step_inv(g, a, x);

    let g2 = import_step(g1, a, y);
    assert(g2.table == t2);
    assert(g2.awaiting == g1.awaiting.insert(sy, seq![a]));
    assert(g2.providers == g.providers);
    lemma_import_step_inv(g1, a, y);

    // `cx` is present in t1 at index sx, so later interning never moves it.
    assert(t1[sx as int] == cx);
    lemma_find_str_props(t1, cx);
    assert(find_str(t2, cx) == sx as int) by {
        if find_str(t1, cx) >= 0 {
            lemma_find_str_at(t1, cx, sx as int);
        }
        if t2 == t1 {
            lemma_find_str_at(t1, cx, sx as int);
        } else {
            lemma_find_str_at(t1, cx, sx as int);
            assert(t2 == t1.push(cy));
            assert(forall|j: int| 0 <= j < t1.len() ==> t2[j] == t1[j]);
            lemma_find_str_at(t2, cx, sx as int);
        }
    }
    assert(interned_sym(t2, cx) == sx);

    let e1 = export_step(g2, props, b, x);
    let g3 = e1.0;
    assert(g2.awaiting.dom().contains(sx));
    assert(g2.awaiting[sx] == seq![a]);
    lemma_link_consumers_props(g2.edges, g2.awaiting[sx], b, sx);
    assert(g2.awaiting[sx].contains(a)) by {
        assert(g2.awaiting[sx][0] == a);
    }
    assert(has_edge_sym(g3.edges, a, b, sx));
    assert(g3.table == intern_tbl(t2, cx));
    assert(g3.table == t2);
    assert(g3.awaiting == g2.awaiting.remove(sx));
    lemma_export_step_inv(g2, props, b, x);

    let gf = export_step(g3, e1.1, b, y).0;
    assert(interned_sym(t2, cy) == sy);
    assert(g3.awaiting.dom().contains(sy));
    assert(g3.awaiting[sy] == seq![a]);
    lemma_link_consumers_props(g3.edges, g3.awaiting[sy], b, sy);
    assert(g3.awaiting[sy].contains(a)) by {
        assert(g3.awaiting[sy][0] == a);
    }
    assert(has_edge_sym(gf.edges, a, b, sy));
    assert(has_edge_sym(gf.edges, a, b, sx));
}

/// Multi-provider fan-out: a consumer that requires a symbol after several
/// files have defined it gains an edge to every one of them at once. (A
/// consumer processed before the providers is linked only to the first one:
/// registering that provider drains the awaiting bucket for good, and later
/// providers create edges only for consumers seen after them.)
pub proof fn lemma_multi_provider_fan_out(
    g: GraphV,
    a: usize,
    b: usize,
    c: usize,
    x: Seq<u8>,
    props: Seq<usize>,
    props2: Seq<usize>,
)
    requires
        inv(g),
        a != b,
        a != c,
        !is_rejected(x, g.reserved),
        !g.providers.dom().contains(sym_of(g, x)),
        !g.awaiting.dom().contains(sym_of(g, x)),
    ensures
        ({
            let gf = import_step(
                export_step(export_step(g, props, b, x).0, props2, c, x).0,
                a,
                x,
            );
            has_edge_sym(gf.edges, a, b, sym_of(g, x)) && has_edge_sym(gf.edges, a, c, sym_of(g, x))
        }),
{
    let cx = canonical_form(x);
    let t = g.table;
    let sx = sym_of(g, x);
    lemma_intern_properties(t, cx);
    let t1 = intern_tbl(t, cx);

    let h1 = export_step(g, props, b, x).0;
    assert(h1.table == t1);
    assert(h1.providers[sx] == seq![b]);
    assert(h1.awaiting == g.awaiting);
    lemma_export_step_inv(g, props, b, x);

    let h2 = export_step(h1, props2, c, x).0;
    assert(interned_sym(t1, cx) == sx);
    assert(h2.table == t1);
    assert(h2.providers[sx] == seq![b].push(c));
    assert(h2.awaiting == g.awaiting);
    lemma_export_step_inv(h1, props2, c, x);

    let gf = import_step(h2, a, x);
    assert(h2.providers.dom().contains(sx));
    lemma_link_providers_props(h2.edges, a, h2.providers[sx], sx);
    assert(h2.providers[sx].contains(b)) by {
        assert(h2.providers[sx][0] == b);
    }
    assert(h2.providers[sx].contains(c)) by {
        assert(h2.providers[sx][1] == c);
    }
    assert(has_edge_sym(gf.edges, a, b, sx));
    assert(has_edge_sym(gf.edges, a, c, sx));
}

/// Merge idempotence: merging strips every justification list and keeps every
/// endpoint pair, and merging twice is the same as merging once. Nodes are
/// untouched by the executable `merge`, whose contract changes only `edges`.
pub proof fn lemma_merge_idempotent(edges: Seq<EdgeV>)
    ensures
        merge_edges(merge_edges(edges)) == merge_edges(edges),
        merge_edges(edges).len() == edges.len(),
        forall|i: int|
            0 <= i < edges.len() ==> (#[trigger] merge_edges(edges)[i]).src == edges[i].src
                && merge_edges(edges)[i].dst == edges[i].dst && merge_edges(edges)[i].syms
                == Seq::<usize>::empty(),
{
    assert(merge_edges(merge_edges(edges)) =~~= merge_edges(edges));
}

/// No self-resolution: under the graph invariant no edge links a file to
/// itself, and both ingestion steps keep it so — in particular a file that
/// defines and requires the same symbol gains no self-loop edge.
pub proof fn lemma_no_self_loops(g: GraphV, props: Seq<usize>, file: usize, raw: Seq<u8>)
    requires
        inv(g),
    ensures
        forall|i: int| 0 <= i < g.edges.len() ==> (#[trigger] g.edges[i]).src != g.edges[i].dst,
        forall|i: int|
            0 <= i < export_step(g, props, file, raw).0.edges.len() ==> (#[trigger] export_step(
                g,
                props,
                file,
                raw,
            ).0.edges[i]).src != export_step(g, props, file, raw).0.edges[i].dst,
        forall|i: int|
            0 <= i < import_step(g, file, raw).edges.len() ==> (#[trigger] import_step(
                g,
                file,
                raw,
            ).edges[i]).src != import_step(g, file, raw).edges[i].dst,
{
    lemma_export_step_inv(g, props, file, raw);
    lemma_import_step_inv(g, file, raw);
}

} // verus!
