use symgraph::graph::{Graph, SymbolRecord};

fn rec(name: &str, defined: bool) -> SymbolRecord {
    SymbolRecord { name: name.as_bytes().to_vec(), defined }
}

fn ingest(g: &mut Graph, file: &str, records: Vec<SymbolRecord>) -> bool {
    g.ingest_file(&file.as_bytes().to_vec(), &records)
}

/// The set of edges as resolved (consumer name, provider name, symbol names).
fn named_edges(g: &Graph) -> Vec<(Vec<u8>, Vec<u8>, Vec<Vec<u8>>)> {
    let mut out = Vec::new();
    for i in 0..g.edge_count() {
        let (src, dst) = g.edge_endpoints(i);
        let syms = g
            .edge_symbols(i)
            .iter()
            .map(|s| g.resolve(*s).expect("symbol id must resolve").clone())
            .collect::<Vec<_>>();
        out.push((
            g.resolve(src).expect("node id must resolve").clone(),
            g.resolve(dst).expect("node id must resolve").clone(),
            syms,
        ));
    }
    out
}

#[test]
fn order_independence_consumer_first() {
    let mut g = Graph::new(Vec::new());
    ingest(&mut g, "a.so", vec![rec("x", false)]);
    ingest(&mut g, "b.so", vec![rec("x", true)]);
    let edges = named_edges(&g);
    assert_eq!(edges, vec![(b"a_so".to_vec(), b"b_so".to_vec(), vec![b"x".to_vec()])]);
}

#[test]
fn order_independence_provider_first() {
    let mut g = Graph::new(Vec::new());
    ingest(&mut g, "b.so", vec![rec("x", true)]);
    ingest(&mut g, "a.so", vec![rec("x", false)]);
    let edges = named_edges(&g);
    assert_eq!(edges, vec![(b"a_so".to_vec(), b"b_so".to_vec(), vec![b"x".to_vec()])]);
}

#[test]
fn multi_symbol_accumulation() {
    let mut g = Graph::new(Vec::new());
    ingest(&mut g, "a.so", vec![rec("x", false), rec("y", false)]);
    ingest(&mut g, "b.so", vec![rec("x", true), rec("y", true)]);
    let edges = named_edges(&g);
    assert_eq!(
        edges,
        vec![(b"a_so".to_vec(), b"b_so".to_vec(), vec![b"x".to_vec(), b"y".to_vec()])],
    );
}

#[test]
fn multi_provider_fan_out_consumer_last() {
    let mut g = Graph::new(Vec::new());
    ingest(&mut g, "b.so", vec![rec("x", true)]);
    ingest(&mut g, "c.so", vec![rec("x", true)]);
    ingest(&mut g, "a.so", vec![rec("x", false)]);
    let mut edges = named_edges(&g);
    edges.sort();
    assert_eq!(
        edges,
        vec![
            (b"a_so".to_vec(), b"b_so".to_vec(), vec![b"x".to_vec()]),
            (b"a_so".to_vec(), b"c_so".to_vec(), vec![b"x".to_vec()]),
        ],
    );
}

#[test]
fn late_provider_gains_no_retroactive_edge() {
    // The first provider drains the awaiting bucket for good: a provider
    // arriving after the consumer was already resolved gains no edge.
    let mut g = Graph::new(Vec::new());
    ingest(&mut g, "a.so", vec![rec("x", false)]);
    ingest(&mut g, "b.so", vec![rec("x", true)]);
    ingest(&mut g, "c.so", vec![rec("x", true)]);
    let edges = named_edges(&g);
    assert_eq!(edges, vec![(b"a_so".to_vec(), b"b_so".to_vec(), vec![b"x".to_vec()])]);
}

#[test]
fn merge_is_idempotent_and_keeps_connectivity() {
    let mut g = Graph::new(Vec::new());
    ingest(&mut g, "a.so", vec![rec("x", false), rec("y", false)]);
    ingest(&mut g, "b.so", vec![rec("x", true), rec("y", true)]);
    let nodes_before = g.node_count();
    let edges_before = g.edge_count();
    g.merge();
    assert_eq!(g.node_count(), nodes_before);
    assert_eq!(g.edge_count(), edges_before);
    for i in 0..g.edge_count() {
        assert!(g.edge_symbols(i).is_empty());
    }
    let once = g.to_dot();
    g.merge();
    assert_eq!(g.to_dot(), once);
}

#[test]
fn no_self_loop_from_self_resolution() {
    let mut g = Graph::new(Vec::new());
    // One file both defines and requires the same symbol, in both orders.
    ingest(&mut g, "a.so", vec![rec("x", true), rec("x", false)]);
    ingest(&mut g, "b.so", vec![rec("y", false), rec("y", true)]);
    assert_eq!(g.edge_count(), 0);
    for i in 0..g.edge_count() {
        let (src, dst) = g.edge_endpoints(i);
        assert_ne!(src, dst);
    }
}

#[test]
fn rejected_file_name_contributes_nothing() {
    let mut g = Graph::new(Vec::new());
    assert!(!ingest(&mut g, "_GLOBAL_OFFSET_TABLE_", vec![rec("x", true)]));
    assert!(!ingest(&mut g, "", vec![]));
    assert_eq!(g.node_count(), 0);
    assert_eq!(g.edge_count(), 0);
}

#[test]
fn rejected_symbols_are_skipped_silently() {
    let mut g = Graph::new(Vec::new());
    assert!(ingest(
        &mut g,
        "a.so",
        vec![rec(".LC0", true), rec("_reserved", true), rec("kept", true)],
    ));
    assert_eq!(g.node_count(), 1);
    let syms = g.node_symbols(0);
    assert_eq!(syms.len(), 1);
    assert_eq!(g.resolve(syms[0]), Some(&b"kept".to_vec()));
}

#[test]
fn colliding_names_share_one_node() {
    // A file name and a symbol name that sanitize to the same string collide
    // to the same canonical id, hence the same node.
    let mut g = Graph::new(Vec::new());
    ingest(&mut g, "x", vec![]);
    ingest(&mut g, "a.so", vec![rec("x", false)]);
    ingest(&mut g, "b.so", vec![rec("x", true)]);
    // "x" the file and "x" the symbol are one id.
    let file_x = g.node_id(0);
    assert_eq!(g.resolve(file_x), Some(&b"x".to_vec()));
    let (_, _) = g.edge_endpoints(0);
    let edge_syms = g.edge_symbols(0);
    assert_eq!(edge_syms[0], file_x);
}

#[test]
fn reserved_prefix_policy_is_configurable() {
    let mut g = Graph::new(Vec::new());
    g.set_reserved_prefix_len(2);
    assert!(ingest(&mut g, "a.so", vec![rec("_once", true), rec("__twice", true)]));
    let syms = g.node_symbols(0);
    assert_eq!(syms.len(), 1);
    assert_eq!(g.resolve(syms[0]), Some(&b"_once".to_vec()));
}
