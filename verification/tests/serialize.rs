use symgraph::graph::{Graph, SubGraph, SymbolRecord};

fn rec(name: &str, defined: bool) -> SymbolRecord {
    SymbolRecord { name: name.as_bytes().to_vec(), defined }
}

fn ingest(g: &mut Graph, file: &str, records: Vec<SymbolRecord>) -> bool {
    g.ingest_file(&file.as_bytes().to_vec(), &records)
}

#[test]
fn end_to_end_provider_first() {
    let mut g = Graph::new(Vec::new());
    ingest(&mut g, "liba.so", vec![rec("foo", true)]);
    ingest(&mut g, "libb.so", vec![rec("foo", false)]);
    let out = String::from_utf8(g.to_dot()).unwrap();
    assert_eq!(
        out,
        "digraph  {\n    n0 [label=\"liba_so\"]\n    n2 [label=\"libb_so\"]\n    n2 -> n0 [label=\"foo\"]\n}\n",
    );
}

#[test]
fn end_to_end_reverse_order_same_edge_set() {
    let mut g = Graph::new(Vec::new());
    ingest(&mut g, "libb.so", vec![rec("foo", false)]);
    ingest(&mut g, "liba.so", vec![rec("foo", true)]);
    // Same nodes and same edge as in the provider-first run, by name.
    assert_eq!(g.node_count(), 2);
    assert_eq!(g.edge_count(), 1);
    let (src, dst) = g.edge_endpoints(0);
    assert_eq!(g.resolve(src), Some(&b"libb_so".to_vec()));
    assert_eq!(g.resolve(dst), Some(&b"liba_so".to_vec()));
    let syms = g.edge_symbols(0);
    assert_eq!(syms.len(), 1);
    assert_eq!(g.resolve(syms[0]), Some(&b"foo".to_vec()));
    let out = String::from_utf8(g.to_dot()).unwrap();
    assert_eq!(
        out,
        "digraph  {\n    n0 [label=\"libb_so\"]\n    n2 [label=\"liba_so\"]\n    n0 -> n2 [label=\"foo\"]\n}\n",
    );
}

#[test]
fn multi_symbol_edge_renders_parallel_lines() {
    let mut g = Graph::new(b"deps".to_vec());
    ingest(&mut g, "a.so", vec![rec("x", false), rec("y", false)]);
    ingest(&mut g, "b.so", vec![rec("x", true), rec("y", true)]);
    let out = String::from_utf8(g.to_dot()).unwrap();
    assert_eq!(
        out,
        "digraph deps {\n    n0 [label=\"a_so\"]\n    n3 [label=\"b_so\"]\n    n0 -> n3 [label=\"x\"]\n    n0 -> n3 [label=\"y\"]\n}\n",
    );
}

#[test]
fn merged_edge_renders_one_unlabeled_line() {
    let mut g = Graph::new(Vec::new());
    ingest(&mut g, "a.so", vec![rec("x", false), rec("y", false)]);
    ingest(&mut g, "b.so", vec![rec("x", true), rec("y", true)]);
    g.merge();
    let out = String::from_utf8(g.to_dot()).unwrap();
    assert_eq!(
        out,
        "digraph  {\n    n0 [label=\"a_so\"]\n    n3 [label=\"b_so\"]\n    n0 -> n3\n}\n",
    );
}

#[test]
fn clusters_render_as_subgraph_blocks() {
    let mut g = Graph::new(b"g".to_vec());
    ingest(&mut g, "a.so", vec![]);
    // A cluster named by an unresolvable id renders anonymously; its member
    // node ids render with labels when they resolve and bare otherwise.
    let mut anon = SubGraph::new(1000);
    anon.insert(0);
    anon.insert(17);
    anon.insert(0);
    g.add_cluster(anon);
    let out = String::from_utf8(g.to_dot()).unwrap();
    assert_eq!(
        out,
        "digraph g {\n    subgraph {\n        n0 [label=\"a_so\"]\n        n17\n    }\n    n0 [label=\"a_so\"]\n}\n",
    );
}

#[test]
fn decimal_ids_render_with_all_digits() {
    let mut g = Graph::new(Vec::new());
    // Intern enough names that ids reach two digits.
    let mut recs = Vec::new();
    for i in 0..12 {
        recs.push(rec(&format!("sym{}", i), true));
    }
    ingest(&mut g, "big.so", recs);
    ingest(&mut g, "user.so", vec![rec("sym11", false)]);
    let out = String::from_utf8(g.to_dot()).unwrap();
    // "big_so" is id 0, its symbols are 1..=12, "user_so" is 13.
    assert!(out.contains("    n13 -> n0 [label=\"sym11\"]\n"), "output was:\n{out}");
    assert!(out.contains("    n13 [label=\"user_so\"]\n"), "output was:\n{out}");
}
