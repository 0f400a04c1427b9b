// Shared sanity checks for the builder surface.

use stack_graphs::graph::StackGraph;

#[test]
fn builder_interns_symbols_once() {
    let mut g = StackGraph::new();
    let a = g.symbol("dot");
    let b = g.symbol("dot");
    let c = g.symbol("other");
    assert_eq!(a, b);
    assert_ne!(a, c);
}

#[test]
fn builder_files_and_nodes() {
    let mut g = StackGraph::new();
    let f = g.file("main.py");
    let s = g.symbol("x");
    let d = g.definition(f, 0, s);
    let r = g.reference(f, 1, s);
    assert_eq!(g.get_file_unchecked("main.py"), f);
    assert!(g.is_definition(d));
    assert!(g.is_reference(r));
    assert!(!g.is_reference(d));
    assert_eq!(g.num_nodes(), 3);
}

#[test]
fn duplicate_edges_are_idempotent() {
    let mut g = StackGraph::new();
    let f = g.file("f");
    let s = g.symbol("x");
    let d = g.definition(f, 0, s);
    let root = g.root_node();
    g.edge(root, d);
    g.edge(root, d);
    let refs: Vec<usize> = vec![];
    // nothing to search, but the graph stays well formed
    let (rs, complete) = stack_graphs::paths::find_all_paths(&g, &refs, 1000);
    assert!(complete);
    assert_eq!(rs.len(), 0);
}
