use eoautomata::eoa::parse;
use eoautomata::models::{Automata, Connection, Node};

fn node(name: &str, acceptor: bool) -> Node {
    Node { id: 0, name: name.to_string(), acceptor }
}

#[test]
fn fresh_nodes_get_increasing_ids() {
    let mut a = Automata::default();
    let ida = a.push_or_merge_node(node("A", false)).unwrap();
    let idb = a.push_or_merge_node(node("B", true)).unwrap();
    assert_eq!(ida, 1);
    assert_eq!(idb, 2);
    assert_eq!(a.nodes().len(), 2);
}

#[test]
fn merging_a_seen_name_keeps_its_id() {
    let mut a = Automata::default();
    let first = a.push_or_merge_node(node("A", true)).unwrap();
    let again = a.push_or_merge_node(node("A", true)).unwrap();
    assert_eq!(first, again);
    assert_eq!(a.nodes().len(), 1);
}

#[test]
fn merging_with_other_acceptor_flag_is_refused() {
    let mut a = Automata::default();
    a.push_or_merge_node(node("A", true)).unwrap();
    assert!(a.push_or_merge_node(node("A", false)).is_err());
    assert_eq!(a.nodes().len(), 1);
}

#[test]
fn connection_symbols_concatenate_in_order() {
    let mut a = Automata::default();
    let ida = a.push_or_merge_node(node("A", false)).unwrap();
    let idb = a.push_or_merge_node(node("B", false)).unwrap();
    let c1 = Connection { id: 0, from: ida, to: idb, symbols: vec!["x".to_string()] };
    let c2 = Connection {
        id: 0,
        from: ida,
        to: idb,
        symbols: vec!["y".to_string(), "x".to_string()],
    };
    let cid1 = a.push_or_merge_connection(c1).unwrap();
    let cid2 = a.push_or_merge_connection(c2).unwrap();
    assert_eq!(cid1, cid2);
    assert_eq!(a.connections().len(), 1);
    assert_eq!(
        a.connections()[0].symbols,
        vec!["x".to_string(), "y".to_string(), "x".to_string()]
    );
}

#[test]
fn opposite_direction_is_another_connection() {
    let mut a = Automata::default();
    let ida = a.push_or_merge_node(node("A", false)).unwrap();
    let idb = a.push_or_merge_node(node("B", false)).unwrap();
    a.push_or_merge_connection(Connection { id: 0, from: ida, to: idb, symbols: vec![] })
        .unwrap();
    a.push_or_merge_connection(Connection { id: 0, from: idb, to: ida, symbols: vec![] })
        .unwrap();
    assert_eq!(a.connections().len(), 2);
}

#[test]
fn get_node_finds_by_id() {
    let mut a = Automata::default();
    let ida = a.push_or_merge_node(node("A", false)).unwrap();
    let idb = a.push_or_merge_node(node("B", true)).unwrap();
    assert_eq!(a.get_node(ida).name, "A");
    assert_eq!(a.get_node(idb).name, "B");
}

#[test]
fn set_input_swaps_to_front() {
    let mut a = Automata::default();
    a.push_or_merge_node(node("A", false)).unwrap();
    a.push_or_merge_node(node("B", false)).unwrap();
    a.set_input(1);
    assert_eq!(a.nodes()[0].name, "B");
    assert_eq!(a.nodes()[1].name, "A");
}

#[test]
fn defragment_renumbers_densely() {
    let mut a = parse("-> (A)^x (A) -y,z-> B").unwrap();
    a.defragment_ids();
    let nodes = a.nodes();
    assert_eq!(nodes[0].id, 0);
    assert_eq!(nodes[1].id, 1);
    let conns = a.connections();
    assert_eq!(conns[0].id, 0);
    assert_eq!(conns[1].id, 1);
    assert_eq!(conns[0].from, 0);
    assert_eq!(conns[0].to, 0);
    assert_eq!(conns[1].from, 0);
    assert_eq!(conns[1].to, 1);
}

#[test]
fn defragment_twice_equals_once() {
    let mut a = parse("C -p-> D\n-> (E)^q C -r-> (E)").unwrap();
    a.defragment_ids();
    let once: Vec<(usize, String, bool)> =
        a.nodes().iter().map(|n| (n.id, n.name.clone(), n.acceptor)).collect();
    let once_conns: Vec<(usize, usize, usize, Vec<String>)> = a
        .connections()
        .iter()
        .map(|c| (c.id, c.from, c.to, c.symbols.clone()))
        .collect();
    a.defragment_ids();
    let twice: Vec<(usize, String, bool)> =
        a.nodes().iter().map(|n| (n.id, n.name.clone(), n.acceptor)).collect();
    let twice_conns: Vec<(usize, usize, usize, Vec<String>)> = a
        .connections()
        .iter()
        .map(|c| (c.id, c.from, c.to, c.symbols.clone()))
        .collect();
    assert_eq!(once, twice);
    assert_eq!(once_conns, twice_conns);
}

#[test]
fn graphviz_output_exact() {
    let a = parse("-> (A)^x (A) -y,z-> B").unwrap();
    let mut gv = String::new();
    a.write_graphviz(&mut gv);
    let expected = "digraph {\n    rankdir = LR\n    splines = line\n    n0 [label=\"\",shape=none,height=.0,width=.0]\n    node [shape=\"doublecircle\"]\n    \"A\"\n    node [shape=\"circle\"]\n    n0 -> \"A\"\n    \"A\" -> \"A\" [label=\"x\"]\n    \"A\" -> \"B\" [label=\"y,z\"]\n}\n";
    assert_eq!(gv, expected);
}

#[test]
fn graphviz_appends_after_existing_text() {
    let a = parse("A").unwrap();
    let mut gv = String::from("x");
    a.write_graphviz(&mut gv);
    assert!(gv.starts_with("xdigraph {"));
    assert!(gv.contains("n0 -> \"A\""));
}
