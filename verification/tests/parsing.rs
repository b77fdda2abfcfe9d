use eoautomata::eoa::{parse, EoaError, StructureKind};

#[test]
fn merge_conflict_on_acceptor_disagreement() {
    let e = parse("X (X)").unwrap_err();
    assert_eq!(e, EoaError::MergeConflict);
}

#[test]
fn merge_conflict_across_lines() {
    let e = parse("(X)\nA -s> X").unwrap_err();
    assert_eq!(e, EoaError::MergeConflict);
}

#[test]
fn second_start_marker_fails() {
    let e = parse("-> A\n-> B").unwrap_err();
    assert_eq!(e, EoaError::Structure(StructureKind::SecondStart));
}

#[test]
fn second_start_marker_fails_with_nodes_between() {
    let e = parse("-> A B C D\nE F ->").unwrap_err();
    assert_eq!(e, EoaError::Structure(StructureKind::SecondStart));
}

#[test]
fn repeated_connections_concatenate() {
    let a = parse("A -x-> B\nA -y-> B").unwrap();
    let conns = a.connections();
    assert_eq!(conns.len(), 1);
    assert_eq!(conns[0].symbols, vec!["x".to_string(), "y".to_string()]);
    let from = a.get_node(conns[0].from);
    let to = a.get_node(conns[0].to);
    assert_eq!(from.name, "A");
    assert_eq!(to.name, "B");
}

#[test]
fn selfloop_suffix_yields_acceptor_and_loop() {
    let a = parse("(S)^a,b").unwrap();
    let nodes = a.nodes();
    assert_eq!(nodes.len(), 1);
    assert_eq!(nodes[0].name, "S");
    assert!(nodes[0].acceptor);
    let conns = a.connections();
    assert_eq!(conns.len(), 1);
    assert_eq!(conns[0].from, nodes[0].id);
    assert_eq!(conns[0].to, nodes[0].id);
    assert_eq!(conns[0].symbols, vec!["a".to_string(), "b".to_string()]);
}

#[test]
fn end_to_end_start_selfloop_and_connection() {
    let a = parse("-> (A)^x (A) -y,z-> B").unwrap();
    let nodes = a.nodes();
    assert_eq!(nodes.len(), 2);
    assert_eq!(nodes[0].name, "A");
    assert!(nodes[0].acceptor);
    assert_eq!(nodes[1].name, "B");
    assert!(!nodes[1].acceptor);
    let conns = a.connections();
    assert_eq!(conns.len(), 2);
    assert_eq!(conns[0].from, nodes[0].id);
    assert_eq!(conns[0].to, nodes[0].id);
    assert_eq!(conns[0].symbols, vec!["x".to_string()]);
    assert_eq!(conns[1].from, nodes[0].id);
    assert_eq!(conns[1].to, nodes[1].id);
    assert_eq!(conns[1].symbols, vec!["y".to_string(), "z".to_string()]);
}

#[test]
fn end_to_end_plain_reuse_of_acceptor_name_conflicts() {
    let e = parse("-> (A)^x A -y,z-> B").unwrap_err();
    assert_eq!(e, EoaError::MergeConflict);
}

#[test]
fn arrow_behind_nothing_fails_before_any_merge() {
    let e = parse("-a> B").unwrap_err();
    assert_eq!(e, EoaError::Structure(StructureKind::ArrowBehindNothing));
}

#[test]
fn arrow_directly_after_start_marker_fails() {
    let e = parse("A -> -x> B").unwrap_err();
    assert_eq!(e, EoaError::Structure(StructureKind::ArrowAfterStart));
}

#[test]
fn trailing_start_marker_parses() {
    let a = parse("A ->").unwrap();
    assert_eq!(a.nodes().len(), 1);
    assert_eq!(a.nodes()[0].name, "A");
    assert!(a.connections().is_empty());
}

#[test]
fn empty_input_yields_empty_store() {
    let a = parse("").unwrap();
    assert!(a.nodes().is_empty());
    assert!(a.connections().is_empty());
}

#[test]
fn whitespace_and_blank_lines_are_skipped() {
    let a = parse("  A \t -x>   B \n\n  C  \n").unwrap();
    let nodes = a.nodes();
    assert_eq!(nodes.len(), 3);
    assert_eq!(nodes[0].name, "A");
    assert_eq!(nodes[1].name, "B");
    assert_eq!(nodes[2].name, "C");
    assert_eq!(a.connections().len(), 1);
    assert_eq!(a.connections()[0].symbols, vec!["x".to_string()]);
}

#[test]
fn line_break_resets_pending_connection() {
    let a = parse("A -x>\nB").unwrap();
    assert_eq!(a.nodes().len(), 2);
    assert!(a.connections().is_empty());
}

#[test]
fn start_marker_midline_marks_next_node() {
    let a = parse("A -> B").unwrap();
    let nodes = a.nodes();
    assert_eq!(nodes.len(), 2);
    assert_eq!(nodes[0].name, "B");
    assert_eq!(nodes[1].name, "A");
    assert!(a.connections().is_empty());
}

#[test]
fn token_error_aborts_whole_run() {
    let e = parse("A -x> B\n(C").unwrap_err();
    assert_eq!(
        e,
        EoaError::TokenFormat(eoautomata::eoa::TokenFormatKind::MissingClosingDelimiter)
    );
}

#[test]
fn empty_interior_arrow_connects_with_empty_symbol() {
    let a = parse("A --> B").unwrap();
    assert_eq!(a.connections().len(), 1);
    assert_eq!(a.connections()[0].symbols, vec![String::new()]);
}
