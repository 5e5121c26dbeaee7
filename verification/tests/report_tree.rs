use tt_cli::report::ReportNode;

#[test]
fn two_branches_share_a_root() {
    // ("work coding", 60) and ("work meeting", 30): the root aggregates 90
    // and keeps two children; no single-child collapse applies.
    let mut root = ReportNode::new(&["work", "coding"], 60);
    root.extend(&["meeting"], 30);
    assert_eq!(root.note, "work");
    assert_eq!(root.act, 90);
    assert_eq!(root.children.len(), 2);
    assert_eq!(root.children[0].note, "coding");
    assert_eq!(root.children[0].act, 60);
    assert_eq!(root.children[1].note, "meeting");
    assert_eq!(root.children[1].act, 30);

    root.collapse();
    assert_eq!(root.note, "work");
    assert_eq!(root.act, 90);
    assert_eq!(root.children.len(), 2);
    assert_eq!(root.children[0].note, "coding");
    assert_eq!(root.children[0].act, 60);
    assert_eq!(root.children[1].note, "meeting");
    assert_eq!(root.children[1].act, 30);
}

#[test]
fn single_chain_collapses_to_one_node() {
    // A tree built from ("work coding", 60) alone collapses into a single
    // node named "work coding" with no children.
    let mut root = ReportNode::new(&["work", "coding"], 60);
    root.collapse();
    assert_eq!(root.note, "work coding");
    assert_eq!(root.act, 60);
    assert!(root.is_leaf());
}

#[test]
fn deep_chain_collapses_transparently() {
    let mut root = ReportNode::new(&["a", "b", "c", "d"], 5);
    root.collapse();
    assert_eq!(root.note, "a b c d");
    assert_eq!(root.act, 5);
    assert!(root.is_leaf());
}

#[test]
fn collapse_needs_matching_duration() {
    // The sole child carries only part of the root's time: no merge.
    let mut root = ReportNode::new(&["work", "coding"], 60);
    root.extend(&[], 15);
    assert_eq!(root.act, 75);
    root.collapse();
    assert_eq!(root.note, "work");
    assert_eq!(root.children.len(), 1);
    assert_eq!(root.children[0].note, "coding");
}

#[test]
fn extend_accumulates_on_existing_path() {
    let mut root = ReportNode::new(&["work", "coding"], 60);
    root.extend(&["coding"], 30);
    assert_eq!(root.act, 90);
    assert_eq!(root.children.len(), 1);
    assert_eq!(root.children[0].note, "coding");
    assert_eq!(root.children[0].act, 90);
}

#[test]
fn duration_rendering() {
    // 125 minutes render as "2:05" in hours mode and "125" otherwise.
    let node = ReportNode { children: Vec::new(), note: "work".to_string(), act: 125 };
    assert_eq!(node.to_string(true, false), "2:05  work");
    assert_eq!(node.to_string(false, false), "125  work");
}

#[test]
fn rendering_indents_children() {
    let mut root = ReportNode::new(&["work", "coding"], 60);
    root.extend(&["meeting"], 30);
    let text = root.to_string(false, false);
    assert_eq!(text, "90  work\n  60  coding\n  30  meeting");
    let hours = root.to_string(true, false);
    assert_eq!(hours, "1:30  work\n  1:00  coding\n  0:30  meeting");
    let top = root.to_string(false, true);
    assert_eq!(top, "90  work");
}

#[test]
fn rendering_nested_levels() {
    let mut root = ReportNode::new(&["a", "b"], 10);
    root.extend(&["b", "c"], 7);
    let text = root.to_string(false, false);
    assert_eq!(text, "17  a\n  17  b\n    7  c");
}

#[test]
fn zero_and_negative_durations_render() {
    let node = ReportNode { children: Vec::new(), note: "n".to_string(), act: 0 };
    assert_eq!(node.to_string(true, false), "0:00  n");
    assert_eq!(node.to_string(false, false), "0  n");
    let node = ReportNode { children: Vec::new(), note: "n".to_string(), act: -125 };
    assert_eq!(node.to_string(true, false), "-2:05  n");
    assert_eq!(node.to_string(false, false), "-125  n");
}
