use egui_ailanthus::{Node, PendingReveal, TreeBuilder, TreeViewState};

#[test]
fn collapsed_branches_record_no_rows() {
    let mut state: TreeViewState<u32> = TreeViewState::new();
    state.collapse(1);
    let mut tree = TreeBuilder::new();
    assert!(!tree.dir(&state, Node::new(1)));
    tree.leaf(&state, Node::new(2));
    assert!(tree.dir(&state, Node::new(3)));
    tree.leaf(&state, Node::new(4));
    tree.close_dir();
    tree.close_dir();
    tree.leaf(&state, Node::new(5));
    let ids: Vec<u32> = tree.rows().iter().map(|r| r.info.id).collect();
    assert_eq!(ids, vec![1, 5]);
}

#[test]
fn rows_know_depth_parent_and_openness() {
    let state: TreeViewState<u32> = TreeViewState::new();
    let mut tree = TreeBuilder::new();
    assert_eq!(tree.parent_id(), None);
    tree.dir(&state, Node::new(1));
    assert_eq!(tree.parent_id(), Some(&1));
    tree.dir(&state, Node::new(2).default_open(false));
    assert_eq!(tree.parent_id(), Some(&2));
    tree.leaf(&state, Node::new(3));
    tree.close_dir();
    tree.leaf(&state, Node::new(4));
    tree.close_dir();
    assert_eq!(tree.parent_id(), None);
    let rows = tree.rows();
    assert_eq!(rows.len(), 3);
    assert_eq!((rows[0].info.id, rows[0].depth, rows[0].parent, rows[0].open, rows[0].info.is_dir), (1, 0, None, true, true));
    assert_eq!((rows[1].info.id, rows[1].depth, rows[1].parent, rows[1].open), (2, 1, Some(1), false));
    assert_eq!((rows[2].info.id, rows[2].depth, rows[2].parent, rows[2].info.is_dir), (4, 1, Some(1), false));
}

#[test]
fn close_dir_without_open_dir_is_harmless() {
    let state: TreeViewState<u32> = TreeViewState::new();
    let mut tree = TreeBuilder::new();
    tree.close_dir();
    tree.leaf(&state, Node::new(1));
    assert_eq!(tree.rows()[0].depth, 0);
}

#[test]
fn pending_reveal_matches_with_its_ancestors_even_when_hidden() {
    let mut state: TreeViewState<u32> = TreeViewState::new();
    state.collapse(1);
    state.reveal_node(3);
    let mut tree = TreeBuilder::new();
    tree.dir(&state, Node::new(1));
    tree.dir(&state, Node::new(2));
    tree.leaf(&state, Node::new(3));
    tree.close_dir();
    tree.close_dir();
    let output = tree.finish(&mut state);
    let reveal = output.reveal.expect("the target was met");
    assert_eq!(reveal.id, 3);
    assert!(!reveal.is_dir);
    assert!(reveal.select);
    assert_eq!(reveal.ancestors, vec![1, 2]);
    assert_eq!(output.rows.len(), 1);
    // The matched request is consumed.
    assert!(state.pending_reveal().is_none());
}

#[test]
fn unmatched_reveal_stays_pending() {
    let mut state: TreeViewState<u32> = TreeViewState::new();
    state.expand_parents_of(42);
    let mut tree = TreeBuilder::new();
    tree.leaf(&state, Node::new(1));
    let output = tree.finish(&mut state);
    assert!(output.reveal.is_none());
    assert!(matches!(state.pending_reveal(), Some(PendingReveal::ExpandParents(42))));
}

#[test]
fn close_dir_after_balanced_calls_restores_parent_and_openness() {
    let mut state: TreeViewState<u32> = TreeViewState::new();
    state.collapse(7);
    let mut tree = TreeBuilder::new();
    tree.dir(&state, Node::new(1));
    let parent_before = tree.parent_id().cloned();
    let open_before = tree.parents_open();
    // A closed directory, then a balanced run of calls inside it.
    assert!(!tree.dir(&state, Node::new(7)));
    tree.dir(&state, Node::new(8));
    tree.leaf(&state, Node::new(9));
    tree.close_dir();
    tree.leaf(&state, Node::new(10));
    assert!(!tree.parents_open());
    tree.close_dir();
    assert_eq!(tree.parent_id().cloned(), parent_before);
    assert_eq!(tree.parents_open(), open_before);
    assert_eq!(parent_before, Some(1));
    assert!(open_before);
}

#[test]
fn hidden_descendants_get_no_row_yet_match_a_reveal() {
    let mut state: TreeViewState<u32> = TreeViewState::new();
    state.collapse(1);
    state.reveal_node(4);
    let mut tree = TreeBuilder::new();
    tree.leaf(&state, Node::new(0));
    assert!(!tree.dir(&state, Node::new(1)));
    let rows_after_dir = tree.rows().len();
    tree.dir(&state, Node::new(2));
    tree.leaf(&state, Node::new(3));
    tree.close_dir();
    tree.leaf(&state, Node::new(4));
    tree.close_dir();
    assert_eq!(tree.rows().len(), rows_after_dir);
    let output = tree.finish(&mut state);
    let ids: Vec<u32> = output.rows.iter().map(|r| r.info.id).collect();
    assert_eq!(ids, vec![0, 1]);
    let reveal = output.reveal.expect("the hidden target was met");
    assert_eq!(reveal.id, 4);
    assert_eq!(reveal.ancestors, vec![1]);
}
