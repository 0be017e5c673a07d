use egui_ailanthus::{PendingReveal, TreeViewState};

#[test]
fn fresh_state_is_empty() {
    let state: TreeViewState<u32> = TreeViewState::new();
    assert!(state.selected().is_empty());
    assert_eq!(state.is_open(&7), None);
    assert_eq!(state.cursor(), None);
    assert_eq!(state.pivot(), None);
    assert!(state.pending_reveal().is_none());
    assert!(state.openness_entries().is_empty());
}

#[test]
fn openness_is_read_back_per_id() {
    let mut state: TreeViewState<u32> = TreeViewState::new();
    state.expand(1);
    state.collapse(2);
    assert_eq!(state.is_open(&1), Some(true));
    assert_eq!(state.is_open(&2), Some(false));
    state.set_openness(1, false);
    assert_eq!(state.is_open(&1), Some(false));
    assert_eq!(state.is_open(&2), Some(false));
    assert_eq!(state.is_open(&3), None);
    // One entry per id, whatever the number of writes.
    assert_eq!(state.openness_entries().len(), 2);
}

#[test]
fn toggle_selected_adds_then_removes_first_occurrence() {
    let mut state: TreeViewState<u64> = TreeViewState::new();
    state.set_selected(vec![4, 5, 4]);
    state.toggle_selected(4);
    assert_eq!(state.selected(), [5, 4]);
    state.toggle_selected(9);
    assert_eq!(state.selected(), [5, 4, 9]);
    assert!(state.is_selected(&9));
    assert!(!state.is_selected(&1));
}

#[test]
fn toggle_twice_restores_selection() {
    let mut state: TreeViewState<u32> = TreeViewState::new();
    state.set_selected(vec![1, 2]);
    state.toggle_selected(3);
    state.toggle_selected(3);
    assert_eq!(state.selected(), [1, 2]);
}

#[test]
fn scroll_request_is_taken_once() {
    let mut state: TreeViewState<usize> = TreeViewState::new();
    state.scroll_to(3);
    assert_eq!(state.take_scroll_to(), Some(3));
    assert_eq!(state.take_scroll_to(), None);
    state.request_scroll_to(4);
    assert_eq!(state.take_scroll_to(), Some(4));
}

#[test]
fn reveal_requests_replace_each_other() {
    let mut state: TreeViewState<u32> = TreeViewState::new();
    state.expand_parents_of(5);
    assert!(matches!(state.pending_reveal(), Some(PendingReveal::ExpandParents(5))));
    state.reveal_node(6);
    assert!(matches!(state.pending_reveal(), Some(PendingReveal::Reveal(6))));
    state.clear_pending_reveal();
    assert!(state.pending_reveal().is_none());
}

#[test]
fn pivot_and_cursor_are_set_and_read() {
    let mut state: TreeViewState<u32> = TreeViewState::new();
    state.set_pivot(Some(2));
    state.set_cursor(Some(3));
    assert_eq!(state.pivot(), Some(&2));
    assert_eq!(state.cursor(), Some(&3));
    state.set_cursor(None);
    assert_eq!(state.cursor(), None);
}

#[test]
fn saved_state_restores_openness_and_selection() {
    let mut state: TreeViewState<u32> = TreeViewState::new();
    state.expand(1);
    state.collapse(2);
    state.expand(2);
    state.set_selected(vec![5, 1]);
    state.scroll_to(9);
    let restored = TreeViewState::from_saved(state.openness_entries().to_vec(), state.selected().to_vec());
    assert_eq!(restored.is_open(&1), Some(true));
    assert_eq!(restored.is_open(&2), Some(true));
    assert_eq!(restored.is_open(&3), None);
    assert_eq!(restored.selected(), [5, 1]);
    // Transient requests are not part of what is saved.
    let mut restored = restored;
    assert_eq!(restored.take_scroll_to(), None);
}

#[test]
fn set_openness_all_records_each_and_keeps_the_rest() {
    let mut state: TreeViewState<u32> = TreeViewState::new();
    state.collapse(9);
    state.set_selected(vec![5]);
    state.set_openness_all(&[1, 2, 3], true);
    assert_eq!(state.is_open(&1), Some(true));
    assert_eq!(state.is_open(&2), Some(true));
    assert_eq!(state.is_open(&3), Some(true));
    assert_eq!(state.is_open(&9), Some(false));
    assert_eq!(state.is_open(&4), None);
    assert_eq!(state.selected(), [5]);
    state.set_openness_all(&[2, 9], false);
    assert_eq!(state.is_open(&1), Some(true));
    assert_eq!(state.is_open(&2), Some(false));
    assert_eq!(state.is_open(&9), Some(false));
}

#[test]
fn pair_and_triple_ids_compare_by_every_part() {
    let mut state: TreeViewState<(u32, char)> = TreeViewState::new();
    state.expand((1, 'a'));
    assert_eq!(state.is_open(&(1, 'a')), Some(true));
    assert_eq!(state.is_open(&(1, 'b')), None);
    state.collapse((1, 'a'));
    assert_eq!(state.is_open(&(1, 'a')), Some(false));
    let mut triples: TreeViewState<(i64, bool, u8)> = TreeViewState::new();
    triples.toggle_selected((-3, true, 7));
    triples.toggle_selected((-3, false, 7));
    triples.toggle_selected((-3, true, 7));
    assert_eq!(triples.selected(), [(-3, false, 7)]);
}
