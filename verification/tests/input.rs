use egui_ailanthus::input::{
    apply_reveal, click_select, handle_click, handle_keys, range_ids, row_position, scroll_target,
    selected_infos, toggle_dir,
};
use egui_ailanthus::{
    Action, KeyPresses, Modifiers, NodeInfo, RevealMatch, Row, SelectionSettings, TreeViewState,
};

fn row(id: u32, is_dir: bool, depth: usize, parent: Option<u32>, open: bool) -> Row<u32> {
    Row { info: NodeInfo { id, is_dir }, depth, parent, open }
}

/// `1/` (open) holding `2` and `3/` (closed), then `4`.
fn rows() -> Vec<Row<u32>> {
    vec![
        row(1, true, 0, None, true),
        row(2, false, 1, Some(1), false),
        row(3, true, 1, Some(1), false),
        row(4, false, 0, None, false),
    ]
}

fn keys(down: bool, up: bool, right: bool, left: bool, enter: bool) -> KeyPresses {
    KeyPresses { down, up, right, left, enter }
}

#[test]
fn row_position_finds_first_row() {
    let rows = rows();
    assert_eq!(row_position(&rows, &3), Some(2));
    assert_eq!(row_position(&rows, &9), None);
}

#[test]
fn range_is_rows_between_both_ends() {
    let rows = rows();
    assert_eq!(range_ids(&rows, &4, &2), vec![2, 3, 4]);
    assert_eq!(range_ids(&rows, &2, &4), vec![2, 3, 4]);
    assert_eq!(range_ids(&rows, &9, &2), vec![2]);
}

#[test]
fn selected_infos_carry_kind_of_rows() {
    let rows = rows();
    let mut state = TreeViewState::new();
    state.set_selected(vec![3, 9, 2]);
    let infos = selected_infos(&state, &rows);
    assert_eq!(
        infos,
        vec![
            NodeInfo { id: 3, is_dir: true },
            NodeInfo { id: 9, is_dir: false },
            NodeInfo { id: 2, is_dir: false },
        ]
    );
}

#[test]
fn toggle_dir_flips_recorded_openness() {
    let rows = rows();
    let mut state = TreeViewState::new();
    let mut actions = Vec::new();
    toggle_dir(&mut state, &rows[0], &mut actions);
    toggle_dir(&mut state, &rows[2], &mut actions);
    assert_eq!(state.is_open(&1), Some(false));
    assert_eq!(state.is_open(&3), Some(true));
    assert!(matches!(actions[0], Action::DirClosed(NodeInfo { id: 1, is_dir: true })));
    assert!(matches!(actions[1], Action::DirOpened(NodeInfo { id: 3, is_dir: true })));
}

#[test]
fn command_click_toggles_and_shift_click_ranges() {
    let rows = rows();
    let settings = SelectionSettings::default();
    let mut state = TreeViewState::new();
    let mut actions = Vec::new();
    click_select(&settings, &mut state, &rows, 1, Modifiers::none(), &mut actions);
    assert_eq!(state.selected(), [2]);
    click_select(&settings, &mut state, &rows, 3, Modifiers::command(), &mut actions);
    assert_eq!(state.selected(), [2, 4]);
    assert_eq!(state.pivot(), Some(&4));
    click_select(&settings, &mut state, &rows, 0, Modifiers::shift(), &mut actions);
    assert_eq!(state.selected(), [1, 2, 3, 4]);
    assert_eq!(state.pivot(), Some(&4));
    assert_eq!(state.cursor(), Some(&1));
    assert_eq!(actions.len(), 3);
    match &actions[2] {
        Action::SetSelected(nodes) => assert_eq!(nodes.len(), 4),
        other => panic!("expected SetSelected, got {other:?}"),
    }
}

#[test]
fn modifiers_do_nothing_special_without_multi_select() {
    let rows = rows();
    let settings = SelectionSettings { allow_multi_select: false, ..SelectionSettings::default() };
    let mut state = TreeViewState::new();
    let mut actions = Vec::new();
    click_select(&settings, &mut state, &rows, 1, Modifiers::none(), &mut actions);
    click_select(&settings, &mut state, &rows, 3, Modifiers::command(), &mut actions);
    assert_eq!(state.selected(), [4]);
}

#[test]
fn ctrl_does_not_match_command_pattern_on_mac_style_pattern() {
    // A pattern with the Mac command key needs that key.
    let rows = rows();
    let mac_cmd = Modifiers { mac_cmd: true, ..Modifiers::none() };
    let settings = SelectionSettings { toggle_select_modifier: mac_cmd, ..SelectionSettings::default() };
    let mut state = TreeViewState::new();
    let mut actions = Vec::new();
    click_select(&settings, &mut state, &rows, 1, Modifiers::none(), &mut actions);
    let ctrl = Modifiers { ctrl: true, command: true, ..Modifiers::none() };
    click_select(&settings, &mut state, &rows, 3, ctrl, &mut actions);
    assert_eq!(state.selected(), [4]);
    click_select(&settings, &mut state, &rows, 1, mac_cmd, &mut actions);
    assert_eq!(state.selected(), [4, 2]);
}

#[test]
fn closer_click_keeps_selection() {
    let rows = rows();
    let settings = SelectionSettings::default();
    let mut state = TreeViewState::new();
    state.set_selected(vec![4]);
    let mut actions = Vec::new();
    handle_click(&settings, &mut state, &rows, 0, true, false, Modifiers::none(), &mut actions);
    assert_eq!(state.selected(), [4]);
    assert_eq!(state.is_open(&1), Some(false));
    assert_eq!(actions.len(), 1);
}

#[test]
fn plain_click_on_dir_selects_and_toggles_but_modified_click_only_selects() {
    let rows = rows();
    let settings = SelectionSettings::default();
    let mut state = TreeViewState::new();
    let mut actions = Vec::new();
    handle_click(&settings, &mut state, &rows, 2, false, false, Modifiers::none(), &mut actions);
    assert_eq!(state.selected(), [3]);
    assert_eq!(state.is_open(&3), Some(true));
    let alt = Modifiers { alt: true, ..Modifiers::none() };
    handle_click(&settings, &mut state, &rows, 0, false, false, alt, &mut actions);
    assert_eq!(state.selected(), [1]);
    assert_eq!(state.is_open(&1), None);
}

#[test]
fn double_click_selects_and_activates_leaf_only() {
    let rows = rows();
    let settings = SelectionSettings::default();
    let mut state = TreeViewState::new();
    state.set_selected(vec![4]);
    let mut actions = Vec::new();
    handle_click(&settings, &mut state, &rows, 0, false, true, Modifiers::none(), &mut actions);
    assert!(actions.is_empty());
    assert_eq!(state.selected(), [4]);
    handle_click(&settings, &mut state, &rows, 1, false, true, Modifiers::shift(), &mut actions);
    assert_eq!(actions.len(), 2);
    match &actions[1] {
        Action::Activate { nodes, modifiers } => {
            assert_eq!(nodes, &vec![NodeInfo { id: 2, is_dir: false }]);
            assert_eq!(*modifiers, Modifiers::shift());
        }
        other => panic!("expected Activate, got {other:?}"),
    }
}

#[test]
fn arrow_down_without_cursor_selects_first_row_and_stops_at_last() {
    let rows = rows();
    let settings = SelectionSettings::default();
    let mut state = TreeViewState::new();
    let mut actions = Vec::new();
    let scrolls = handle_keys(&settings, &mut state, &rows, keys(true, false, false, false, false), Modifiers::none(), &mut actions);
    assert_eq!(scrolls, vec![0]);
    assert_eq!(state.selected(), [1]);
    state.set_cursor(Some(4));
    let scrolls = handle_keys(&settings, &mut state, &rows, keys(true, false, false, false, false), Modifiers::none(), &mut actions);
    assert_eq!(scrolls, vec![3]);
    assert_eq!(state.selected(), [4]);
}

#[test]
fn arrows_use_the_cursor_row_from_the_start_of_the_frame() {
    let rows = rows();
    let settings = SelectionSettings::default();
    let mut state = TreeViewState::new();
    state.set_cursor(Some(2));
    let mut actions = Vec::new();
    let scrolls = handle_keys(&settings, &mut state, &rows, keys(true, true, false, false, false), Modifiers::none(), &mut actions);
    assert_eq!(scrolls, vec![2, 0]);
    assert_eq!(state.selected(), [1]);
}

#[test]
fn shift_arrows_extend_from_pivot() {
    let rows = rows();
    let settings = SelectionSettings::default();
    let mut state = TreeViewState::new();
    state.set_cursor(Some(2));
    state.set_pivot(Some(2));
    let mut actions = Vec::new();
    handle_keys(&settings, &mut state, &rows, keys(true, false, false, false, false), Modifiers::shift(), &mut actions);
    assert_eq!(state.selected(), [2, 3]);
    assert_eq!(state.pivot(), Some(&2));
    assert_eq!(state.cursor(), Some(&3));
}

#[test]
fn right_opens_closed_dir_and_left_goes_to_parent() {
    let rows = rows();
    let settings = SelectionSettings::default();
    let mut state = TreeViewState::new();
    state.set_cursor(Some(3));
    let mut actions = Vec::new();
    handle_keys(&settings, &mut state, &rows, keys(false, false, true, false, false), Modifiers::none(), &mut actions);
    assert_eq!(state.is_open(&3), Some(true));
    state.set_cursor(Some(2));
    let scrolls = handle_keys(&settings, &mut state, &rows, keys(false, false, false, true, false), Modifiers::none(), &mut actions);
    assert_eq!(scrolls, vec![0]);
    assert_eq!(state.selected(), [1]);
    // Left on an open directory closes it.
    let scrolls = handle_keys(&settings, &mut state, &rows, keys(false, false, false, true, false), Modifiers::none(), &mut actions);
    assert!(scrolls.is_empty());
    assert_eq!(state.is_open(&1), Some(false));
}

#[test]
fn enter_activates_selection_and_empty_tree_ignores_keys() {
    let rows = rows();
    let settings = SelectionSettings::default();
    let mut state = TreeViewState::new();
    state.set_selected(vec![4, 1]);
    let mut actions = Vec::new();
    handle_keys(&settings, &mut state, &rows, keys(false, false, false, false, true), Modifiers::none(), &mut actions);
    match &actions[0] {
        Action::Activate { nodes, modifiers } => {
            assert_eq!(nodes, &vec![NodeInfo { id: 4, is_dir: false }, NodeInfo { id: 1, is_dir: true }]);
            assert_eq!(*modifiers, Modifiers::none());
        }
        other => panic!("expected Activate, got {other:?}"),
    }
    let mut none: Vec<Action<u32>> = Vec::new();
    let scrolls = handle_keys(&settings, &mut state, &[], keys(true, true, true, true, true), Modifiers::none(), &mut none);
    assert!(scrolls.is_empty() && none.is_empty());
}

#[test]
fn apply_reveal_opens_ancestors_selects_and_requests_scroll() {
    let rows = rows();
    let mut state = TreeViewState::new();
    state.collapse(1);
    let mut actions = Vec::new();
    let m = RevealMatch { id: 3, is_dir: true, ancestors: vec![1], select: true };
    apply_reveal(&mut state, Some(m), &mut actions);
    assert_eq!(state.is_open(&1), Some(true));
    assert_eq!(state.selected(), [3]);
    assert_eq!(state.cursor(), Some(&3));
    assert!(matches!(&actions[0], Action::SetSelected(n) if n == &vec![NodeInfo { id: 3, is_dir: true }]));
    assert_eq!(scroll_target(&mut state, &rows), Some(2));
    assert_eq!(scroll_target(&mut state, &rows), None);
}

#[test]
fn apply_expand_parents_keeps_selection() {
    let mut state: TreeViewState<u32> = TreeViewState::new();
    state.set_selected(vec![4]);
    let mut actions = Vec::new();
    let m = RevealMatch { id: 2, is_dir: false, ancestors: vec![1, 3], select: false };
    apply_reveal(&mut state, Some(m), &mut actions);
    assert_eq!(state.selected(), [4]);
    assert_eq!(state.is_open(&1), Some(true));
    assert_eq!(state.is_open(&3), Some(true));
    assert!(actions.is_empty());
}
