use egui_ailanthus::input::{respond, FrameInput};
use egui_ailanthus::{Modifiers, Node, SelectionSettings, TreeBuilder, TreeViewState};

const DIR: u32 = 1;
const CHILD: u32 = 2;
const TOP: u32 = 3;

/// One frame of the tree `dir/child`, `top`, with no input.
fn show_frame(state: &mut TreeViewState<u32>) {
    let mut tree = TreeBuilder::new();
    tree.dir(state, Node::new(DIR));
    tree.leaf(state, Node::new(CHILD));
    tree.close_dir();
    tree.leaf(state, Node::new(TOP));
    let output = tree.finish(state);
    let input = FrameInput { click: None, keys: None, modifiers: Modifiers::none() };
    let _ = respond(&SelectionSettings::default(), state, &output.rows, output.reveal, input);
}

#[test]
fn renders_without_panicking() {
    let mut state = TreeViewState::new();
    show_frame(&mut state);
}

#[test]
fn openness_defaults_and_programmatic_toggle() {
    let mut state = TreeViewState::new();
    state.collapse(DIR);
    show_frame(&mut state);
    assert_eq!(state.is_open(&DIR), Some(false));

    state.expand(DIR);
    show_frame(&mut state);
    assert_eq!(state.is_open(&DIR), Some(true));
}

#[test]
fn reveal_expands_parents_and_selects() {
    let mut state = TreeViewState::new();
    state.collapse(DIR);
    show_frame(&mut state);

    state.reveal_node(CHILD);
    show_frame(&mut state);

    assert_eq!(state.is_open(&DIR), Some(true));
    assert!(state.is_selected(&CHILD));
    assert_eq!(state.cursor(), Some(&CHILD));
}

#[test]
fn expand_parents_of_does_not_select() {
    let mut state = TreeViewState::new();
    state.collapse(DIR);
    show_frame(&mut state);

    state.expand_parents_of(CHILD);
    show_frame(&mut state);

    assert_eq!(state.is_open(&DIR), Some(true));
    assert!(!state.is_selected(&CHILD));
}
