//! The interaction scenarios of the widget, driven through the build pass
//! and the input pass with the click or key the widget would resolve.

use egui_ailanthus::input::{respond, Click, FrameInput, FrameResult};
use egui_ailanthus::{Action, KeyPresses, Modifiers, Node, SelectionSettings, TreeBuilder, TreeViewState};

const DIR: u32 = 1;
const ALPHA: u32 = 2;
const BETA: u32 = 3;
const TOP: u32 = 4;

struct Harness {
    tree: TreeViewState<u32>,
    actions: Vec<Action<u32>>,
    /// Ids of the rows the last frame recorded, in row order.
    visible: Vec<u32>,
}

impl Harness {
    fn new() -> Self {
        Harness { tree: TreeViewState::new(), actions: Vec::new(), visible: Vec::new() }
    }

    /// Run one frame; `click` names the row id the pointer clicked.
    fn frame(&mut self, click: Option<(u32, bool)>, keys: Option<KeyPresses>) -> FrameResult<u32> {
        let mut tree = TreeBuilder::new();
        tree.dir(&self.tree, Node::new(DIR));
        tree.leaf(&self.tree, Node::new(ALPHA));
        tree.leaf(&self.tree, Node::new(BETA));
        tree.close_dir();
        tree.leaf(&self.tree, Node::new(TOP));
        let output = tree.finish(&mut self.tree);
        let click = click.map(|(id, double_clicked)| Click {
            row: output.rows.iter().position(|r| r.info.id == id).expect("clicked row is visible"),
            on_closer: false,
            double_clicked,
            modifiers: Modifiers::none(),
        });
        let input = FrameInput { click, keys, modifiers: Modifiers::none() };
        let result = respond(&SelectionSettings::default(), &mut self.tree, &output.rows, output.reveal, input);
        self.visible = output.rows.iter().map(|r| r.info.id).collect();
        self.actions.extend(result.actions.iter().cloned());
        result
    }

    fn run(&mut self) {
        self.frame(None, None);
    }
}

fn key(down: bool, up: bool) -> KeyPresses {
    KeyPresses { down, up, right: false, left: false, enter: false }
}

#[test]
fn click_selects_leaf() {
    let mut harness = Harness::new();
    harness.run();
    harness.frame(Some((ALPHA, false)), None);
    harness.run();

    assert_eq!(harness.tree.selected(), [ALPHA]);
    assert!(
        harness.actions.iter().any(|a| matches!(
            a,
            Action::SetSelected(nodes) if nodes.len() == 1
                && nodes[0].id == ALPHA && !nodes[0].is_dir
        )),
        "expected a SetSelected action carrying is_dir=false, got {:?}",
        harness.actions
    );
}

#[test]
fn click_toggles_dir() {
    let mut harness = Harness::new();
    harness.run();
    harness.frame(Some((DIR, false)), None);
    harness.run();

    assert_eq!(harness.tree.is_open(&DIR), Some(false));
    assert!(
        harness.actions.iter().any(|a| matches!(a, Action::DirClosed(n) if n.id == DIR)),
        "expected DirClosed, got {:?}",
        harness.actions
    );
    // Children disappear from the rows once collapsed.
    assert!(!harness.visible.contains(&ALPHA));
}

#[test]
fn double_click_activates() {
    let mut harness = Harness::new();
    harness.run();
    // Two clicks in one input batch: the widget reports one double click.
    harness.frame(Some((ALPHA, true)), None);
    harness.run();

    assert!(
        harness.actions.iter().any(|a| matches!(
            a,
            Action::Activate { nodes, .. } if nodes.iter().any(|n| n.id == ALPHA)
        )),
        "expected Activate, got {:?}",
        harness.actions
    );
}

#[test]
fn arrow_keys_move_selection() {
    let mut harness = Harness::new();
    harness.run();
    harness.frame(Some((ALPHA, false)), None);
    harness.run();
    harness.frame(None, Some(key(true, false)));
    harness.run();

    assert_eq!(harness.tree.selected(), [BETA]);

    harness.frame(None, Some(key(false, true)));
    harness.run();
    assert_eq!(harness.tree.selected(), [ALPHA]);
}
