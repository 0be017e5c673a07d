//! What the tree reports to the application after a frame.

use vstd::prelude::*;

use crate::modifiers::Modifiers;
use crate::NodeId;

verus! {

/// A node reference in an action payload: the id plus whether the node was
/// declared a directory this frame.
#[derive(Clone, Debug, PartialEq, Eq)]
pub struct NodeInfo<Id> {
    pub id: Id,
    pub is_dir: bool,
}

impl<Id: NodeId> NodeInfo<Id> {
    /// A copy of this node reference.
    pub fn copy_info(&self) -> (r: Self)
        ensures
            r == *self,
    {
        NodeInfo { id: self.id.copy_id(), is_dir: self.is_dir }
    }
}

/// Everything the tree wants the application to know about this frame.
#[derive(Clone, Debug)]
pub enum Action<Id> {
    /// The selection changed (click or keyboard).
    SetSelected(Vec<NodeInfo<Id>>),
    /// A node was activated (Enter or double-click on a leaf).
    Activate { nodes: Vec<NodeInfo<Id>>, modifiers: Modifiers },
    /// A directory was opened by the user.
    DirOpened(NodeInfo<Id>),
    /// A directory was closed by the user.
    DirClosed(NodeInfo<Id>),
}

/// An [`Action`] with its node lists as sequences.
pub enum ActionView<Id> {
    SetSelected(Seq<NodeInfo<Id>>),
    Activate { nodes: Seq<NodeInfo<Id>>, modifiers: Modifiers },
    DirOpened(NodeInfo<Id>),
    DirClosed(NodeInfo<Id>),
}

impl<Id> View for Action<Id> {
    type V = ActionView<Id>;

    open spec fn view(&self) -> ActionView<Id> {
        match self {
            Action::SetSelected(nodes) => ActionView::SetSelected(nodes@),
            Action::Activate { nodes, modifiers } => ActionView::Activate {
                nodes: nodes@,
                modifiers: *modifiers,
            },
            Action::DirOpened(info) => ActionView::DirOpened(*info),
            Action::DirClosed(info) => ActionView::DirClosed(*info),
        }
    }
}

/// A list of actions, each as an [`ActionView`].
pub open spec fn actions_view<Id>(actions: Seq<Action<Id>>) -> Seq<ActionView<Id>> {
    actions.map_values(|a: Action<Id>| a@)
}

} // verus!
