//! The verified core of a decorated tree view widget.
//!
//! The widget is immediate-mode: each frame the caller walks its own data
//! and emits directories and leaves to a [`TreeBuilder`], which records one
//! [`Row`] per node whose enclosing directories are all open. The widget
//! keeps only openness, selection, pivot and keyboard cursor between frames,
//! keyed by the caller's ids ([`TreeViewState`]). After the build pass, the
//! input pass ([`input::respond`]) applies the frame's click, keys and a
//! matched reveal to the state and reports everything that happened as a
//! list of [`Action`]s.
//!
//! [`demo`] holds the playground's file model and the edits a move performs
//! on it; [`frame`] states what a frame's reports and a run of frames keep;
//! [`laws`] states properties that span several operations.

use vstd::prelude::*;

pub mod action;
pub mod builder;
pub mod demo;
pub mod frame;
pub mod icon;
pub mod input;
pub mod laws;
pub mod modifiers;
pub mod state;

pub use action::{Action, ActionView, NodeInfo};
pub use builder::{BuildOutput, Node, RevealMatch, Row, TreeBuilder};
pub use icon::{Icon, IconSpec};
pub use input::{KeyPresses, SelectionSettings};
pub use modifiers::Modifiers;
pub use state::{PendingReveal, StateView, TreeViewState};

verus! {

/// Ids used as tree node keys.
///
/// An id can be compared and duplicated, and both operations agree with
/// mathematical equality. It is implemented here for the integer types,
/// `char` and `bool`, and for pairs and triples of ids, so composite keys
/// (a parent's id with a child's index, say) work too.
pub trait NodeId: Sized {
    /// Whether two ids are the same id.
    fn same_id(&self, other: &Self) -> (r: bool)
        ensures
            r == (*self == *other),
    ;

    /// A copy of this id.
    fn copy_id(&self) -> (r: Self)
        ensures
            r == *self,
    ;
}

impl NodeId for u32 {
    fn same_id(&self, other: &Self) -> (r: bool) {
        *self == *other
    }

    fn copy_id(&self) -> (r: Self) {
        *self
    }
}

impl NodeId for u64 {
    fn same_id(&self, other: &Self) -> (r: bool) {
        *self == *other
    }

    fn copy_id(&self) -> (r: Self) {
        *self
    }
}

impl NodeId for usize {
    fn same_id(&self, other: &Self) -> (r: bool) {
        *self == *other
    }

    fn copy_id(&self) -> (r: Self) {
        *self
    }
}

impl NodeId for u8 {
    fn same_id(&self, other: &Self) -> (r: bool) {
        *self == *other
    }

    fn copy_id(&self) -> (r: Self) {
        *self
    }
}

impl NodeId for u16 {
    fn same_id(&self, other: &Self) -> (r: bool) {
        *self == *other
    }

    fn copy_id(&self) -> (r: Self) {
        *self
    }
}

impl NodeId for u128 {
    fn same_id(&self, other: &Self) -> (r: bool) {
        *self == *other
    }

    fn copy_id(&self) -> (r: Self) {
        *self
    }
}

impl NodeId for i8 {
    fn same_id(&self, other: &Self) -> (r: bool) {
        *self == *other
    }

    fn copy_id(&self) -> (r: Self) {
        *self
    }
}

impl NodeId for i16 {
    fn same_id(&self, other: &Self) -> (r: bool) {
        *self == *other
    }

    fn copy_id(&self) -> (r: Self) {
        *self
    }
}

impl NodeId for i32 {
    fn same_id(&self, other: &Self) -> (r: bool) {
        *self == *other
    }

    fn copy_id(&self) -> (r: Self) {
        *self
    }
}

impl NodeId for i64 {
    fn same_id(&self, other: &Self) -> (r: bool) {
        *self == *other
    }

    fn copy_id(&self) -> (r: Self) {
        *self
    }
}

impl NodeId for i128 {
    fn same_id(&self, other: &Self) -> (r: bool) {
        *self == *other
    }

    fn copy_id(&self) -> (r: Self) {
        *self
    }
}

impl NodeId for isize {
    fn same_id(&self, other: &Self) -> (r: bool) {
        *self == *other
    }

    fn copy_id(&self) -> (r: Self) {
        *self
    }
}

impl NodeId for char {
    fn same_id(&self, other: &Self) -> (r: bool) {
        *self == *other
    }

    fn copy_id(&self) -> (r: Self) {
        *self
    }
}

impl NodeId for bool {
    fn same_id(&self, other: &Self) -> (r: bool) {
        *self == *other
    }

    fn copy_id(&self) -> (r: Self) {
        *self
    }
}

impl<A: NodeId, B: NodeId> NodeId for (A, B) {
    fn same_id(&self, other: &Self) -> (r: bool) {
        self.0.same_id(&other.0) && self.1.same_id(&other.1)
    }

    fn copy_id(&self) -> (r: Self) {
        (self.0.copy_id(), self.1.copy_id())
    }
}

impl<A: NodeId, B: NodeId, C: NodeId> NodeId for (A, B, C) {
    fn same_id(&self, other: &Self) -> (r: bool) {
        self.0.same_id(&other.0) && self.1.same_id(&other.1) && self.2.same_id(&other.2)
    }

    fn copy_id(&self) -> (r: Self) {
        (self.0.copy_id(), self.1.copy_id(), self.2.copy_id())
    }
}

} // verus!
