//! The build pass: the caller walks its own data and emits directories and
//! leaves; the builder records one row per structurally visible node and
//! resolves a pending reveal against the directory chain it meets.

use vstd::prelude::*;

use crate::action::NodeInfo;
use crate::state::{effective_openness, PendingReveal, StateView, TreeViewState};
use crate::NodeId;

verus! {

/// Per-node configuration the build pass reads: the id, and whether a
/// directory starts open the first time the tree sees it.
pub struct Node<Id> {
    pub id: Id,
    pub default_open: bool,
}

impl<Id> Node<Id> {
    /// A node with this id that starts open.
    pub fn new(id: Id) -> (r: Self)
        ensures
            r.id == id,
            r.default_open,
    {
        Node { id, default_open: true }
    }

    /// Whether a directory starts open the first time the tree sees it
    /// (default `true`).
    pub fn default_open(self, open: bool) -> (r: Self)
        ensures
            r.id == self.id,
            r.default_open == open,
    {
        Node { id: self.id, default_open: open }
    }
}

/// Identity and place of one structurally visible row, recorded during the
/// build pass and consumed by input handling.
#[derive(Clone, Debug)]
pub struct Row<Id> {
    pub info: NodeInfo<Id>,
    /// Number of enclosing directories; root nodes are 0.
    pub depth: usize,
    /// The innermost enclosing directory.
    pub parent: Option<Id>,
    /// Whether the row's directory is open (false for leaves).
    pub open: bool,
}

/// A matched pending reveal: the target node plus the ancestor chain the
/// build pass discovered for it.
#[derive(Debug)]
pub struct RevealMatch<Id> {
    pub id: Id,
    pub is_dir: bool,
    /// Enclosing directories, outermost first.
    pub ancestors: Vec<Id>,
    /// Whether the node is also to be selected.
    pub select: bool,
}

/// A [`RevealMatch`] with its ancestors as a sequence.
pub struct RevealView<Id> {
    pub id: Id,
    pub is_dir: bool,
    pub ancestors: Seq<Id>,
    pub select: bool,
}

impl<Id> View for RevealMatch<Id> {
    type V = RevealView<Id>;

    open spec fn view(&self) -> RevealView<Id> {
        RevealView {
            id: self.id,
            is_dir: self.is_dir,
            ancestors: self.ancestors@,
            select: self.select,
        }
    }
}

/// The view of an optional reveal match.
pub open spec fn reveal_view<Id>(m: Option<RevealMatch<Id>>) -> Option<RevealView<Id>> {
    match m {
        Some(m) => Some(m@),
        None => None,
    }
}

/// Everything the build pass hands to the input pass.
pub struct BuildOutput<Id> {
    pub rows: Vec<Row<Id>>,
    pub reveal: Option<RevealMatch<Id>>,
}

struct DirFrame<Id> {
    id: Id,
    /// This dir and all its ancestors are open: children are rendered.
    cumulative_open: bool,
}

/// What a [`TreeBuilder`] holds, as mathematical values.
pub struct BuilderView<Id> {
    /// The directories entered and not yet closed, outermost first.
    pub stack: Seq<Id>,
    /// The openness of each of those directories.
    pub opens: Seq<bool>,
    /// The rows recorded so far.
    pub rows: Seq<Row<Id>>,
    /// The pending reveal matched so far.
    pub reveal: Option<RevealView<Id>>,
}

/// Every directory in `opens` is open.
pub open spec fn all_open(opens: Seq<bool>) -> bool {
    forall|j: int| 0 <= j < opens.len() ==> opens[j]
}

/// The last element of a sequence, if any.
pub open spec fn last_of<Id>(s: Seq<Id>) -> Option<Id> {
    if s.len() == 0 {
        None
    } else {
        Some(s.last())
    }
}

/// The reveal match after the builder meets node `id`: the pending reveal
/// for `id` matches with the current directory chain as ancestors; any other
/// node leaves the match as it was.
pub open spec fn reveal_after<Id>(
    b: BuilderView<Id>,
    pending: Option<PendingReveal<Id>>,
    id: Id,
    is_dir: bool,
) -> Option<RevealView<Id>> {
    match pending {
        Some(p) => if p.target() == id {
            Some(RevealView { id: id, is_dir: is_dir, ancestors: b.stack, select: p.selects() })
        } else {
            b.reveal
        },
        None => b.reveal,
    }
}

/// The row the builder records for a node met in state `b`.
pub open spec fn row_at<Id>(b: BuilderView<Id>, id: Id, is_dir: bool, open: bool) -> Row<Id> {
    Row {
        info: NodeInfo { id: id, is_dir: is_dir },
        depth: b.stack.len() as usize,
        parent: last_of(b.stack),
        open: open,
    }
}

/// What a call of [`TreeBuilder::dir`] makes of a builder in state `b`.
pub open spec fn dir_step<Id>(b: BuilderView<Id>, st: StateView<Id>, id: Id, default_open: bool) -> BuilderView<Id> {
    let open = effective_openness(st.openness, id, default_open);
    BuilderView {
        stack: b.stack.push(id),
        opens: b.opens.push(open),
        rows: if all_open(b.opens) {
            b.rows.push(row_at(b, id, true, open))
        } else {
            b.rows
        },
        reveal: reveal_after(b, st.pending_reveal, id, true),
    }
}

/// What a call of [`TreeBuilder::leaf`] makes of a builder in state `b`.
pub open spec fn leaf_step<Id>(b: BuilderView<Id>, st: StateView<Id>, id: Id) -> BuilderView<Id> {
    BuilderView {
        rows: if all_open(b.opens) {
            b.rows.push(row_at(b, id, false, false))
        } else {
            b.rows
        },
        reveal: reveal_after(b, st.pending_reveal, id, false),
        ..b
    }
}

/// What a call of [`TreeBuilder::close_dir`] makes of a builder in state
/// `b`.
pub open spec fn close_step<Id>(b: BuilderView<Id>) -> BuilderView<Id> {
    if b.stack.len() == 0 {
        b
    } else {
        BuilderView { stack: b.stack.drop_last(), opens: b.opens.drop_last(), ..b }
    }
}

/// One call of the build pass: a directory (id and default openness), a
/// leaf, or the close of the current directory.
pub enum BuildCall<Id> {
    Dir(Id, bool),
    Leaf(Id),
    Close,
}

/// What one call makes of a builder in state `b`.
pub open spec fn call_step<Id>(b: BuilderView<Id>, st: StateView<Id>, c: BuildCall<Id>) -> BuilderView<Id> {
    match c {
        BuildCall::Dir(id, default_open) => dir_step(b, st, id, default_open),
        BuildCall::Leaf(id) => leaf_step(b, st, id),
        BuildCall::Close => close_step(b),
    }
}

/// What a sequence of calls makes of a builder in state `b`.
pub open spec fn run_calls<Id>(b: BuilderView<Id>, st: StateView<Id>, calls: Seq<BuildCall<Id>>) -> BuilderView<Id>
    decreases calls.len(),
{
    if calls.len() == 0 {
        b
    } else {
        call_step(run_calls(b, st, calls.drop_last()), st, calls.last())
    }
}

/// How many directories a sequence of calls leaves open, net.
pub open spec fn call_depth<Id>(calls: Seq<BuildCall<Id>>) -> int
    decreases calls.len(),
{
    if calls.len() == 0 {
        0
    } else {
        call_depth(calls.drop_last()) + match calls.last() {
            BuildCall::Dir(_, _) => 1int,
            BuildCall::Leaf(_) => 0int,
            BuildCall::Close => -1int,
        }
    }
}

/// No prefix of the calls closes more directories than it opened.
pub open spec fn never_closes_outer<Id>(calls: Seq<BuildCall<Id>>) -> bool {
    forall|k: int| 0 <= k <= calls.len() ==> call_depth(#[trigger] calls.take(k)) >= 0
}

/// Every directory the calls open they also close, and none before.
pub open spec fn balanced<Id>(calls: Seq<BuildCall<Id>>) -> bool {
    never_closes_outer(calls) && call_depth(calls) == 0
}

/// The id a call emits, if it emits a node.
pub open spec fn call_id<Id>(c: BuildCall<Id>) -> Option<Id> {
    match c {
        BuildCall::Dir(id, _) => Some(id),
        BuildCall::Leaf(id) => Some(id),
        BuildCall::Close => None,
    }
}

/// Emits the tree's nodes for one frame.
pub struct TreeBuilder<Id> {
    stack: Vec<DirFrame<Id>>,
    opens: Ghost<Seq<bool>>,
    rows: Vec<Row<Id>>,
    reveal: Option<RevealMatch<Id>>,
}

impl<Id> View for TreeBuilder<Id> {
    type V = BuilderView<Id>;

    closed spec fn view(&self) -> BuilderView<Id> {
        BuilderView {
            stack: self.stack@.map_values(|f: DirFrame<Id>| f.id),
            opens: self.opens@,
            rows: self.rows@,
            reveal: reveal_view(self.reveal),
        }
    }
}

impl<Id> TreeBuilder<Id> {
    /// Each frame knows whether it and all its ancestors are open.
    pub closed spec fn wf(&self) -> bool {
        &&& self.stack@.len() == self.opens@.len()
        &&& forall|i: int|
            0 <= i < self.stack@.len() ==> #[trigger] self.stack@[i].cumulative_open == all_open(
                self.opens@.take(i + 1),
            )
    }
}

impl<Id: NodeId> TreeBuilder<Id> {
    /// An empty builder: no open directory, no row.
    pub fn new() -> (r: Self)
        ensures
            r.wf(),
            r@ == (BuilderView::<Id> {
                stack: Seq::empty(),
                opens: Seq::empty(),
                rows: Seq::empty(),
                reveal: None,
            }),
    {
        let r = TreeBuilder { stack: Vec::new(), opens: Ghost(Seq::empty()), rows: Vec::new(), reveal: None };
        assert(r@.stack =~= Seq::empty());
        r
    }

    /// Whether every directory being filled is open, so that the next node
    /// is visible.
    pub fn parents_open(&self) -> (r: bool)
        requires
            self.wf(),
        ensures
            r == all_open(self@.opens),
    {
        let n = self.stack.len();
        if n == 0 {
            true
        } else {
            assert(self.opens@.take(n as int) =~= self.opens@);
            self.stack[n - 1].cumulative_open
        }
    }

    /// The ids of the directories being filled, outermost first.
    fn stack_ids(&self) -> (r: Vec<Id>)
        ensures
            r@ == self@.stack,
    {
        let mut out: Vec<Id> = Vec::new();
        let n = self.stack.len();
        let mut i: usize = 0;
        while i < n
            invariant
                n == self.stack@.len(),
                i <= n,
                out@ =~= self@.stack.take(i as int),
            decreases n - i,
        {
            out.push(self.stack[i].id.copy_id());
            i += 1;
        }
        assert(self@.stack.take(n as int) =~= self@.stack);
        out
    }

    fn check_reveal(&mut self, state: &TreeViewState<Id>, id: &Id, is_dir: bool)
        requires
            old(self).wf(),
        ensures
            final(self).wf(),
            final(self)@ == (BuilderView {
                reveal: reveal_after(old(self)@, state@.pending_reveal, *id, is_dir),
                ..old(self)@
            }),
    {
        match state.pending_reveal() {
            None => {},
            Some(pending) => {
                let (target, select) = match pending {
                    PendingReveal::ExpandParents(t) => (t, false),
                    PendingReveal::Reveal(t) => (t, true),
                };
                if target.same_id(id) {
                    let ancestors = self.stack_ids();
                    self.reveal = Some(RevealMatch { id: id.copy_id(), is_dir, ancestors, select });
                }
            },
        }
    }

    fn push_row(&mut self, id: Id, is_dir: bool, open: bool)
        requires
            old(self).wf(),
        ensures
            final(self).wf(),
            final(self)@ == (BuilderView {
                rows: old(self)@.rows.push(row_at(old(self)@, id, is_dir, open)),
                ..old(self)@
            }),
    {
        let depth = self.stack.len();
        let n = self.stack.len();
        let parent = if n == 0 {
            None
        } else {
            Some(self.stack[n - 1].id.copy_id())
        };
        self.rows.push(Row { info: NodeInfo { id, is_dir }, depth, parent, open });
    }

    /// Emit a directory node. Returns whether it is open. Its children follow
    /// until the matching [`close_dir`](Self::close_dir); the row is recorded
    /// only when every enclosing directory is open.
    pub fn dir(&mut self, state: &TreeViewState<Id>, node: Node<Id>) -> (r: bool)
        requires
            old(self).wf(),
            state.wf(),
        ensures
            final(self).wf(),
            r == effective_openness(state@.openness, node.id, node.default_open),
            state@.openness.contains_key(node.id) ==> r == state@.openness[node.id],
            !state@.openness.contains_key(node.id) ==> r == node.default_open,
            final(self)@.stack == old(self)@.stack.push(node.id),
            final(self)@.opens == old(self)@.opens.push(r),
            final(self)@.rows == if all_open(old(self)@.opens) {
                old(self)@.rows.push(row_at(old(self)@, node.id, true, r))
            } else {
                old(self)@.rows
            },
            final(self)@.reveal == reveal_after(old(self)@, state@.pending_reveal, node.id, true),
            final(self)@ == dir_step(old(self)@, state@, node.id, node.default_open),
    {
        let parents_open = self.parents_open();
        let open = match state.is_open(&node.id) {
            Some(o) => o,
            None => node.default_open,
        };
        self.check_reveal(state, &node.id, true);
        if parents_open {
            self.push_row(node.id.copy_id(), true, open);
        }
        let ghost before = self.opens@;
        let ghost stack_before = self.stack@;
        self.stack.push(DirFrame { id: node.id, cumulative_open: parents_open && open });
        proof {
            self.opens@ = self.opens@.push(open);
            assert(all_open(self.opens@) == (all_open(before) && open)) by {
                if all_open(before) && open {
                    assert forall|j: int| 0 <= j < self.opens@.len() implies self.opens@[j] by {
                        if j < before.len() {
                            assert(self.opens@[j] == before[j]);
                        }
                    }
                }
                if all_open(self.opens@) {
                    assert(self.opens@[before.len() as int] == open);
                    assert forall|j: int| 0 <= j < before.len() implies before[j] by {
                        assert(self.opens@[j] == before[j]);
                    }
                }
            }
            assert forall|i: int| 0 <= i < self.stack@.len() implies #[trigger] self.stack@[i].cumulative_open
                == all_open(self.opens@.take(i + 1)) by {
                if i < before.len() {
                    assert(self.stack@[i] == stack_before[i]);
                    assert(stack_before[i].cumulative_open == all_open(before.take(i + 1)));
                    assert(self.opens@.take(i + 1) =~= before.take(i + 1));
                } else {
                    assert(before.take(before.len() as int) =~= before);
                    assert(self.opens@.take(i + 1) =~= self.opens@);
                }
            }
            assert(self@.stack =~= old(self)@.stack.push(node.id));
        }
        open
    }

    /// Close the most recently opened directory. Every [`dir`](Self::dir)
    /// call must be balanced by one `close_dir`.
    pub fn close_dir(&mut self)
        requires
            old(self).wf(),
        ensures
            final(self).wf(),
            final(self)@ == if old(self)@.stack.len() == 0 {
                old(self)@
            } else {
                BuilderView {
                    stack: old(self)@.stack.drop_last(),
                    opens: old(self)@.opens.drop_last(),
                    ..old(self)@
                }
            },
            final(self)@ == close_step(old(self)@),
    {
        if self.stack.len() > 0 {
            let ghost before = self.opens@;
            self.stack.pop();
            proof {
                self.opens@ = self.opens@.drop_last();
                assert forall|i: int| 0 <= i < self.stack@.len() implies #[trigger] self.stack@[i].cumulative_open
                    == all_open(self.opens@.take(i + 1)) by {
                    assert(self.opens@.take(i + 1) =~= before.take(i + 1));
                }
                assert(self@.stack =~= old(self)@.stack.drop_last());
            }
        }
    }

    /// Emit a leaf node; its row is recorded only when every enclosing
    /// directory is open.
    pub fn leaf(&mut self, state: &TreeViewState<Id>, node: Node<Id>)
        requires
            old(self).wf(),
        ensures
            final(self).wf(),
            final(self)@.stack == old(self)@.stack,
            final(self)@.opens == old(self)@.opens,
            final(self)@.rows == if all_open(old(self)@.opens) {
                old(self)@.rows.push(row_at(old(self)@, node.id, false, false))
            } else {
                old(self)@.rows
            },
            final(self)@.reveal == reveal_after(old(self)@, state@.pending_reveal, node.id, false),
            final(self)@ == leaf_step(old(self)@, state@, node.id),
    {
        self.check_reveal(state, &node.id, false);
        if self.parents_open() {
            self.push_row(node.id, false, false);
        }
    }

    /// The id of the directory currently being filled, if any.
    pub fn parent_id(&self) -> (r: Option<&Id>)
        ensures
            match r {
                Some(p) => last_of(self@.stack) == Some(*p),
                None => self@.stack.len() == 0,
            },
    {
        let n = self.stack.len();
        if n == 0 {
            None
        } else {
            Some(&self.stack[n - 1].id)
        }
    }

    /// The rows recorded so far.
    pub fn rows(&self) -> (r: &[Row<Id>])
        ensures
            r@ == self@.rows,
    {
        self.rows.as_slice()
    }

    /// End the build pass: hand over rows and reveal match, and drop the
    /// pending reveal once it has been matched.
    pub fn finish(self, state: &mut TreeViewState<Id>) -> (r: BuildOutput<Id>)
        requires
            old(state).wf(),
        ensures
            final(state).wf(),
            r.rows@ == self@.rows,
            reveal_view(r.reveal) == self@.reveal,
            final(state)@ == if self@.reveal is Some {
                old(state)@.with_pending_reveal(None)
            } else {
                old(state)@
            },
    {
        if self.reveal.is_some() {
            state.clear_pending_reveal();
        }
        BuildOutput { rows: self.rows, reveal: self.reveal }
    }
}

} // verus!
