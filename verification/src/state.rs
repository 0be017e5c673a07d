//! The state a tree view keeps between frames: openness and selection,
//! keyed by node id, plus the requests that wait for the next build pass.

use vstd::prelude::*;

use crate::NodeId;

verus! {

/// A request that the next build pass resolves once it meets the node.
#[derive(Clone, Debug)]
pub enum PendingReveal<Id> {
    /// Open every ancestor of the node.
    ExpandParents(Id),
    /// Open ancestors, select the node, and scroll to it.
    Reveal(Id),
}

impl<Id> PendingReveal<Id> {
    /// The node the request is about.
    pub open spec fn target(self) -> Id {
        match self {
            PendingReveal::ExpandParents(t) => t,
            PendingReveal::Reveal(t) => t,
        }
    }

    /// Whether the request also selects the node.
    pub open spec fn selects(self) -> bool {
        self is Reveal
    }
}

/// What a [`TreeViewState`] holds, as mathematical values.
#[verifier::reject_recursive_types(Id)]
pub struct StateView<Id> {
    /// Openness of every directory the tree has recorded.
    pub openness: Map<Id, bool>,
    /// Selected ids, in selection order.
    pub selected: Seq<Id>,
    /// Anchor of range selections.
    pub pivot: Option<Id>,
    /// The keyboard cursor.
    pub cursor: Option<Id>,
    /// A reveal waiting for the next build pass.
    pub pending_reveal: Option<PendingReveal<Id>>,
    /// A node to scroll to once its row exists.
    pub scroll_to: Option<Id>,
}

impl<Id> StateView<Id> {
    /// The state of a fresh tree: nothing recorded, nothing selected.
    pub open spec fn empty() -> Self {
        StateView {
            openness: Map::empty(),
            selected: Seq::empty(),
            pivot: None,
            cursor: None,
            pending_reveal: None,
            scroll_to: None,
        }
    }

    /// This state with `id` recorded as open or closed.
    pub open spec fn with_openness(self, id: Id, open: bool) -> Self {
        StateView { openness: self.openness.insert(id, open), ..self }
    }

    /// This state with another selection.
    pub open spec fn with_selected(self, selected: Seq<Id>) -> Self {
        StateView { selected: selected, ..self }
    }

    /// This state with another pivot.
    pub open spec fn with_pivot(self, pivot: Option<Id>) -> Self {
        StateView { pivot: pivot, ..self }
    }

    /// This state with another cursor.
    pub open spec fn with_cursor(self, cursor: Option<Id>) -> Self {
        StateView { cursor: cursor, ..self }
    }

    /// This state with another pending reveal.
    pub open spec fn with_pending_reveal(self, pending: Option<PendingReveal<Id>>) -> Self {
        StateView { pending_reveal: pending, ..self }
    }

    /// This state with another scroll request.
    pub open spec fn with_scroll_to(self, scroll_to: Option<Id>) -> Self {
        StateView { scroll_to: scroll_to, ..self }
    }
}

/// The openness the tree uses for a directory: the recorded one, or the
/// node's default the first time the tree sees it.
pub open spec fn effective_openness<Id>(openness: Map<Id, bool>, id: Id, default_open: bool) -> bool {
    if openness.contains_key(id) {
        openness[id]
    } else {
        default_open
    }
}

/// `i` is the first position of `x` in `s`.
pub open spec fn is_first_index<T>(s: Seq<T>, x: T, i: int) -> bool {
    &&& 0 <= i < s.len()
    &&& s[i] == x
    &&& forall|j: int| 0 <= j < i ==> s[j] != x
}

/// The first position of `x` in `s`, if it occurs.
pub open spec fn first_index<T>(s: Seq<T>, x: T) -> Option<int> {
    if exists|i: int| is_first_index(s, x, i) {
        Some(choose|i: int| is_first_index(s, x, i))
    } else {
        None
    }
}

/// A first position is unique, so `first_index` names it.
pub proof fn lemma_first_index_is<T>(s: Seq<T>, x: T, i: int)
    requires
        is_first_index(s, x, i),
    ensures
        first_index(s, x) == Some(i),
{
    let c = choose|k: int| is_first_index(s, x, k);
    assert(is_first_index(s, x, c));
    if c < i {
        assert(s[c] != x);
    } else if c > i {
        assert(s[i] != x);
    }
}

/// A value that does not occur has no first position.
pub proof fn lemma_first_index_absent<T>(s: Seq<T>, x: T)
    requires
        forall|j: int| 0 <= j < s.len() ==> s[j] != x,
    ensures
        first_index(s, x) == None::<int>,
        !s.contains(x),
{
}

/// Every value that occurs has a first position.
pub proof fn lemma_first_index_exists<T>(s: Seq<T>, x: T, k: int)
    requires
        0 <= k < s.len(),
        s[k] == x,
    ensures
        first_index(s, x) is Some,
    decreases k,
{
    if exists|j: int| 0 <= j < k && s[j] == x {
        let j = choose|j: int| 0 <= j < k && s[j] == x;
        lemma_first_index_exists(s, x, j);
    } else {
        assert(is_first_index(s, x, k));
    }
}

/// The selection after toggling `id`: its first occurrence leaves, or it
/// joins at the end when it was not selected.
pub open spec fn toggled<Id>(selected: Seq<Id>, id: Id) -> Seq<Id> {
    match first_index(selected, id) {
        Some(i) => selected.remove(i),
        None => selected.push(id),
    }
}

/// The openness map after recording each pair, in order.
pub open spec fn record_all<Id>(m: Map<Id, bool>, pairs: Seq<(Id, bool)>) -> Map<Id, bool>
    decreases pairs.len(),
{
    if pairs.len() == 0 {
        m
    } else {
        record_all(m, pairs.drop_last()).insert(pairs.last().0, pairs.last().1)
    }
}

/// The openness map after recording each of `ids`, in order, as `open`.
pub open spec fn set_all<Id>(m: Map<Id, bool>, ids: Seq<Id>, open: bool) -> Map<Id, bool>
    decreases ids.len(),
{
    if ids.len() == 0 {
        m
    } else {
        set_all(m, ids.drop_last(), open).insert(ids.last(), open)
    }
}

/// Recording pairs that name each id once gives exactly those pairs.
pub proof fn lemma_record_all_distinct<Id>(pairs: Seq<(Id, bool)>)
    requires
        forall|i: int, j: int| 0 <= i < j < pairs.len() ==> pairs[i].0 != pairs[j].0,
    ensures
        forall|k: Id|
            #[trigger] record_all(Map::empty(), pairs).contains_key(k) <==> exists|i: int|
                0 <= i < pairs.len() && pairs[i].0 == k,
        forall|i: int|
            0 <= i < pairs.len() ==> record_all(Map::<Id, bool>::empty(), pairs)[#[trigger] pairs[i].0]
                == pairs[i].1,
    decreases pairs.len(),
{
    if pairs.len() > 0 {
        let rest = pairs.drop_last();
        lemma_record_all_distinct(rest);
        let m = record_all(Map::<Id, bool>::empty(), pairs);
        assert forall|k: Id| #[trigger] m.contains_key(k) <==> exists|i: int|
            0 <= i < pairs.len() && pairs[i].0 == k by {
            if k == pairs.last().0 {
                assert(pairs[pairs.len() - 1].0 == k);
            } else if m.contains_key(k) {
                assert(record_all(Map::<Id, bool>::empty(), rest).contains_key(k));
                let i = choose|i: int| 0 <= i < rest.len() && rest[i].0 == k;
                assert(pairs[i].0 == k);
            }
            if exists|i: int| 0 <= i < pairs.len() && pairs[i].0 == k {
                let i = choose|i: int| 0 <= i < pairs.len() && pairs[i].0 == k;
                if i < pairs.len() - 1 {
                    assert(rest[i].0 == k);
                    assert(record_all(Map::<Id, bool>::empty(), rest).contains_key(k));
                }
            }
        }
        assert forall|i: int| 0 <= i < pairs.len() implies m[#[trigger] pairs[i].0] == pairs[i].1 by {
            if i < pairs.len() - 1 {
                assert(rest[i] == pairs[i]);
                assert(pairs[i].0 != pairs.last().0);
            }
        }
    }
}

/// The state a tree view keeps between frames: openness and selection, keyed
/// by node id. Own one per tree.
#[derive(Clone)]
#[verifier::reject_recursive_types(Id)]
pub struct TreeViewState<Id> {
    openness: Vec<(Id, bool)>,
    open_map: Ghost<Map<Id, bool>>,
    selected: Vec<Id>,
    pivot: Option<Id>,
    cursor: Option<Id>,
    pending_reveal: Option<PendingReveal<Id>>,
    scroll_to: Option<Id>,
}

impl<Id> View for TreeViewState<Id> {
    type V = StateView<Id>;

    closed spec fn view(&self) -> StateView<Id> {
        StateView {
            openness: self.open_map@,
            selected: self.selected@,
            pivot: self.pivot,
            cursor: self.cursor,
            pending_reveal: self.pending_reveal,
            scroll_to: self.scroll_to,
        }
    }
}

impl<Id> TreeViewState<Id> {
    /// The recorded openness entries agree with the openness map, one entry
    /// per id.
    pub closed spec fn wf(&self) -> bool {
        openness_agrees(self.openness@, self.open_map@)
    }
}

/// The openness entries name each id once, and agree with the map.
spec fn openness_agrees<Id>(pairs: Seq<(Id, bool)>, m: Map<Id, bool>) -> bool {
    &&& forall|i: int, j: int|
        0 <= i < j < pairs.len() ==> #[trigger] pairs[i].0 != #[trigger] pairs[j].0
    &&& forall|k: Id|
        #[trigger] m.contains_key(k) <==> exists|i: int| 0 <= i < pairs.len() && #[trigger] pairs[i].0 == k
    &&& forall|i: int| 0 <= i < pairs.len() ==> m[#[trigger] pairs[i].0] == pairs[i].1
}

impl<Id> Default for TreeViewState<Id> {
    fn default() -> (r: Self)
        ensures
            r.wf(),
            r@ == StateView::<Id>::empty(),
    {
        TreeViewState {
            openness: Vec::new(),
            open_map: Ghost(Map::empty()),
            selected: Vec::new(),
            pivot: None,
            cursor: None,
            pending_reveal: None,
            scroll_to: None,
        }
    }
}

impl<Id: NodeId> TreeViewState<Id> {
    /// A fresh state: no directory recorded, nothing selected.
    pub fn new() -> (r: Self)
        ensures
            r.wf(),
            r@ == StateView::<Id>::empty(),
    {
        Self::default()
    }

    /// The currently selected node ids, in selection order.
    pub fn selected(&self) -> (r: &[Id])
        ensures
            r@ == self@.selected,
    {
        self.selected.as_slice()
    }

    /// Replace the selection.
    pub fn set_selected(&mut self, ids: Vec<Id>)
        requires
            old(self).wf(),
        ensures
            final(self).wf(),
            final(self)@ == old(self)@.with_selected(ids@),
    {
        self.selected = ids;
    }

    /// Toggle one node in or out of the selection: its first occurrence
    /// leaves, or it joins at the end.
    pub fn toggle_selected(&mut self, id: Id)
        requires
            old(self).wf(),
        ensures
            final(self).wf(),
            final(self)@ == old(self)@.with_selected(toggled(old(self)@.selected, id)),
    {
        let n = self.selected.len();
        let mut i: usize = 0;
        while i < n
            invariant
                *self == *old(self),
                self.wf(),
                n == self.selected@.len(),
                i <= n,
                forall|j: int| 0 <= j < i ==> self.selected@[j] != id,
            decreases n - i,
        {
            if self.selected[i].same_id(&id) {
                proof {
                    lemma_first_index_is(self.selected@, id, i as int);
                }
                self.selected.remove(i);
                return;
            }
            i += 1;
        }
        proof {
            lemma_first_index_absent(self.selected@, id);
        }
        self.selected.push(id);
    }

    /// Whether `id` is selected.
    pub fn is_selected(&self, id: &Id) -> (r: bool)
        ensures
            r == self@.selected.contains(*id),
    {
        let n = self.selected.len();
        let mut i: usize = 0;
        while i < n
            invariant
                n == self.selected@.len(),
                i <= n,
                forall|j: int| 0 <= j < i ==> self.selected@[j] != *id,
            decreases n - i,
        {
            if self.selected[i].same_id(id) {
                assert(self.selected@[i as int] == *id);
                return true;
            }
            i += 1;
        }
        false
    }

    /// Whether a directory is open. `None` if the tree has never recorded the
    /// id (it will use the node's `default_open` on first encounter).
    pub fn is_open(&self, id: &Id) -> (r: Option<bool>)
        requires
            self.wf(),
        ensures
            r == self@.openness.get(*id),
    {
        let n = self.openness.len();
        let mut i: usize = 0;
        while i < n
            invariant
                self.wf(),
                n == self.openness@.len(),
                i <= n,
                forall|j: int| 0 <= j < i ==> self.openness@[j].0 != *id,
            decreases n - i,
        {
            if self.openness[i].0.same_id(id) {
                return Some(self.openness[i].1);
            }
            i += 1;
        }
        assert(!self.open_map@.contains_key(*id));
        None
    }

    /// Record a directory as open or closed.
    pub fn set_openness(&mut self, id: Id, open: bool)
        requires
            old(self).wf(),
        ensures
            final(self).wf(),
            final(self)@ == old(self)@.with_openness(id, open),
    {
        let n = self.openness.len();
        let mut i: usize = 0;
        while i < n
            invariant
                *self == *old(self),
                self.wf(),
                n == self.openness@.len(),
                i <= n,
                forall|j: int| 0 <= j < i ==> self.openness@[j].0 != id,
            decreases n - i,
        {
            if self.openness[i].0.same_id(&id) {
                let ghost before = self.openness@;
                self.openness.set(i, (id, open));
                proof {
                    self.open_map@ = self.open_map@.insert(id, open);
                    assert forall|k: Id| #[trigger]
                        self.open_map@.contains_key(k) <==> exists|j: int|
                            0 <= j < self.openness@.len() && #[trigger] self.openness@[j].0
                                == k by {
                        if k == id {
                            assert(self.openness@[i as int].0 == k);
                        } else if old(self).open_map@.contains_key(k) {
                            let j = choose|j: int|
                                0 <= j < before.len() && #[trigger] before[j].0 == k;
                            assert(self.openness@[j].0 == k);
                        }
                        if exists|j: int|
                            0 <= j < self.openness@.len() && #[trigger] self.openness@[j].0
                                == k {
                            let j = choose|j: int|
                                0 <= j < self.openness@.len() && #[trigger] self.openness@[j].0
                                    == k;
                            assert(before[j].0 == k);
                        }
                    }
                }
                return;
            }
            i += 1;
        }
        let ghost before = self.openness@;
        self.openness.push((id, open));
        proof {
            self.open_map@ = self.open_map@.insert(id, open);
            assert(self.openness@[n as int] == (id, open));
            assert forall|k: Id| #[trigger]
                self.open_map@.contains_key(k) <==> exists|j: int|
                    0 <= j < self.openness@.len() && #[trigger] self.openness@[j].0 == k by {
                if k == id {
                    assert(self.openness@[n as int].0 == k);
                } else if old(self).open_map@.contains_key(k) {
                    let j = choose|j: int| 0 <= j < before.len() && #[trigger] before[j].0 == k;
                    assert(self.openness@[j].0 == k);
                }
                if exists|j: int|
                    0 <= j < self.openness@.len() && #[trigger] self.openness@[j].0 == k {
                    let j = choose|j: int|
                        0 <= j < self.openness@.len() && #[trigger] self.openness@[j].0 == k;
                    if j < n {
                        assert(before[j].0 == k);
                    }
                }
            }
        }
    }

    /// Open a directory programmatically.
    pub fn expand(&mut self, id: Id)
        requires
            old(self).wf(),
        ensures
            final(self).wf(),
            final(self)@ == old(self)@.with_openness(id, true),
    {
        self.set_openness(id, true);
    }

    /// Close a directory programmatically.
    pub fn collapse(&mut self, id: Id)
        requires
            old(self).wf(),
        ensures
            final(self).wf(),
            final(self)@ == old(self)@.with_openness(id, false),
    {
        self.set_openness(id, false);
    }

    /// Record each of `ids`, in order, as open or closed: "expand all" and
    /// "collapse all" over a list of directories.
    pub fn set_openness_all(&mut self, ids: &[Id], open: bool)
        requires
            old(self).wf(),
        ensures
            final(self).wf(),
            final(self)@ == (StateView { openness: set_all(old(self)@.openness, ids@, open), ..old(self)@ }),
    {
        let mut i: usize = 0;
        while i < ids.len()
            invariant
                self.wf(),
                i <= ids@.len(),
                self@ == (StateView {
                    openness: set_all(old(self)@.openness, ids@.take(i as int), open),
                    ..old(self)@
                }),
            decreases ids@.len() - i,
        {
            let id = ids[i].copy_id();
            self.set_openness(id, open);
            assert(ids@.take(i + 1).drop_last() =~= ids@.take(i as int));
            i += 1;
        }
        assert(ids@.take(ids@.len() as int) =~= ids@);
    }

    /// Open every ancestor of `id` on the next frame, so the node becomes
    /// visible. The parent chain is discovered from the next build pass.
    pub fn expand_parents_of(&mut self, id: Id)
        requires
            old(self).wf(),
        ensures
            final(self).wf(),
            final(self)@ == old(self)@.with_pending_reveal(Some(PendingReveal::ExpandParents(id))),
    {
        self.pending_reveal = Some(PendingReveal::ExpandParents(id));
    }

    /// Open ancestors, select `id`, and scroll it into view on the next frame.
    pub fn reveal_node(&mut self, id: Id)
        requires
            old(self).wf(),
        ensures
            final(self).wf(),
            final(self)@ == old(self)@.with_pending_reveal(Some(PendingReveal::Reveal(id))),
    {
        self.pending_reveal = Some(PendingReveal::Reveal(id));
    }

    /// Scroll the node into view on the next frame (without changing
    /// openness or selection).
    pub fn scroll_to(&mut self, id: Id)
        requires
            old(self).wf(),
        ensures
            final(self).wf(),
            final(self)@ == old(self)@.with_scroll_to(Some(id)),
    {
        self.scroll_to = Some(id);
    }

    /// Ask for a scroll to `id` once its row exists.
    pub fn request_scroll_to(&mut self, id: Id)
        requires
            old(self).wf(),
        ensures
            final(self).wf(),
            final(self)@ == old(self)@.with_scroll_to(Some(id)),
    {
        self.scroll_to = Some(id);
    }

    /// Take the pending scroll request, leaving none.
    pub fn take_scroll_to(&mut self) -> (r: Option<Id>)
        requires
            old(self).wf(),
        ensures
            final(self).wf(),
            r == old(self)@.scroll_to,
            final(self)@ == old(self)@.with_scroll_to(None),
    {
        self.scroll_to.take()
    }

    /// The reveal waiting for the next build pass, if any.
    pub fn pending_reveal(&self) -> (r: Option<&PendingReveal<Id>>)
        ensures
            match r {
                Some(p) => self@.pending_reveal == Some(*p),
                None => self@.pending_reveal is None,
            },
    {
        self.pending_reveal.as_ref()
    }

    /// Drop the pending reveal.
    pub fn clear_pending_reveal(&mut self)
        requires
            old(self).wf(),
        ensures
            final(self).wf(),
            final(self)@ == old(self)@.with_pending_reveal(None),
    {
        self.pending_reveal = None;
    }

    /// The anchor of range selections, if any.
    pub fn pivot(&self) -> (r: Option<&Id>)
        ensures
            match r {
                Some(p) => self@.pivot == Some(*p),
                None => self@.pivot is None,
            },
    {
        self.pivot.as_ref()
    }

    /// Replace the anchor of range selections.
    pub fn set_pivot(&mut self, id: Option<Id>)
        requires
            old(self).wf(),
        ensures
            final(self).wf(),
            final(self)@ == old(self)@.with_pivot(id),
    {
        self.pivot = id;
    }

    /// The keyboard cursor node, if any.
    pub fn cursor(&self) -> (r: Option<&Id>)
        ensures
            match r {
                Some(c) => self@.cursor == Some(*c),
                None => self@.cursor is None,
            },
    {
        self.cursor.as_ref()
    }

    /// Move the keyboard cursor.
    pub fn set_cursor(&mut self, id: Option<Id>)
        requires
            old(self).wf(),
        ensures
            final(self).wf(),
            final(self)@ == old(self)@.with_cursor(id),
    {
        self.cursor = id;
    }

    /// The recorded openness entries, one per id, as the openness map has
    /// them.
    pub fn openness_entries(&self) -> (r: &[(Id, bool)])
        requires
            self.wf(),
        ensures
            forall|i: int, j: int| 0 <= i < j < r@.len() ==> r@[i].0 != r@[j].0,
            forall|i: int|
                0 <= i < r@.len() ==> self@.openness.contains_key(#[trigger] r@[i].0)
                    && self@.openness[r@[i].0] == r@[i].1,
            forall|k: Id|
                #[trigger] self@.openness.contains_key(k) ==> exists|i: int|
                    0 <= i < r@.len() && #[trigger] r@[i].0 == k,
    {
        self.openness.as_slice()
    }


    /// A state with these openness entries recorded, in order, and this
    /// selection; nothing pending.
    pub fn from_saved(openness: Vec<(Id, bool)>, selected: Vec<Id>) -> (r: Self)
        ensures
            r.wf(),
            r@ == (StateView {
                openness: record_all(Map::empty(), openness@),
                selected: selected@,
                ..StateView::<Id>::empty()
            }),
    {
        let mut state = Self::new();
        let n = openness.len();
        let mut i: usize = 0;
        let mut rest = openness;
        let ghost all = rest@;
        while i < n
            invariant
                state.wf(),
                n == all.len(),
                i <= n,
                rest@ == all.skip(i as int),
                state@ == (StateView { openness: record_all(Map::empty(), all.take(i as int)), ..StateView::<Id>::empty() }),
            decreases n - i,
        {
            let (id, open) = rest.remove(0);
            proof {
                assert(all.skip(i as int)[0] == all[i as int]);
                assert(all.take(i + 1).drop_last() =~= all.take(i as int));
                assert(all.skip(i + 1) =~= all.skip(i as int).remove(0));
            }
            state.set_openness(id, open);
            i += 1;
        }
        assert(all.take(n as int) =~= all);
        state.set_selected(selected);
        state
    }

}

} // verus!
