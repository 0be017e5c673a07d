//! The input pass: what clicks, keys and a matched reveal do to the state,
//! and which actions they report. Geometry (which row the pointer is over,
//! whether it is over a closer) is decided by the caller; everything after
//! that is decided here.

use vstd::prelude::*;

use crate::action::{actions_view, Action, ActionView, NodeInfo};
use crate::builder::{RevealMatch, Row};
use crate::modifiers::Modifiers;
use crate::state::{
    first_index, is_first_index, lemma_first_index_absent, lemma_first_index_is, set_all, toggled,
    StateView, TreeViewState,
};
use crate::NodeId;

verus! {

/// The behavioral settings the input pass reads.
#[derive(Clone, Copy, Debug)]
pub struct SelectionSettings {
    /// Allow selecting more than one node.
    pub allow_multi_select: bool,
    /// Modifier for range selection (default shift).
    pub range_select_modifier: Modifiers,
    /// Modifier for toggling single nodes in and out of the selection
    /// (default command / ctrl).
    pub toggle_select_modifier: Modifiers,
}

impl Default for SelectionSettings {
    fn default() -> (r: Self)
        ensures
            r.allow_multi_select,
            r.range_select_modifier == (Modifiers { shift: true, ..Modifiers::none_spec() }),
            r.toggle_select_modifier == (Modifiers { command: true, ..Modifiers::none_spec() }),
    {
        SelectionSettings {
            allow_multi_select: true,
            range_select_modifier: Modifiers::shift(),
            toggle_select_modifier: Modifiers::command(),
        }
    }
}

/// The keys consumed this frame (arrows with no modifier or shift, Enter
/// with no modifier).
#[derive(Clone, Copy, Debug)]
pub struct KeyPresses {
    pub down: bool,
    pub up: bool,
    pub right: bool,
    pub left: bool,
    pub enter: bool,
}

/// The ids of the rows, in row order.
pub open spec fn row_ids<Id>(rows: Seq<Row<Id>>) -> Seq<Id> {
    rows.map_values(|r: Row<Id>| r.info.id)
}

/// The first row with this id, if any.
pub open spec fn row_index_of<Id>(rows: Seq<Row<Id>>, id: Id) -> Option<int> {
    first_index(row_ids(rows), id)
}

/// The node reference reported for `id`: a directory when its first row is
/// one, a leaf when it is a leaf or has no row.
pub open spec fn info_for<Id>(rows: Seq<Row<Id>>, id: Id) -> NodeInfo<Id> {
    NodeInfo {
        id: id,
        is_dir: match row_index_of(rows, id) {
            Some(k) => rows[k].info.is_dir,
            None => false,
        },
    }
}

/// The node references reported for a list of ids.
pub open spec fn infos_for<Id>(rows: Seq<Row<Id>>, ids: Seq<Id>) -> Seq<NodeInfo<Id>> {
    ids.map_values(|id: Id| info_for(rows, id))
}

/// The ids of a range selection from `a` to `b`: every row between their
/// first rows, both included, in row order; just `b` when either has no row.
pub open spec fn range_spec<Id>(rows: Seq<Row<Id>>, a: Id, b: Id) -> Seq<Id> {
    match (row_index_of(rows, a), row_index_of(rows, b)) {
        (Some(ia), Some(ib)) => {
            let lo = if ia <= ib { ia } else { ib };
            let hi = if ia <= ib { ib } else { ia };
            row_ids(rows).subrange(lo, hi + 1)
        },
        _ => seq![b],
    }
}

/// State, reported actions and scroll targets of the input pass so far.
#[verifier::reject_recursive_types(Id)]
pub struct Outcome<Id> {
    pub state: StateView<Id>,
    pub actions: Seq<ActionView<Id>>,
    pub scrolls: Seq<usize>,
}

/// The action for opening or closing a directory row: it flips the row's
/// openness as the row was recorded.
pub open spec fn toggle_action<Id>(row: Row<Id>) -> ActionView<Id> {
    if !row.open {
        ActionView::DirOpened(row.info)
    } else {
        ActionView::DirClosed(row.info)
    }
}

/// Opening or closing a directory row.
pub open spec fn toggle_outcome<Id>(o: Outcome<Id>, row: Row<Id>) -> Outcome<Id> {
    Outcome {
        state: o.state.with_openness(row.info.id, !row.open),
        actions: o.actions.push(toggle_action(row)),
        scrolls: o.scrolls,
    }
}

/// Keyboard selection of row `i`: with shift held and a pivot, the range
/// from the pivot; otherwise the row alone, which becomes the pivot. The
/// cursor moves to the row, the selection is reported, and the row is
/// scrolled to.
pub open spec fn select_outcome<Id>(
    o: Outcome<Id>,
    rows: Seq<Row<Id>>,
    shift_held: bool,
    i: usize,
) -> Outcome<Id> {
    let id = rows[i as int].info.id;
    let st1 = if shift_held && o.state.pivot is Some {
        o.state.with_selected(range_spec(rows, o.state.pivot->0, id))
    } else {
        o.state.with_selected(seq![id]).with_pivot(Some(id))
    };
    let st2 = st1.with_cursor(Some(id));
    Outcome {
        state: st2,
        actions: o.actions.push(ActionView::SetSelected(infos_for(rows, st2.selected))),
        scrolls: o.scrolls.push(i),
    }
}

/// A click selection on row `i`: the toggle modifier toggles the row and
/// makes it the pivot, the range modifier selects from the pivot, anything
/// else selects the row alone. The cursor moves to the row and the selection
/// is reported.
pub open spec fn click_select_outcome<Id>(
    settings: SelectionSettings,
    o: Outcome<Id>,
    rows: Seq<Row<Id>>,
    i: int,
    modifiers: Modifiers,
) -> Outcome<Id> {
    let id = rows[i].info.id;
    let multi = settings.allow_multi_select;
    let st1 = if multi && modifiers.matches_logically_spec(settings.toggle_select_modifier) {
        o.state.with_selected(toggled(o.state.selected, id)).with_pivot(Some(id))
    } else if multi && modifiers.matches_logically_spec(settings.range_select_modifier)
        && o.state.pivot is Some {
        o.state.with_selected(range_spec(rows, o.state.pivot->0, id))
    } else {
        o.state.with_selected(seq![id]).with_pivot(Some(id))
    };
    let st2 = st1.with_cursor(Some(id));
    Outcome {
        state: st2,
        actions: o.actions.push(ActionView::SetSelected(infos_for(rows, st2.selected))),
        scrolls: o.scrolls,
    }
}

/// A primary click on row `i`: on the closer it toggles the directory and
/// leaves the selection alone; a double click on a leaf selects it as a
/// single click would and then activates the new selection (on a directory
/// it does nothing); a single click selects, and on a directory with no
/// modifier also toggles it.
pub open spec fn click_outcome<Id>(
    settings: SelectionSettings,
    o: Outcome<Id>,
    rows: Seq<Row<Id>>,
    i: int,
    on_closer: bool,
    double_clicked: bool,
    modifiers: Modifiers,
) -> Outcome<Id> {
    let row = rows[i];
    if on_closer {
        toggle_outcome(o, row)
    } else if double_clicked {
        if !row.info.is_dir {
            let o1 = click_select_outcome(settings, o, rows, i, modifiers);
            Outcome {
                actions: o1.actions.push(
                    ActionView::Activate {
                        nodes: infos_for(rows, o1.state.selected),
                        modifiers: modifiers,
                    },
                ),
                ..o1
            }
        } else {
            o
        }
    } else {
        let o1 = click_select_outcome(settings, o, rows, i, modifiers);
        if row.info.is_dir && modifiers.is_none_spec() {
            toggle_outcome(o1, row)
        } else {
            o1
        }
    }
}

/// `j` is the last row before row `i` at depth `d`.
pub open spec fn is_last_at_depth_before<Id>(rows: Seq<Row<Id>>, i: int, d: int, j: int) -> bool {
    &&& 0 <= j < i
    &&& rows[j].depth == d
    &&& forall|k: int| j < k < i ==> rows[k].depth != d
}

/// The parent row of row `i`: the nearest earlier row one level up.
pub open spec fn parent_index<Id>(rows: Seq<Row<Id>>, i: int) -> Option<int> {
    let d = rows[i].depth - 1;
    if exists|j: int| is_last_at_depth_before(rows, i, d, j) {
        Some(choose|j: int| is_last_at_depth_before(rows, i, d, j))
    } else {
        None
    }
}

/// The row of the keyboard cursor, if it has one.
pub open spec fn cursor_index<Id>(st: StateView<Id>, rows: Seq<Row<Id>>) -> Option<int> {
    match st.cursor {
        Some(c) => row_index_of(rows, c),
        None => None,
    }
}

/// Arrow down: the row after the cursor (staying on the last row), or the
/// first row when the cursor has none.
pub open spec fn down_target(c: Option<int>, n: int) -> usize {
    match c {
        Some(i) => if i + 1 < n - 1 { (i + 1) as usize } else { (n - 1) as usize },
        None => 0,
    }
}

/// Arrow up: the row before the cursor (staying on the first row), or the
/// first row when the cursor has none.
pub open spec fn up_target(c: Option<int>) -> usize {
    match c {
        Some(i) => if i > 0 { (i - 1) as usize } else { 0 },
        None => 0,
    }
}

/// Arrow right on the cursor row `i`: open a closed directory, else move to
/// the next row if there is one.
pub open spec fn right_outcome<Id>(o: Outcome<Id>, rows: Seq<Row<Id>>, shift_held: bool, i: int) -> Outcome<Id> {
    let row = rows[i];
    if row.info.is_dir && !row.open {
        toggle_outcome(o, row)
    } else if i + 1 < rows.len() {
        select_outcome(o, rows, shift_held, (i + 1) as usize)
    } else {
        o
    }
}

/// Arrow left on the cursor row `i`: close an open directory, else move to
/// the parent row if there is one.
pub open spec fn left_outcome<Id>(o: Outcome<Id>, rows: Seq<Row<Id>>, shift_held: bool, i: int) -> Outcome<Id> {
    let row = rows[i];
    if row.info.is_dir && row.open {
        toggle_outcome(o, row)
    } else if row.depth > 0 {
        match parent_index(rows, i) {
            Some(p) => select_outcome(o, rows, shift_held, p as usize),
            None => o,
        }
    } else {
        o
    }
}

/// The keyboard pass: arrows down, up, right, left and Enter, in this
/// order, each applied when pressed. The cursor row is looked up once,
/// before any key moves it.
pub open spec fn keys_outcome<Id>(
    settings: SelectionSettings,
    o: Outcome<Id>,
    rows: Seq<Row<Id>>,
    keys: KeyPresses,
    modifiers: Modifiers,
) -> Outcome<Id> {
    if rows.len() == 0 {
        o
    } else {
        let shift_held = settings.allow_multi_select && modifiers.shift_only_spec();
        let c = cursor_index(o.state, rows);
        let o1 = if keys.down {
            select_outcome(o, rows, shift_held, down_target(c, rows.len() as int))
        } else {
            o
        };
        let o2 = if keys.up {
            select_outcome(o1, rows, shift_held, up_target(c))
        } else {
            o1
        };
        let o3 = if keys.right && c is Some {
            right_outcome(o2, rows, shift_held, c->0)
        } else {
            o2
        };
        let o4 = if keys.left && c is Some {
            left_outcome(o3, rows, shift_held, c->0)
        } else {
            o3
        };
        if keys.enter {
            Outcome {
                actions: o4.actions.push(
                    ActionView::Activate {
                        nodes: infos_for(rows, o4.state.selected),
                        modifiers: Modifiers::none_spec(),
                    },
                ),
                ..o4
            }
        } else {
            o4
        }
    }
}

/// The openness map after opening each of `ids`, in order.
pub open spec fn open_all<Id>(m: Map<Id, bool>, ids: Seq<Id>) -> Map<Id, bool> {
    set_all(m, ids, true)
}

/// Applying a matched reveal: open every ancestor; when it selects, make the
/// node the whole selection, the pivot and the cursor, and report it; in
/// either case ask for a scroll to it.
pub open spec fn reveal_outcome<Id>(st: StateView<Id>, acts: Seq<ActionView<Id>>, m: Option<RevealMatch<Id>>) -> (StateView<Id>, Seq<ActionView<Id>>) {
    match m {
        None => (st, acts),
        Some(m) => {
            let st1 = StateView { openness: open_all(st.openness, m.ancestors@), ..st };
            let (st2, acts2) = if m.select {
                (
                    st1.with_selected(seq![m.id]).with_pivot(Some(m.id)).with_cursor(Some(m.id)),
                    acts.push(ActionView::SetSelected(seq![NodeInfo { id: m.id, is_dir: m.is_dir }])),
                )
            } else {
                (st1, acts)
            };
            (st2.with_scroll_to(Some(m.id)), acts2)
        },
    }
}

proof fn lemma_actions_view_push<Id>(s: Seq<Action<Id>>, a: Action<Id>)
    ensures
        actions_view(s.push(a)) == actions_view(s).push(a@),
{
    assert(actions_view(s.push(a)) =~= actions_view(s).push(a@));
}

/// The position of the first row with id `id`.
pub fn row_position<Id: NodeId>(rows: &[Row<Id>], id: &Id) -> (r: Option<usize>)
    ensures
        match r {
            Some(i) => row_index_of(rows@, *id) == Some(i as int),
            None => row_index_of(rows@, *id) is None,
        },
{
    let n = rows.len();
    let mut i: usize = 0;
    while i < n
        invariant
            n == rows@.len(),
            i <= n,
            forall|j: int| 0 <= j < i ==> row_ids(rows@)[j] != *id,
        decreases n - i,
    {
        if rows[i].info.id.same_id(id) {
            proof {
                assert(row_ids(rows@)[i as int] == *id);
                lemma_first_index_is(row_ids(rows@), *id, i as int);
            }
            return Some(i);
        }
        assert(row_ids(rows@)[i as int] == rows@[i as int].info.id);
        i += 1;
    }
    proof {
        lemma_first_index_absent(row_ids(rows@), *id);
    }
    None
}

/// The node reference reported for `id`, as the rows declare it.
fn info_of<Id: NodeId>(rows: &[Row<Id>], id: &Id) -> (r: NodeInfo<Id>)
    ensures
        r == info_for(rows@, *id),
{
    let is_dir = match row_position(rows, id) {
        Some(k) => rows[k].info.is_dir,
        None => false,
    };
    NodeInfo { id: id.copy_id(), is_dir }
}

/// The selected nodes, in selection order, each with whether its row is a
/// directory.
pub fn selected_infos<Id: NodeId>(state: &TreeViewState<Id>, rows: &[Row<Id>]) -> (r: Vec<NodeInfo<Id>>)
    ensures
        r@ == infos_for(rows@, state@.selected),
{
    let selected = state.selected();
    let n = selected.len();
    let mut out: Vec<NodeInfo<Id>> = Vec::new();
    let mut i: usize = 0;
    while i < n
        invariant
            n == selected@.len(),
            selected@ == state@.selected,
            i <= n,
            out@ =~= infos_for(rows@, selected@.take(i as int)),
        decreases n - i,
    {
        out.push(info_of(rows, &selected[i]));
        i += 1;
        assert(infos_for(rows@, selected@.take(i as int)) =~= infos_for(
            rows@,
            selected@.take(i - 1),
        ).push(info_for(rows@, selected@[i - 1])));
    }
    assert(selected@.take(n as int) =~= selected@);
    out
}

/// The ids of a range selection from `a` to `b`: the rows between their
/// first rows, both included; just `b` when either has no row.
pub fn range_ids<Id: NodeId>(rows: &[Row<Id>], a: &Id, b: &Id) -> (r: Vec<Id>)
    ensures
        r@ == range_spec(rows@, *a, *b),
{
    let ia = row_position(rows, a);
    let ib = row_position(rows, b);
    match (ia, ib) {
        (Some(ia), Some(ib)) => {
            let lo = if ia <= ib { ia } else { ib };
            let hi = if ia <= ib { ib } else { ia };
            let mut out: Vec<Id> = Vec::new();
            let mut k: usize = lo;
            while k <= hi
                invariant
                    lo <= k <= hi + 1,
                    hi < rows@.len(),
                    out@ =~= row_ids(rows@).subrange(lo as int, k as int),
                decreases hi + 1 - k,
            {
                out.push(rows[k].info.id.copy_id());
                k += 1;
            }
            out
        },
        _ => vec![b.copy_id()],
    }
}

/// Open or close a directory row, flipping its openness as recorded, and
/// report it.
pub fn toggle_dir<Id: NodeId>(state: &mut TreeViewState<Id>, row: &Row<Id>, actions: &mut Vec<Action<Id>>)
    requires
        old(state).wf(),
    ensures
        final(state).wf(),
        ({
            let o = toggle_outcome(
                Outcome { state: old(state)@, actions: actions_view(old(actions)@), scrolls: seq![] },
                *row,
            );
            final(state)@ == o.state && actions_view(final(actions)@) == o.actions
        }),
{
    let now_open = !row.open;
    state.set_openness(row.info.id.copy_id(), now_open);
    let action = if now_open {
        Action::DirOpened(row.info.copy_info())
    } else {
        Action::DirClosed(row.info.copy_info())
    };
    proof {
        lemma_actions_view_push(actions@, action);
    }
    actions.push(action);
}

/// Select row `index` after a click with these modifiers, move the cursor
/// there, and report the selection.
pub fn click_select<Id: NodeId>(
    settings: &SelectionSettings,
    state: &mut TreeViewState<Id>,
    rows: &[Row<Id>],
    index: usize,
    modifiers: Modifiers,
    actions: &mut Vec<Action<Id>>,
)
    requires
        old(state).wf(),
        index < rows@.len(),
    ensures
        final(state).wf(),
        ({
            let o = click_select_outcome(
                *settings,
                Outcome { state: old(state)@, actions: actions_view(old(actions)@), scrolls: seq![] },
                rows@,
                index as int,
                modifiers,
            );
            final(state)@ == o.state && actions_view(final(actions)@) == o.actions
        }),
{
    let id = &rows[index].info.id;
    let multi = settings.allow_multi_select;
    let ghost st0 = state@;
    if multi && modifiers.matches_logically(settings.toggle_select_modifier) {
        state.toggle_selected(id.copy_id());
        state.set_pivot(Some(id.copy_id()));
    } else if multi && modifiers.matches_logically(settings.range_select_modifier)
        && state.pivot().is_some() {
        let pivot = state.pivot().unwrap().copy_id();
        assert(st0.pivot == Some(pivot));
        let ids = range_ids(rows, &pivot, id);
        state.set_selected(ids);
    } else {
        let single = vec![id.copy_id()];
        assert(single@ =~= seq![*id]);
        state.set_selected(single);
        state.set_pivot(Some(id.copy_id()));
    }
    state.set_cursor(Some(id.copy_id()));
    let action = Action::SetSelected(selected_infos(state, rows));
    proof {
        lemma_actions_view_push(actions@, action);
    }
    actions.push(action);
}

/// A primary click that landed on row `index`: `on_closer` when it hit the
/// row's closer triangle, `double_clicked` for the second click of a double
/// click.
pub fn handle_click<Id: NodeId>(
    settings: &SelectionSettings,
    state: &mut TreeViewState<Id>,
    rows: &[Row<Id>],
    index: usize,
    on_closer: bool,
    double_clicked: bool,
    modifiers: Modifiers,
    actions: &mut Vec<Action<Id>>,
)
    requires
        old(state).wf(),
        index < rows@.len(),
    ensures
        final(state).wf(),
        ({
            let o = click_outcome(
                *settings,
                Outcome { state: old(state)@, actions: actions_view(old(actions)@), scrolls: seq![] },
                rows@,
                index as int,
                on_closer,
                double_clicked,
                modifiers,
            );
            final(state)@ == o.state && actions_view(final(actions)@) == o.actions
        }),
{
    let row = &rows[index];
    if on_closer {
        toggle_dir(state, row, actions);
        return;
    }
    if double_clicked {
        if !row.info.is_dir {
            click_select(settings, state, rows, index, modifiers, actions);
            let action = Action::Activate { nodes: selected_infos(state, rows), modifiers };
            proof {
                lemma_actions_view_push(actions@, action);
            }
            actions.push(action);
        }
        return;
    }
    click_select(settings, state, rows, index, modifiers, actions);
    if row.info.is_dir && modifiers.is_none() {
        toggle_dir(state, row, actions);
    }
}

/// Select row `index` from the keyboard (see [`select_outcome`]).
fn select_index<Id: NodeId>(
    state: &mut TreeViewState<Id>,
    rows: &[Row<Id>],
    index: usize,
    shift_held: bool,
    actions: &mut Vec<Action<Id>>,
    scrolls: &mut Vec<usize>,
)
    requires
        old(state).wf(),
        index < rows@.len(),
    ensures
        final(state).wf(),
        ({
            let o = select_outcome(
                Outcome { state: old(state)@, actions: actions_view(old(actions)@), scrolls: old(scrolls)@ },
                rows@,
                shift_held,
                index,
            );
            final(state)@ == o.state && actions_view(final(actions)@) == o.actions
                && final(scrolls)@ == o.scrolls
        }),
{
    let id = &rows[index].info.id;
    let ghost st0 = state@;
    if shift_held && state.pivot().is_some() {
        let pivot = state.pivot().unwrap().copy_id();
        assert(st0.pivot == Some(pivot));
        let ids = range_ids(rows, &pivot, id);
        state.set_selected(ids);
    } else {
        let single = vec![id.copy_id()];
        assert(single@ =~= seq![*id]);
        state.set_selected(single);
        state.set_pivot(Some(id.copy_id()));
    }
    state.set_cursor(Some(id.copy_id()));
    let action = Action::SetSelected(selected_infos(state, rows));
    proof {
        lemma_actions_view_push(actions@, action);
    }
    actions.push(action);
    scrolls.push(index);
}

/// The nearest row before row `i` one level up from it.
fn parent_row<Id>(rows: &[Row<Id>], i: usize) -> (r: Option<usize>)
    requires
        i < rows@.len(),
        rows@[i as int].depth > 0,
    ensures
        match r {
            Some(p) => parent_index(rows@, i as int) == Some(p as int),
            None => parent_index(rows@, i as int) is None,
        },
{
    let d = rows[i].depth - 1;
    let ghost di = d as int;
    let mut j: usize = i;
    while j > 0
        invariant
            j <= i < rows@.len(),
            d as int == rows@[i as int].depth - 1,
            di == d as int,
            forall|k: int| j <= k < i ==> rows@[k].depth != d,
        decreases j,
    {
        j -= 1;
        if rows[j].depth == d {
            proof {
                assert(is_last_at_depth_before(rows@, i as int, di, j as int));
                let c = choose|c: int| is_last_at_depth_before(rows@, i as int, di, c);
                if c < j {
                    assert(rows@[j as int].depth != di);
                } else if c > j {
                    assert(rows@[c].depth != di);
                }
            }
            return Some(j);
        }
    }
    assert(!exists|c: int| is_last_at_depth_before(rows@, i as int, di, c));
    None
}

/// The keyboard pass for a focused tree (see [`keys_outcome`]). Returns the
/// rows to scroll to, in order.
pub fn handle_keys<Id: NodeId>(
    settings: &SelectionSettings,
    state: &mut TreeViewState<Id>,
    rows: &[Row<Id>],
    keys: KeyPresses,
    modifiers: Modifiers,
    actions: &mut Vec<Action<Id>>,
) -> (r: Vec<usize>)
    requires
        old(state).wf(),
    ensures
        final(state).wf(),
        ({
            let o = keys_outcome(
                *settings,
                Outcome { state: old(state)@, actions: actions_view(old(actions)@), scrolls: seq![] },
                rows@,
                keys,
                modifiers,
            );
            final(state)@ == o.state && actions_view(final(actions)@) == o.actions && r@ == o.scrolls
        }),
{
    let mut scrolls: Vec<usize> = Vec::new();
    let n = rows.len();
    if n == 0 {
        return scrolls;
    }
    let ghost o0 = Outcome { state: state@, actions: actions_view(actions@), scrolls: scrolls@ };
    let cursor_row = match state.cursor() {
        Some(c) => row_position(rows, c),
        None => None,
    };
    let ghost c = cursor_index_of_pos(cursor_row);
    assert(c == cursor_index(o0.state, rows@));
    let shift_held = settings.allow_multi_select && modifiers.shift_only();

    if keys.down {
        let next = match cursor_row {
            Some(i) => if i + 1 < n - 1 { i + 1 } else { n - 1 },
            None => 0,
        };
        assert(next == down_target(c, n as int));
        select_index(state, rows, next, shift_held, actions, &mut scrolls);
    }
    let ghost o1 = Outcome { state: state@, actions: actions_view(actions@), scrolls: scrolls@ };
    assert(o1 == if keys.down { select_outcome(o0, rows@, shift_held, down_target(c, n as int)) } else { o0 });

    if keys.up {
        let next = match cursor_row {
            Some(i) => if i > 0 { i - 1 } else { 0 },
            None => 0,
        };
        assert(next == up_target(c));
        select_index(state, rows, next, shift_held, actions, &mut scrolls);
    }
    let ghost o2 = Outcome { state: state@, actions: actions_view(actions@), scrolls: scrolls@ };
    assert(o2 == if keys.up { select_outcome(o1, rows@, shift_held, up_target(c)) } else { o1 });

    if keys.right {
        if let Some(i) = cursor_row {
            let row = &rows[i];
            if row.info.is_dir && !row.open {
                toggle_dir(state, row, actions);
            } else if i + 1 < n {
                select_index(state, rows, i + 1, shift_held, actions, &mut scrolls);
            }
        }
    }
    let ghost o3 = Outcome { state: state@, actions: actions_view(actions@), scrolls: scrolls@ };
    assert(o3 == if keys.right && c is Some { right_outcome(o2, rows@, shift_held, c->0) } else { o2 });

    if keys.left {
        if let Some(i) = cursor_row {
            let row = &rows[i];
            if row.info.is_dir && row.open {
                toggle_dir(state, row, actions);
            } else if row.depth > 0 {
                if let Some(parent) = parent_row(rows, i) {
                    select_index(state, rows, parent, shift_held, actions, &mut scrolls);
                }
            }
        }
    }
    let ghost o4 = Outcome { state: state@, actions: actions_view(actions@), scrolls: scrolls@ };
    assert(o4 == if keys.left && c is Some { left_outcome(o3, rows@, shift_held, c->0) } else { o3 });

    if keys.enter {
        let action = Action::Activate { nodes: selected_infos(state, rows), modifiers: Modifiers::none() };
        proof {
            lemma_actions_view_push(actions@, action);
        }
        actions.push(action);
    }
    scrolls
}

/// The cursor row as the keyboard pass sees it.
spec fn cursor_index_of_pos(p: Option<usize>) -> Option<int> {
    match p {
        Some(i) => Some(i as int),
        None => None,
    }
}

/// Apply a matched reveal (see [`reveal_outcome`]).
pub fn apply_reveal<Id: NodeId>(
    state: &mut TreeViewState<Id>,
    reveal: Option<RevealMatch<Id>>,
    actions: &mut Vec<Action<Id>>,
)
    requires
        old(state).wf(),
    ensures
        final(state).wf(),
        (final(state)@, actions_view(final(actions)@)) == reveal_outcome(
            old(state)@,
            actions_view(old(actions)@),
            reveal,
        ),
        match reveal {
            Some(m) => if m.select {
                &&& final(actions)@.len() == old(actions)@.len() + 1
                &&& actions_view(final(actions)@).last() == ActionView::SetSelected(
                    seq![NodeInfo { id: m.id, is_dir: m.is_dir }],
                )
            } else {
                final(actions)@ == old(actions)@
            },
            None => final(actions)@ == old(actions)@,
        },
{
    let m = match reveal {
        None => return,
        Some(m) => m,
    };
    let ghost st0 = state@;
    let n = m.ancestors.len();
    let mut i: usize = 0;
    while i < n
        invariant
            state.wf(),
            n == m.ancestors@.len(),
            i <= n,
            state@ == (StateView { openness: open_all(st0.openness, m.ancestors@.take(i as int)), ..st0 }),
        decreases n - i,
    {
        state.set_openness(m.ancestors[i].copy_id(), true);
        assert(m.ancestors@.take(i + 1).drop_last() =~= m.ancestors@.take(i as int));
        i += 1;
    }
    assert(m.ancestors@.take(n as int) =~= m.ancestors@);
    if m.select {
        let single = vec![m.id.copy_id()];
        assert(single@ =~= seq![m.id]);
        state.set_selected(single);
        state.set_pivot(Some(m.id.copy_id()));
        state.set_cursor(Some(m.id.copy_id()));
        let infos = vec![NodeInfo { id: m.id.copy_id(), is_dir: m.is_dir }];
        assert(infos@ =~= seq![NodeInfo { id: m.id, is_dir: m.is_dir }]);
        let action = Action::SetSelected(infos);
        proof {
            lemma_actions_view_push(actions@, action);
        }
        actions.push(action);
    }
    state.request_scroll_to(m.id);
}

/// Serve a pending scroll request: take it, and find the first row of its
/// node, if the node has a row.
pub fn scroll_target<Id: NodeId>(state: &mut TreeViewState<Id>, rows: &[Row<Id>]) -> (r: Option<usize>)
    requires
        old(state).wf(),
    ensures
        final(state).wf(),
        final(state)@ == old(state)@.with_scroll_to(None),
        match old(state)@.scroll_to {
            Some(t) => match r {
                Some(i) => row_index_of(rows@, t) == Some(i as int),
                None => row_index_of(rows@, t) is None,
            },
            None => r is None,
        },
{
    match state.take_scroll_to() {
        Some(target) => row_position(rows, &target),
        None => None,
    }
}

/// A primary click that landed on a row.
#[derive(Clone, Copy, Debug)]
pub struct Click {
    /// The row under the pointer.
    pub row: usize,
    /// The pointer was on the row's closer triangle.
    pub on_closer: bool,
    /// The click completed a double click.
    pub double_clicked: bool,
    /// The modifiers held during the click.
    pub modifiers: Modifiers,
}

/// The input of one frame, as the widget resolved it.
#[derive(Clone, Copy, Debug)]
pub struct FrameInput {
    /// A primary click on a row, if there was one.
    pub click: Option<Click>,
    /// The keys consumed, when the tree has keyboard focus.
    pub keys: Option<KeyPresses>,
    /// The modifiers held this frame.
    pub modifiers: Modifiers,
}

/// What the input pass of one frame produced.
pub struct FrameResult<Id> {
    /// Everything to report to the application, in order.
    pub actions: Vec<Action<Id>>,
    /// Rows the keyboard moved to, in order, to scroll into view.
    pub key_scrolls: Vec<usize>,
    /// The row of a served scroll request, to scroll to the center.
    pub scroll_row: Option<usize>,
}

/// The input pass of one frame up to the scroll request: the click, then
/// the keys, then a matched reveal.
pub open spec fn frame_before_scroll<Id>(
    settings: SelectionSettings,
    st: StateView<Id>,
    rows: Seq<Row<Id>>,
    reveal: Option<RevealMatch<Id>>,
    input: FrameInput,
) -> Outcome<Id> {
    let o0 = Outcome { state: st, actions: seq![], scrolls: seq![] };
    let o1 = match input.click {
        Some(c) => click_outcome(settings, o0, rows, c.row as int, c.on_closer, c.double_clicked, c.modifiers),
        None => o0,
    };
    let o2 = match input.keys {
        Some(k) => keys_outcome(settings, o1, rows, k, input.modifiers),
        None => o1,
    };
    let (st3, acts3) = reveal_outcome(o2.state, o2.actions, reveal);
    Outcome { state: st3, actions: acts3, scrolls: o2.scrolls }
}

/// The input pass of one frame: the click, then the keys, then a matched
/// reveal, and last the pending scroll request, which is taken.
pub open spec fn frame_outcome<Id>(
    settings: SelectionSettings,
    st: StateView<Id>,
    rows: Seq<Row<Id>>,
    reveal: Option<RevealMatch<Id>>,
    input: FrameInput,
) -> Outcome<Id> {
    let o = frame_before_scroll(settings, st, rows, reveal, input);
    Outcome { state: o.state.with_scroll_to(None), ..o }
}

/// Respond to one frame's input after the build pass (see
/// [`frame_outcome`]).
pub fn respond<Id: NodeId>(
    settings: &SelectionSettings,
    state: &mut TreeViewState<Id>,
    rows: &[Row<Id>],
    reveal: Option<RevealMatch<Id>>,
    input: FrameInput,
) -> (r: FrameResult<Id>)
    requires
        old(state).wf(),
        match input.click {
            Some(c) => c.row < rows@.len(),
            None => true,
        },
    ensures
        final(state).wf(),
        ({
            let o = frame_outcome(*settings, old(state)@, rows@, reveal, input);
            &&& final(state)@ == o.state
            &&& actions_view(r.actions@) == o.actions
            &&& r.key_scrolls@ == o.scrolls
        }),
        match frame_before_scroll(*settings, old(state)@, rows@, reveal, input).state.scroll_to {
            Some(t) => match r.scroll_row {
                Some(i) => row_index_of(rows@, t) == Some(i as int),
                None => row_index_of(rows@, t) is None,
            },
            None => r.scroll_row is None,
        },
{
    let mut actions: Vec<Action<Id>> = Vec::new();
    proof {
        assert(actions_view(actions@) =~= seq![]);
    }
    match input.click {
        Some(c) => handle_click(
            settings,
            state,
            rows,
            c.row,
            c.on_closer,
            c.double_clicked,
            c.modifiers,
            &mut actions,
        ),
        None => {},
    }
    let key_scrolls = match input.keys {
        Some(k) => handle_keys(settings, state, rows, k, input.modifiers, &mut actions),
        None => Vec::new(),
    };
    apply_reveal(state, reveal, &mut actions);
    let scroll_row = scroll_target(state, rows);
    FrameResult { actions, key_scrolls, scroll_row }
}

} // verus!
