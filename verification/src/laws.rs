//! Properties of the tree's state and input handling that span several
//! operations.

use vstd::prelude::*;

use crate::action::{ActionView, NodeInfo};
use crate::builder::{
    all_open, call_id, close_step, dir_step, last_of, never_closes_outer, balanced, call_depth,
    reveal_after, run_calls, BuildCall, BuilderView, RevealMatch, Row,
};
use crate::input::{
    click_outcome, click_select_outcome, cursor_index, info_for, infos_for, down_target, frame_outcome, keys_outcome, left_outcome,
    open_all, parent_index, range_spec, reveal_outcome, right_outcome, row_ids, row_index_of,
    select_outcome, toggle_action, up_target, FrameInput, KeyPresses, Outcome, SelectionSettings,
};
use crate::modifiers::Modifiers;
use crate::state::{
    effective_openness, first_index, is_first_index, lemma_first_index_exists, lemma_first_index_is,
    lemma_record_all_distinct,
    record_all, set_all, toggled, StateView,
};

verus! {

/// What recording a directory's openness stores is what reading it gives
/// back; every other id keeps its recorded openness, and nothing else of the
/// state changes.
pub proof fn law_openness_read_after_write<Id>(s: StateView<Id>, id: Id, other: Id, open: bool)
    ensures
        s.with_openness(id, open).openness.get(id) == Some(open),
        other != id ==> s.with_openness(id, open).openness.get(other) == s.openness.get(other),
        s.with_openness(id, open).selected == s.selected,
        s.with_openness(id, open).cursor == s.cursor,
        s.with_openness(id, open).pivot == s.pivot,
{
}

/// A fresh state has recorded no directory, so every directory starts with
/// its node's default openness.
pub proof fn law_fresh_state_uses_defaults<Id>(id: Id, default_open: bool)
    ensures
        StateView::<Id>::empty().openness.get(id) is None,
        effective_openness(StateView::<Id>::empty().openness, id, default_open) == default_open,
        StateView::<Id>::empty().selected.len() == 0,
{
}

/// Toggling a node that is not selected, and then toggling it again, gives
/// back the selection.
pub proof fn law_toggle_twice_restores<Id>(selected: Seq<Id>, id: Id)
    requires
        !selected.contains(id),
    ensures
        toggled(toggled(selected, id), id) == selected,
        toggled(selected, id).contains(id),
{
    let once = selected.push(id);
    assert(first_index(selected, id) is None) by {
        if exists|i: int| is_first_index(selected, id, i) {
            let i = choose|i: int| is_first_index(selected, id, i);
            assert(selected[i] == id);
        }
    }
    assert(toggled(selected, id) == once);
    assert(is_first_index(once, id, selected.len() as int)) by {
        assert forall|j: int| 0 <= j < selected.len() implies once[j] != id by {
            assert(once[j] == selected[j]);
        }
    }
    lemma_first_index_is(once, id, selected.len() as int);
    assert(once.remove(selected.len() as int) =~= selected);
    assert(once[selected.len() as int] == id);
}

/// A range selection is the same whichever end is the pivot, and holds both
/// ends, when both have rows.
pub proof fn law_range_symmetric<Id>(rows: Seq<Row<Id>>, a: Id, b: Id)
    requires
        row_index_of(rows, a) is Some,
        row_index_of(rows, b) is Some,
    ensures
        range_spec(rows, a, b) == range_spec(rows, b, a),
        range_spec(rows, a, b).contains(a),
        range_spec(rows, a, b).contains(b),
{
    let ia = row_index_of(rows, a)->0;
    let ib = row_index_of(rows, b)->0;
    assert(is_first_index(row_ids(rows), a, ia));
    assert(is_first_index(row_ids(rows), b, ib));
    let lo = if ia <= ib { ia } else { ib };
    let hi = if ia <= ib { ib } else { ia };
    let r = row_ids(rows).subrange(lo, hi + 1);
    assert(r[ia - lo] == a);
    assert(r[ib - lo] == b);
}

/// A click on a closer only opens or closes the directory: the selection,
/// the pivot and the cursor stay as they were.
pub proof fn law_closer_click_keeps_selection<Id>(
    settings: SelectionSettings,
    o: Outcome<Id>,
    rows: Seq<Row<Id>>,
    i: int,
    double_clicked: bool,
    modifiers: Modifiers,
)
    requires
        0 <= i < rows.len(),
    ensures
        ({
            let after = click_outcome(settings, o, rows, i, true, double_clicked, modifiers);
            &&& after.state.selected == o.state.selected
            &&& after.state.pivot == o.state.pivot
            &&& after.state.cursor == o.state.cursor
            &&& after.state.openness == o.state.openness.insert(rows[i].info.id, !rows[i].open)
            &&& after.actions == o.actions.push(toggle_action(rows[i]))
        }),
{
}

/// A plain click (no modifier held, with selection modifiers that need one)
/// selects exactly the clicked node, makes it the pivot and the cursor, and
/// opens or closes it when it is a directory.
pub proof fn law_plain_click_selects_only_row<Id>(
    settings: SelectionSettings,
    o: Outcome<Id>,
    rows: Seq<Row<Id>>,
    i: int,
)
    requires
        0 <= i < rows.len(),
        !Modifiers::none_spec().matches_logically_spec(settings.toggle_select_modifier),
        !Modifiers::none_spec().matches_logically_spec(settings.range_select_modifier),
    ensures
        ({
            let id = rows[i].info.id;
            let after = click_outcome(settings, o, rows, i, false, false, Modifiers::none_spec());
            &&& after.state.selected == seq![id]
            &&& after.state.pivot == Some(id)
            &&& after.state.cursor == Some(id)
            &&& after.state.openness == if rows[i].info.is_dir {
                o.state.openness.insert(id, !rows[i].open)
            } else {
                o.state.openness
            }
        }),
{
}

/// A double click on a leaf selects it as a single click would and then
/// activates the new selection, which holds the leaf; on a directory it does
/// nothing.
pub proof fn law_double_click_activates_leaves<Id>(
    settings: SelectionSettings,
    o: Outcome<Id>,
    rows: Seq<Row<Id>>,
    i: int,
    modifiers: Modifiers,
)
    requires
        0 <= i < rows.len(),
    ensures
        ({
            let after = click_outcome(settings, o, rows, i, false, true, modifiers);
            let single = click_outcome(settings, o, rows, i, false, false, modifiers);
            &&& rows[i].info.is_dir ==> after == o
            &&& !rows[i].info.is_dir ==> {
                &&& after.state == single.state
                &&& after.actions.drop_last() == single.actions
                &&& after.actions.last() == ActionView::Activate {
                    nodes: infos_for(rows, single.state.selected),
                    modifiers: modifiers,
                }
            }
        }),
{
    if !rows[i].info.is_dir {
        let o1 = click_select_outcome(settings, o, rows, i, modifiers);
        let act = ActionView::Activate { nodes: infos_for(rows, o1.state.selected), modifiers: modifiers };
        assert(o1.actions.push(act).drop_last() =~= o1.actions);
    }
}

/// With no toggle modifier held, a double click on a leaf activates a
/// selection that holds the leaf.
pub proof fn law_double_click_activates_clicked_leaf<Id>(
    settings: SelectionSettings,
    o: Outcome<Id>,
    rows: Seq<Row<Id>>,
    i: int,
    modifiers: Modifiers,
)
    requires
        0 <= i < rows.len(),
        !rows[i].info.is_dir,
        !(settings.allow_multi_select && modifiers.matches_logically_spec(settings.toggle_select_modifier)),
    ensures
        ({
            let after = click_outcome(settings, o, rows, i, false, true, modifiers);
            after.actions.last() matches ActionView::Activate { nodes, .. } && exists|k: int|
                0 <= k < nodes.len() && (#[trigger] nodes[k]).id == rows[i].info.id
        }),
{
    let id = rows[i].info.id;
    let after = click_outcome(settings, o, rows, i, false, true, modifiers);
    let sel = after.state.selected;
    lemma_range_holds_end(rows, o.state.pivot, id, i);
    assert(sel.contains(id));
    let k = choose|k: int| 0 <= k < sel.len() && sel[k] == id;
    let nodes = infos_for(rows, sel);
    assert(nodes[k] == info_for(rows, id));
    assert(nodes[k].id == id);
    let o1 = click_select_outcome(settings, o, rows, i, modifiers);
    assert(after.actions.last() == ActionView::Activate { nodes: infos_for(rows, o1.state.selected), modifiers: modifiers });
    assert(o1.state.selected == sel);
    assert(0 <= k < nodes.len());
    assert(after.actions.last() matches ActionView::Activate { nodes, .. } && exists|k: int|
        0 <= k < nodes.len() && (#[trigger] nodes[k]).id == rows[i].info.id) by {
        if let ActionView::Activate { nodes: n2, .. } = after.actions.last() {
            assert(n2 == nodes);
            assert(n2[k].id == rows[i].info.id);
        }
    }
}

/// A single click that does not toggle leaves the clicked id selected:
/// either alone, or at the end of a range that reaches it.
proof fn lemma_range_holds_end<Id>(rows: Seq<Row<Id>>, pivot: Option<Id>, id: Id, i: int)
    requires
        0 <= i < rows.len(),
        rows[i].info.id == id,
    ensures
        seq![id].contains(id),
        pivot matches Some(p) ==> range_spec(rows, p, id).contains(id),
{
    assert(seq![id][0] == id);
    if let Some(p) = pivot {
        assert(row_ids(rows)[i] == id);
        crate::state::lemma_first_index_exists(row_ids(rows), id, i);
        if let Some(ip) = row_index_of(rows, p) {
            let ib = row_index_of(rows, id)->0;
            let cp = choose|j: int| is_first_index(row_ids(rows), p, j);
            let ci = choose|j: int| is_first_index(row_ids(rows), id, j);
            assert(is_first_index(row_ids(rows), p, cp));
            assert(is_first_index(row_ids(rows), id, ci));
            let lo = if ip <= ib { ip } else { ib };
            let hi = if ip <= ib { ib } else { ip };
            assert(range_spec(rows, p, id)[ib - lo] == id);
        } else {
            assert(range_spec(rows, p, id)[0] == id);
        }
    }
}

/// "Expand all" and "collapse all": recording a list of directories as open
/// (or closed) leaves each of them recorded so, and every other id as it was.
pub proof fn law_set_all_records_each<Id>(m: Map<Id, bool>, ids: Seq<Id>, open: bool)
    ensures
        forall|k: int| 0 <= k < ids.len() ==> set_all(m, ids, open).contains_key(#[trigger] ids[k])
            && set_all(m, ids, open)[ids[k]] == open,
        forall|x: Id| !ids.contains(x) ==> set_all(m, ids, open).get(x) == m.get(x),
    decreases ids.len(),
{
    if ids.len() > 0 {
        law_set_all_records_each(m, ids.drop_last(), open);
        assert forall|k: int| 0 <= k < ids.len() implies set_all(m, ids, open).contains_key(#[trigger] ids[k])
            && set_all(m, ids, open)[ids[k]] == open by {
            if k < ids.len() - 1 {
                assert(ids.drop_last()[k] == ids[k]);
            }
        }
        assert forall|x: Id| !ids.contains(x) implies set_all(m, ids, open).get(x) == m.get(x) by {
            assert(x != ids.last());
            if ids.drop_last().contains(x) {
                let k = choose|k: int| 0 <= k < ids.drop_last().len() && ids.drop_last()[k] == x;
                assert(ids[k] == x);
            }
        }
    }
}

/// Opening a list of directories leaves each of them open.
pub proof fn lemma_open_all_opens<Id>(m: Map<Id, bool>, ids: Seq<Id>)
    ensures
        forall|k: int| 0 <= k < ids.len() ==> open_all(m, ids).contains_key(#[trigger] ids[k])
            && open_all(m, ids)[ids[k]],
        forall|x: Id| !ids.contains(x) ==> open_all(m, ids).get(x) == m.get(x),
{
    law_set_all_records_each(m, ids, true);
}

/// A matched "reveal in tree" opens every enclosing directory, makes the
/// node the whole selection, the pivot and the cursor, and asks to scroll
/// to it; an "expand parents" match opens the same directories and leaves
/// the selection alone.
pub proof fn law_reveal_opens_ancestors<Id>(st: StateView<Id>, acts: Seq<ActionView<Id>>, m: RevealMatch<Id>)
    ensures
        ({
            let (after, after_acts) = reveal_outcome(st, acts, Some(m));
            &&& forall|k: int| 0 <= k < m.ancestors@.len() ==> after.openness.contains_key(
                #[trigger] m.ancestors@[k],
            ) && after.openness[m.ancestors@[k]]
            &&& after.scroll_to == Some(m.id)
            &&& m.select ==> after.selected == seq![m.id] && after.cursor == Some(m.id)
                && after.pivot == Some(m.id)
            &&& !m.select ==> after.selected == st.selected && after.cursor == st.cursor
                && after.pivot == st.pivot && after_acts == acts
        }),
{
    lemma_open_all_opens(st.openness, m.ancestors@);
}

/// "Reveal in tree" end to end: when the build pass meets the node of a
/// pending reveal inside a chain of directories, the next input pass with no
/// click and no key opens that whole chain and selects the node alone, with
/// the cursor on it; for "expand parents" the same chain opens and the
/// selection stays.
pub proof fn law_reveal_round_trip<Id>(
    settings: SelectionSettings,
    b: BuilderView<Id>,
    st: StateView<Id>,
    id: Id,
    is_dir: bool,
    rows: Seq<Row<Id>>,
    m: RevealMatch<Id>,
    modifiers: Modifiers,
)
    requires
        st.pending_reveal is Some,
        st.pending_reveal->0.target() == id,
        reveal_after(b, st.pending_reveal, id, is_dir) == Some(m@),
    ensures
        ({
            let input = FrameInput { click: None, keys: None, modifiers: modifiers };
            let after = frame_outcome(settings, st, rows, Some(m), input).state;
            &&& forall|k: int| 0 <= k < b.stack.len() ==> after.openness.contains_key(#[trigger] b.stack[k])
                && after.openness[b.stack[k]]
            &&& st.pending_reveal->0 is Reveal ==> after.selected == seq![id] && after.cursor == Some(id)
            &&& st.pending_reveal->0 is ExpandParents ==> after.selected == st.selected && after.cursor
                == st.cursor
        }),
{
    law_reveal_opens_ancestors(st, seq![], m);
    assert(m.ancestors@ == b.stack);
}

/// `i` is a row of `rows`.
spec fn in_rows(i: usize, n: int) -> bool {
    i < n
}

proof fn lemma_select_in_rows<Id>(o: Outcome<Id>, rows: Seq<Row<Id>>, shift_held: bool, i: usize)
    requires
        forall|k: int| 0 <= k < o.scrolls.len() ==> in_rows(#[trigger] o.scrolls[k], rows.len() as int),
        i < rows.len(),
    ensures
        forall|k: int|
            0 <= k < select_outcome(o, rows, shift_held, i).scrolls.len() ==> in_rows(
                #[trigger] select_outcome(o, rows, shift_held, i).scrolls[k],
                rows.len() as int,
            ),
{
    let s = select_outcome(o, rows, shift_held, i).scrolls;
    assert forall|k: int| 0 <= k < s.len() implies in_rows(#[trigger] s[k], rows.len() as int) by {
        if k < o.scrolls.len() {
            assert(s[k] == o.scrolls[k]);
        }
    }
}

proof fn lemma_cursor_in_rows<Id>(st: StateView<Id>, rows: Seq<Row<Id>>)
    ensures
        cursor_index(st, rows) matches Some(i) ==> 0 <= i < rows.len(),
{
    if let Some(c) = st.cursor {
        if let Some(i) = row_index_of(rows, c) {
            let j = choose|j: int| is_first_index(row_ids(rows), c, j);
            assert(is_first_index(row_ids(rows), c, j));
        }
    }
}

proof fn lemma_parent_before<Id>(rows: Seq<Row<Id>>, i: int)
    requires
        0 <= i < rows.len(),
    ensures
        parent_index(rows, i) matches Some(p) ==> 0 <= p < i,
{
    let d = rows[i].depth - 1;
    if exists|j: int| crate::input::is_last_at_depth_before(rows, i, d, j) {
        let j = choose|j: int| crate::input::is_last_at_depth_before(rows, i, d, j);
        assert(crate::input::is_last_at_depth_before(rows, i, d, j));
    }
}

/// The keyboard never moves onto a row that does not exist: every row the
/// keyboard pass moves to, and so scrolls to, is one of the rows.
pub proof fn law_keyboard_stays_on_rows<Id>(
    settings: SelectionSettings,
    st: StateView<Id>,
    acts: Seq<ActionView<Id>>,
    rows: Seq<Row<Id>>,
    keys: KeyPresses,
    modifiers: Modifiers,
)
    ensures
        ({
            let o = keys_outcome(
                settings,
                Outcome { state: st, actions: acts, scrolls: seq![] },
                rows,
                keys,
                modifiers,
            );
            forall|k: int| 0 <= k < o.scrolls.len() ==> #[trigger] o.scrolls[k] < rows.len()
        }),
{
    let o0 = Outcome { state: st, actions: acts, scrolls: Seq::<usize>::empty() };
    let n = rows.len() as int;
    if n > 0 {
        let shift_held = settings.allow_multi_select && modifiers.shift_only_spec();
        let c = cursor_index(st, rows);
        lemma_cursor_in_rows(st, rows);
        let o1 = if keys.down {
            lemma_select_in_rows(o0, rows, shift_held, down_target(c, n));
            select_outcome(o0, rows, shift_held, down_target(c, n))
        } else {
            o0
        };
        let o2 = if keys.up {
            lemma_select_in_rows(o1, rows, shift_held, up_target(c));
            select_outcome(o1, rows, shift_held, up_target(c))
        } else {
            o1
        };
        let o3 = if keys.right && c is Some {
            let i = c->0;
            if !(rows[i].info.is_dir && !rows[i].open) && i + 1 < n {
                lemma_select_in_rows(o2, rows, shift_held, (i + 1) as usize);
            }
            right_outcome(o2, rows, shift_held, i)
        } else {
            o2
        };
        let o4 = if keys.left && c is Some {
            let i = c->0;
            lemma_parent_before(rows, i);
            if let Some(p) = parent_index(rows, i) {
                lemma_select_in_rows(o3, rows, shift_held, p as usize);
            }
            left_outcome(o3, rows, shift_held, i)
        } else {
            o3
        };
        let o = keys_outcome(settings, o0, rows, keys, modifiers);
        assert(o.scrolls == o4.scrolls);
        assert forall|k: int| 0 <= k < o.scrolls.len() implies #[trigger] o.scrolls[k] < rows.len() by {
            assert(in_rows(o4.scrolls[k], n));
        }
    }
}

/// Saving a state's openness entries and selection, then restoring a state
/// from them, gives back the same openness and selection.
pub proof fn law_saved_state_restores<Id>(s: StateView<Id>, entries: Seq<(Id, bool)>, selected: Seq<Id>)
    requires
        forall|i: int, j: int| 0 <= i < j < entries.len() ==> entries[i].0 != entries[j].0,
        forall|i: int|
            0 <= i < entries.len() ==> s.openness.contains_key(#[trigger] entries[i].0)
                && s.openness[entries[i].0] == entries[i].1,
        forall|k: Id|
            #[trigger] s.openness.contains_key(k) ==> exists|i: int|
                0 <= i < entries.len() && #[trigger] entries[i].0 == k,
        selected == s.selected,
    ensures
        ({
            let restored = StateView {
                openness: record_all(Map::empty(), entries),
                selected: selected,
                ..StateView::<Id>::empty()
            };
            restored.openness == s.openness && restored.selected == s.selected
        }),
{
    lemma_record_all_distinct(entries);
    let m = record_all(Map::<Id, bool>::empty(), entries);
    assert forall|k: Id| #[trigger] m.contains_key(k) <==> s.openness.contains_key(k) by {
        if s.openness.contains_key(k) {
            let i = choose|i: int| 0 <= i < entries.len() && #[trigger] entries[i].0 == k;
            assert(m.contains_key(entries[i].0));
        }
        if m.contains_key(k) {
            let i = choose|i: int| 0 <= i < entries.len() && entries[i].0 == k;
            assert(s.openness.contains_key(entries[i].0));
        }
    }
    assert forall|k: Id| #[trigger] m.contains_key(k) implies m[k] == s.openness[k] by {
        let i = choose|i: int| 0 <= i < entries.len() && entries[i].0 == k;
        assert(m[entries[i].0] == entries[i].1);
    }
    assert(m =~= s.openness);
}

proof fn lemma_drop_last_keeps_prefix_depths<Id>(calls: Seq<BuildCall<Id>>)
    requires
        calls.len() > 0,
        never_closes_outer(calls),
    ensures
        never_closes_outer(calls.drop_last()),
        call_depth(calls) >= 0,
{
    assert forall|k: int| 0 <= k <= calls.drop_last().len() implies call_depth(
        #[trigger] calls.drop_last().take(k),
    ) >= 0 by {
        assert(calls.drop_last().take(k) =~= calls.take(k));
    }
    assert(calls.take(calls.len() as int) =~= calls);
}

/// Calls that never close more than they open keep the builder's chain of
/// directories as a prefix, and change its length by their net depth.
proof fn lemma_run_keeps_chain<Id>(b: BuilderView<Id>, st: StateView<Id>, calls: Seq<BuildCall<Id>>)
    requires
        b.stack.len() == b.opens.len(),
        never_closes_outer(calls),
    ensures
        ({
            let r = run_calls(b, st, calls);
            &&& r.stack.len() == b.stack.len() + call_depth(calls)
            &&& r.opens.len() == r.stack.len()
            &&& r.stack.take(b.stack.len() as int) == b.stack
            &&& r.opens.take(b.opens.len() as int) == b.opens
        }),
    decreases calls.len(),
{
    let n = b.stack.len() as int;
    if calls.len() == 0 {
        assert(b.stack.take(n) =~= b.stack);
        assert(b.opens.take(n) =~= b.opens);
    } else {
        lemma_drop_last_keeps_prefix_depths(calls);
        lemma_run_keeps_chain(b, st, calls.drop_last());
        let p = run_calls(b, st, calls.drop_last());
        let r = run_calls(b, st, calls);
        match calls.last() {
            BuildCall::Dir(id, d) => {
                assert(r.stack.take(n) =~= p.stack.take(n));
                assert(r.opens.take(n) =~= p.opens.take(n));
            },
            BuildCall::Leaf(id) => {},
            BuildCall::Close => {
                assert(p.stack.len() > n);
                assert(r.stack.take(n) =~= p.stack.take(n));
                assert(r.opens.take(n) =~= p.opens.take(n));
            },
        }
    }
}

/// Inside a hidden directory no call records a row.
proof fn lemma_hidden_calls_record_nothing<Id>(b: BuilderView<Id>, st: StateView<Id>, calls: Seq<BuildCall<Id>>)
    requires
        b.stack.len() == b.opens.len(),
        never_closes_outer(calls),
        !all_open(b.opens),
    ensures
        run_calls(b, st, calls).rows == b.rows,
    decreases calls.len(),
{
    if calls.len() > 0 {
        lemma_drop_last_keeps_prefix_depths(calls);
        lemma_hidden_calls_record_nothing(b, st, calls.drop_last());
        lemma_run_keeps_chain(b, st, calls.drop_last());
        let p = run_calls(b, st, calls.drop_last());
        let j = choose|j: int| 0 <= j < b.opens.len() && !b.opens[j];
        assert(p.opens.take(b.opens.len() as int)[j] == p.opens[j]);
        assert(!all_open(p.opens));
    }
}

/// Once a node of the pending reveal has been met, a match for it stays.
proof fn lemma_reveal_stays_matched<Id>(
    b: BuilderView<Id>,
    st: StateView<Id>,
    calls: Seq<BuildCall<Id>>,
    target: Id,
)
    requires
        st.pending_reveal matches Some(p) && p.target() == target,
        (exists|k: int| 0 <= k < calls.len() && call_id(#[trigger] calls[k]) == Some(target))
            || (b.reveal matches Some(r) && r.id == target),
    ensures
        run_calls(b, st, calls).reveal matches Some(r) && r.id == target,
    decreases calls.len(),
{
    if calls.len() > 0 {
        let q = calls.drop_last();
        if (exists|k: int| 0 <= k < q.len() && call_id(#[trigger] q[k]) == Some(target))
            || (b.reveal matches Some(r) && r.id == target) {
            lemma_reveal_stays_matched(b, st, q, target);
        } else {
            let k = choose|k: int| 0 <= k < calls.len() && call_id(#[trigger] calls[k]) == Some(target);
            if k < calls.len() - 1 {
                assert(q[k] == calls[k]);
            }
        }
    }
}

/// `close_dir` undoes its matching `dir`: after a directory, any balanced
/// sequence of calls inside it, and its close, the chain of enclosing
/// directories is as before, so the parent id and whether the parents are
/// open are as before. At the top level `close_dir` changes nothing.
pub proof fn law_close_undoes_dir<Id>(
    b: BuilderView<Id>,
    st: StateView<Id>,
    id: Id,
    default_open: bool,
    calls: Seq<BuildCall<Id>>,
)
    requires
        b.stack.len() == b.opens.len(),
        balanced(calls),
    ensures
        ({
            let after = close_step(run_calls(dir_step(b, st, id, default_open), st, calls));
            &&& after.stack == b.stack
            &&& after.opens == b.opens
            &&& last_of(after.stack) == last_of(b.stack)
            &&& all_open(after.opens) == all_open(b.opens)
        }),
        b.stack.len() == 0 ==> close_step(b) == b && last_of(close_step(b).stack) is None,
{
    let b1 = dir_step(b, st, id, default_open);
    lemma_run_keeps_chain(b1, st, calls);
    let r = run_calls(b1, st, calls);
    assert(r.stack =~= r.stack.take(b1.stack.len() as int));
    assert(r.opens =~= r.opens.take(b1.opens.len() as int));
    assert(r.stack.drop_last() =~= b.stack);
    assert(r.opens.drop_last() =~= b.opens);
}

/// Under a closed directory, or one whose parents are closed, the nodes
/// emitted inside get no row, yet a pending reveal of one of them is still
/// matched, with that node's id.
pub proof fn law_hidden_descendants<Id>(
    b: BuilderView<Id>,
    st: StateView<Id>,
    id: Id,
    default_open: bool,
    calls: Seq<BuildCall<Id>>,
)
    requires
        b.stack.len() == b.opens.len(),
        balanced(calls),
        !all_open(dir_step(b, st, id, default_open).opens),
    ensures
        ({
            let b1 = dir_step(b, st, id, default_open);
            let after = close_step(run_calls(b1, st, calls));
            &&& after.rows == b1.rows
            &&& (st.pending_reveal matches Some(p) && exists|k: int|
                0 <= k < calls.len() && call_id(#[trigger] calls[k]) == Some(p.target()))
                ==> (after.reveal matches Some(r) && r.id == st.pending_reveal->0.target())
        }),
{
    let b1 = dir_step(b, st, id, default_open);
    lemma_hidden_calls_record_nothing(b1, st, calls);
    if let Some(p) = st.pending_reveal {
        if exists|k: int| 0 <= k < calls.len() && call_id(#[trigger] calls[k]) == Some(p.target()) {
            lemma_reveal_stays_matched(b1, st, calls, p.target());
        }
    }
}

/// The cursor's row, when it has one, is a row.
proof fn lemma_cursor_index_in_rows<Id>(st: StateView<Id>, rows: Seq<Row<Id>>)
    requires
        cursor_index(st, rows) is Some,
    ensures
        0 <= cursor_index(st, rows)->0 < rows.len(),
{
    let c = st.cursor->0;
    let k = choose|k: int| is_first_index(row_ids(rows), c, k);
    assert(is_first_index(row_ids(rows), c, k));
}

/// The Right arrow never closes a directory. On the cursor row, a closed
/// directory opens and is reported, and nothing else changes. Any other row
/// keeps every openness as it was; when a row follows it, the cursor moves
/// there, the row is scrolled to and the new selection is reported: the row
/// alone, which becomes the pivot, unless shift extends a range from the
/// pivot. On the last row nothing happens.
pub proof fn law_right_arrow_opens_or_moves_down<Id>(
    settings: SelectionSettings,
    o: Outcome<Id>,
    rows: Seq<Row<Id>>,
    modifiers: Modifiers,
)
    requires
        rows.len() <= usize::MAX,
        cursor_index(o.state, rows) is Some,
    ensures
        ({
            let keys = KeyPresses { down: false, up: false, right: true, left: false, enter: false };
            let r = keys_outcome(settings, o, rows, keys, modifiers);
            let i = cursor_index(o.state, rows)->0;
            let row = rows[i];
            let extends = settings.allow_multi_select && modifiers.shift && !(modifiers.alt
                || modifiers.command) && o.state.pivot is Some;
            &&& row.info.is_dir && !row.open ==> {
                &&& r.state.openness == o.state.openness.insert(row.info.id, true)
                &&& r.actions == o.actions.push(ActionView::DirOpened(row.info))
                &&& r.state.selected == o.state.selected
                &&& r.state.cursor == o.state.cursor
                &&& r.state.pivot == o.state.pivot
                &&& r.scrolls == o.scrolls
            }
            &&& !(row.info.is_dir && !row.open) ==> {
                &&& r.state.openness == o.state.openness
                &&& i + 1 < rows.len() ==> {
                    &&& r.state.cursor == Some(rows[i + 1].info.id)
                    &&& r.scrolls == o.scrolls.push((i + 1) as usize)
                    &&& r.actions == o.actions.push(ActionView::SetSelected(infos_for(rows, r.state.selected)))
                    &&& !extends ==> r.state.selected == seq![rows[i + 1].info.id] && r.state.pivot == Some(
                        rows[i + 1].info.id,
                    )
                    &&& extends ==> r.state.selected == range_spec(rows, o.state.pivot->0, rows[i + 1].info.id)
                }
                &&& i + 1 >= rows.len() ==> r == o
            }
        }),
{
    let i = cursor_index(o.state, rows)->0;
    lemma_cursor_index_in_rows(o.state, rows);
    let keys = KeyPresses { down: false, up: false, right: true, left: false, enter: false };
    let r = keys_outcome(settings, o, rows, keys, modifiers);
    let shift_held = settings.allow_multi_select && modifiers.shift_only_spec();
    assert(r == right_outcome(o, rows, shift_held, i));
    if !(rows[i].info.is_dir && !rows[i].open) && i + 1 < rows.len() {
        assert(r == select_outcome(o, rows, shift_held, (i + 1) as usize));
        assert(r.scrolls == o.scrolls.push((i + 1) as usize));
    }
}

/// The Left arrow never opens a directory. On the cursor row, an open
/// directory closes and is reported, and nothing else changes. Any other row
/// keeps every openness as it was; below the top level the cursor moves to
/// the parent row when there is one, and at the top level nothing happens.
pub proof fn law_left_arrow_closes_or_moves_up<Id>(
    settings: SelectionSettings,
    o: Outcome<Id>,
    rows: Seq<Row<Id>>,
    modifiers: Modifiers,
)
    requires
        rows.len() <= usize::MAX,
        cursor_index(o.state, rows) is Some,
    ensures
        ({
            let keys = KeyPresses { down: false, up: false, right: false, left: true, enter: false };
            let r = keys_outcome(settings, o, rows, keys, modifiers);
            let i = cursor_index(o.state, rows)->0;
            let row = rows[i];
            &&& row.info.is_dir && row.open ==> {
                &&& r.state.openness == o.state.openness.insert(row.info.id, false)
                &&& r.actions == o.actions.push(ActionView::DirClosed(row.info))
                &&& r.state.selected == o.state.selected
                &&& r.state.cursor == o.state.cursor
                &&& r.scrolls == o.scrolls
            }
            &&& !(row.info.is_dir && row.open) ==> {
                &&& r.state.openness == o.state.openness
                &&& row.depth > 0 && parent_index(rows, i) is Some ==> {
                    let p = parent_index(rows, i)->0;
                    &&& 0 <= p < i
                    &&& rows[p].depth == row.depth - 1
                    &&& r.state.cursor == Some(rows[p].info.id)
                    &&& r.scrolls == o.scrolls.push(p as usize)
                }
                &&& row.depth == 0 ==> r == o
            }
        }),
{
    let i = cursor_index(o.state, rows)->0;
    lemma_cursor_index_in_rows(o.state, rows);
    let row = rows[i];
    if !(row.info.is_dir && row.open) && row.depth > 0 && parent_index(rows, i) is Some {
        let d = rows[i].depth - 1;
        let p = choose|j: int| crate::input::is_last_at_depth_before(rows, i, d, j);
        assert(crate::input::is_last_at_depth_before(rows, i, d, p));
        let keys = KeyPresses { down: false, up: false, right: false, left: true, enter: false };
        let r = keys_outcome(settings, o, rows, keys, modifiers);
        let shift_held = settings.allow_multi_select && modifiers.shift_only_spec();
        assert(r == left_outcome(o, rows, shift_held, i));
        assert(r == select_outcome(o, rows, shift_held, p as usize));
    }
}

/// A single click that is not on the closer opens or closes a directory
/// only when no modifier is held, and then flips it as its row showed it.
/// With any modifier held, or on a leaf, every openness stays as it was and
/// the one report is the new selection. Either way the cursor moves to the
/// clicked row. A double click never opens or closes anything.
pub proof fn law_only_plain_clicks_toggle<Id>(
    settings: SelectionSettings,
    o: Outcome<Id>,
    rows: Seq<Row<Id>>,
    i: int,
    modifiers: Modifiers,
)
    requires
        0 <= i < rows.len(),
    ensures
        ({
            let r = click_outcome(settings, o, rows, i, false, false, modifiers);
            let row = rows[i];
            let plain = modifiers == Modifiers::none_spec();
            &&& r.state.cursor == Some(row.info.id)
            &&& !(plain && row.info.is_dir) ==> {
                &&& r.state.openness == o.state.openness
                &&& r.actions == o.actions.push(ActionView::SetSelected(infos_for(rows, r.state.selected)))
            }
            &&& plain && row.info.is_dir ==> {
                &&& r.state.openness == o.state.openness.insert(row.info.id, !row.open)
                &&& r.actions.len() == o.actions.len() + 2
                &&& r.actions.subrange(0, o.actions.len() as int) == o.actions
                &&& r.actions[o.actions.len() as int] is SetSelected
                &&& r.actions.last() == if row.open {
                    ActionView::DirClosed(row.info)
                } else {
                    ActionView::DirOpened(row.info)
                }
            }
        }),
        click_outcome(settings, o, rows, i, false, true, modifiers).state.openness == o.state.openness,
{
    let r = click_outcome(settings, o, rows, i, false, false, modifiers);
    if modifiers == Modifiers::none_spec() && rows[i].info.is_dir {
        assert(r.actions.subrange(0, o.actions.len() as int) =~= o.actions);
    }
}

/// The build pass shows a directory open or closed as the tree recorded it,
/// whatever the node's default; the default counts only for an id the tree
/// never recorded. The row recorded for the directory, when its parents are
/// open, carries that openness.
pub proof fn law_recorded_openness_wins<Id>(b: BuilderView<Id>, st: StateView<Id>, id: Id, default_open: bool)
    ensures
        ({
            let open = if st.openness.contains_key(id) {
                st.openness[id]
            } else {
                default_open
            };
            let after = dir_step(b, st, id, default_open);
            &&& st.openness.contains_key(id) ==> effective_openness(st.openness, id, default_open)
                == st.openness[id]
            &&& !st.openness.contains_key(id) ==> effective_openness(st.openness, id, default_open)
                == default_open
            &&& after.opens.last() == open
            &&& all_open(b.opens) ==> after.rows.last().open == open && after.rows.last().info.id == id
        }),
{
}

/// A selecting reveal reports exactly one selection, of the revealed node as
/// the build pass met it: its id and whether it is a directory. An "expand
/// parents" match reports nothing.
pub proof fn law_reveal_reports_the_node<Id>(st: StateView<Id>, acts: Seq<ActionView<Id>>, m: RevealMatch<Id>)
    ensures
        ({
            let (after, after_acts) = reveal_outcome(st, acts, Some(m));
            &&& m.select ==> {
                &&& after_acts.len() == acts.len() + 1
                &&& after_acts.drop_last() == acts
                &&& after_acts.last() is SetSelected
                &&& after_acts.last()->SetSelected_0.len() == 1
                &&& after_acts.last()->SetSelected_0[0].id == m.id
                &&& after_acts.last()->SetSelected_0[0].is_dir == m.is_dir
            }
            &&& !m.select ==> after_acts == acts
        }),
{
    if m.select {
        let (after, after_acts) = reveal_outcome(st, acts, Some(m));
        assert(after_acts.drop_last() =~= acts);
    }
}

/// Down moves the cursor to the next row and stays on the last; Up moves it
/// to the previous row and stays on the first; with no cursor row, both go
/// to the first row. Either way the row is scrolled to, the new selection is
/// reported, and no directory opens or closes.
pub proof fn law_down_up_arrows_move_one_row<Id>(
    settings: SelectionSettings,
    o: Outcome<Id>,
    rows: Seq<Row<Id>>,
    modifiers: Modifiers,
)
    requires
        0 < rows.len() <= usize::MAX,
    ensures
        ({
            let n = rows.len();
            let c = cursor_index(o.state, rows);
            let next = match c {
                Some(i) => if i + 1 < n { i + 1 } else { n - 1 },
                None => 0,
            };
            let prev = match c {
                Some(i) => if i > 0 { i - 1 } else { 0 },
                None => 0,
            };
            let down = keys_outcome(
                settings,
                o,
                rows,
                KeyPresses { down: true, up: false, right: false, left: false, enter: false },
                modifiers,
            );
            let up = keys_outcome(
                settings,
                o,
                rows,
                KeyPresses { down: false, up: true, right: false, left: false, enter: false },
                modifiers,
            );
            &&& down.state.cursor == Some(rows[next].info.id)
            &&& down.scrolls == o.scrolls.push(next as usize)
            &&& down.state.openness == o.state.openness
            &&& down.actions == o.actions.push(ActionView::SetSelected(infos_for(rows, down.state.selected)))
            &&& up.state.cursor == Some(rows[prev].info.id)
            &&& up.scrolls == o.scrolls.push(prev as usize)
            &&& up.state.openness == o.state.openness
            &&& up.actions == o.actions.push(ActionView::SetSelected(infos_for(rows, up.state.selected)))
        }),
{
    if cursor_index(o.state, rows) is Some {
        lemma_cursor_index_in_rows(o.state, rows);
    }
    let n = rows.len();
    let c = cursor_index(o.state, rows);
    let shift_held = settings.allow_multi_select && modifiers.shift_only_spec();
    let dt = down_target(c, n as int);
    let ut = up_target(c);
    assert(0 <= dt < n);
    assert(0 <= ut < n);
}

/// Enter activates the selection as it stands, reporting each selected node
/// in selection order, and changes nothing else; with no rows, keys do
/// nothing at all.
pub proof fn law_enter_activates_selection<Id>(
    settings: SelectionSettings,
    o: Outcome<Id>,
    rows: Seq<Row<Id>>,
    modifiers: Modifiers,
)
    ensures
        ({
            let r = keys_outcome(
                settings,
                o,
                rows,
                KeyPresses { down: false, up: false, right: false, left: false, enter: true },
                modifiers,
            );
            &&& rows.len() == 0 ==> r == o
            &&& rows.len() > 0 ==> {
                &&& r.state == o.state
                &&& r.scrolls == o.scrolls
                &&& r.actions.drop_last() == o.actions
                &&& r.actions.len() == o.actions.len() + 1
                &&& r.actions.last() is Activate
                &&& r.actions.last()->Activate_modifiers == Modifiers::none_spec()
                &&& r.actions.last()->Activate_nodes.len() == o.state.selected.len()
                &&& forall|j: int|
                    0 <= j < o.state.selected.len() ==> (#[trigger] r.actions.last()->Activate_nodes[j]).id
                        == o.state.selected[j]
            }
        }),
{
    let r = keys_outcome(
        settings,
        o,
        rows,
        KeyPresses { down: false, up: false, right: false, left: false, enter: true },
        modifiers,
    );
    if rows.len() > 0 {
        assert(r.actions.drop_last() =~= o.actions);
    }
}

/// The node reported for an id is the one its row shows: the same id, and a
/// directory exactly when its first row is a directory.
pub proof fn law_reported_nodes_match_rows<Id>(rows: Seq<Row<Id>>, k: int)
    requires
        0 <= k < rows.len(),
        forall|j: int| 0 <= j < k ==> rows[j].info.id != rows[k].info.id,
    ensures
        info_for(rows, rows[k].info.id) == rows[k].info,
{
    let id = rows[k].info.id;
    assert forall|j: int| 0 <= j < k implies row_ids(rows)[j] != id by {
        assert(row_ids(rows)[j] == rows[j].info.id);
    }
    assert(is_first_index(row_ids(rows), id, k));
    lemma_first_index_is(row_ids(rows), id, k);
}

/// Each row knows where it stands. A directory met while every enclosing
/// directory is open gets a row at the depth of the number of enclosing
/// directories, under the innermost of them. A leaf emitted right inside it
/// gets a row one level deeper, under that directory, when the directory is
/// open, and no row when it is closed.
pub proof fn law_rows_record_depth_and_parent<Id>(
    b: BuilderView<Id>,
    st: StateView<Id>,
    id: Id,
    default_open: bool,
    child: Id,
)
    requires
        b.stack.len() == b.opens.len(),
        b.stack.len() < usize::MAX,
        all_open(b.opens),
    ensures
        ({
            let b1 = dir_step(b, st, id, default_open);
            let b2 = crate::builder::leaf_step(b1, st, child);
            &&& b1.rows.len() == b.rows.len() + 1
            &&& b1.rows.last().info == (NodeInfo { id: id, is_dir: true })
            &&& b1.rows.last().depth == b.stack.len()
            &&& b1.rows.last().parent == if b.stack.len() == 0 {
                None
            } else {
                Some(b.stack[b.stack.len() - 1])
            }
            &&& b1.opens.last() ==> {
                &&& b2.rows.len() == b1.rows.len() + 1
                &&& b2.rows.last().info == (NodeInfo { id: child, is_dir: false })
                &&& b2.rows.last().depth == b.stack.len() + 1
                &&& b2.rows.last().parent == Some(id)
            }
            &&& !b1.opens.last() ==> b2.rows == b1.rows
        }),
{
    let b1 = dir_step(b, st, id, default_open);
    if b1.opens.last() {
        assert forall|j: int| 0 <= j < b1.opens.len() implies b1.opens[j] by {
            if j < b.opens.len() {
                assert(b1.opens[j] == b.opens[j]);
            }
        }
    } else {
        assert(!b1.opens[b1.opens.len() - 1]);
    }
}

/// A click with the toggle modifier, when several nodes may be selected,
/// flips whether the clicked node is selected and leaves every other node as
/// it was; the node becomes the pivot and the cursor. A selection that named
/// no node twice still names none twice.
pub proof fn law_toggle_click_flips_membership<Id>(
    settings: SelectionSettings,
    o: Outcome<Id>,
    rows: Seq<Row<Id>>,
    i: int,
    modifiers: Modifiers,
)
    requires
        0 <= i < rows.len(),
        settings.allow_multi_select,
        modifiers.matches_logically_spec(settings.toggle_select_modifier),
        o.state.selected.no_duplicates(),
    ensures
        ({
            let id = rows[i].info.id;
            let r = click_outcome(settings, o, rows, i, false, false, modifiers);
            &&& r.state.selected.contains(id) == !o.state.selected.contains(id)
            &&& forall|x: Id| x != id ==> r.state.selected.contains(x) == o.state.selected.contains(x)
            &&& r.state.selected.no_duplicates()
            &&& r.state.pivot == Some(id)
            &&& r.state.cursor == Some(id)
        }),
{
    let id = rows[i].info.id;
    let sel = o.state.selected;
    let t = toggled(sel, id);
    let r = click_outcome(settings, o, rows, i, false, false, modifiers);
    assert(r.state.selected == t);
    match first_index(sel, id) {
        Some(k) => {
            let k0 = choose|k: int| is_first_index(sel, id, k);
            assert(is_first_index(sel, id, k0));
            assert(t == sel.remove(k0));
            assert forall|j: int| 0 <= j < t.len() implies t[j] != id by {
                if j < k0 {
                    assert(t[j] == sel[j]);
                } else {
                    assert(t[j] == sel[j + 1]);
                }
            }
            assert forall|x: Id| x != id implies t.contains(x) == sel.contains(x) by {
                if sel.contains(x) {
                    let j = choose|j: int| 0 <= j < sel.len() && sel[j] == x;
                    if j < k0 {
                        assert(t[j] == x);
                    } else {
                        assert(j != k0);
                        assert(t[j - 1] == x);
                    }
                }
                if t.contains(x) {
                    let j = choose|j: int| 0 <= j < t.len() && t[j] == x;
                    if j < k0 {
                        assert(sel[j] == x);
                    } else {
                        assert(sel[j + 1] == x);
                    }
                }
            }
            assert(sel.contains(id));
            assert forall|a: int, c: int| 0 <= a < t.len() && 0 <= c < t.len() && a != c implies t[a] != t[c] by {
                let a1 = if a < k0 { a } else { a + 1 };
                let c1 = if c < k0 { c } else { c + 1 };
                assert(t[a] == sel[a1]);
                assert(t[c] == sel[c1]);
            }
        },
        None => {
            assert(t == sel.push(id));
            assert(!sel.contains(id)) by {
                if sel.contains(id) {
                    let j = choose|j: int| 0 <= j < sel.len() && sel[j] == id;
                    lemma_first_index_exists(sel, id, j);
                }
            }
            assert(t[sel.len() as int] == id);
            assert forall|x: Id| x != id implies t.contains(x) == sel.contains(x) by {
                if sel.contains(x) {
                    let j = choose|j: int| 0 <= j < sel.len() && sel[j] == x;
                    assert(t[j] == x);
                }
                if t.contains(x) {
                    let j = choose|j: int| 0 <= j < t.len() && t[j] == x;
                    assert(sel[j] == x);
                }
            }
            assert forall|a: int, c: int| 0 <= a < t.len() && 0 <= c < t.len() && a != c implies t[a] != t[c] by {
                if a < sel.len() && c < sel.len() {
                } else if a < sel.len() {
                    assert(t[a] == sel[a]);
                } else if c < sel.len() {
                    assert(t[c] == sel[c]);
                }
            }
        },
    }
}

/// A click with the range modifier, when several nodes may be selected and
/// the pivot has a row, selects every row from the pivot's to the clicked
/// one, both included, in row order, and keeps the pivot; the cursor moves
/// to the clicked row.
pub proof fn law_range_click_selects_between<Id>(
    settings: SelectionSettings,
    o: Outcome<Id>,
    rows: Seq<Row<Id>>,
    i: int,
    modifiers: Modifiers,
)
    requires
        0 <= i < rows.len(),
        forall|j: int| 0 <= j < i ==> rows[j].info.id != rows[i].info.id,
        settings.allow_multi_select,
        modifiers.matches_logically_spec(settings.range_select_modifier),
        !modifiers.matches_logically_spec(settings.toggle_select_modifier),
        o.state.pivot is Some,
        row_index_of(rows, o.state.pivot->0) is Some,
    ensures
        ({
            let r = click_outcome(settings, o, rows, i, false, false, modifiers);
            let p = row_index_of(rows, o.state.pivot->0)->0;
            let lo = if p <= i { p } else { i };
            let hi = if p <= i { i } else { p };
            &&& 0 <= p < rows.len()
            &&& rows[p].info.id == o.state.pivot->0
            &&& r.state.selected.len() == hi - lo + 1
            &&& forall|j: int| 0 <= j <= hi - lo ==> #[trigger] r.state.selected[j] == rows[lo + j].info.id
            &&& r.state.pivot == o.state.pivot
            &&& r.state.cursor == Some(rows[i].info.id)
        }),
{
    let id = rows[i].info.id;
    let pv = o.state.pivot->0;
    assert forall|j: int| 0 <= j < i implies row_ids(rows)[j] != id by {
        assert(row_ids(rows)[j] == rows[j].info.id);
    }
    assert(is_first_index(row_ids(rows), id, i));
    lemma_first_index_is(row_ids(rows), id, i);
    let p = choose|k: int| is_first_index(row_ids(rows), pv, k);
    assert(is_first_index(row_ids(rows), pv, p));
    assert(row_ids(rows)[p] == rows[p].info.id);
    let r = click_outcome(settings, o, rows, i, false, false, modifiers);
    let lo = if p <= i { p } else { i };
    let hi = if p <= i { i } else { p };
    assert(r.state.selected == row_ids(rows).subrange(lo, hi + 1));
    assert forall|j: int| 0 <= j <= hi - lo implies #[trigger] r.state.selected[j] == rows[lo + j].info.id by {
        assert(row_ids(rows)[lo + j] == rows[lo + j].info.id);
    }
}

} // verus!
