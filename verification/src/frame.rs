//! What one frame, and a run of frames, report against what they change:
//! the reported selection is the selection, every user change of openness
//! is reported, and a directory nobody touches stays unrecorded.

use vstd::prelude::*;

use crate::action::{ActionView, NodeInfo};
use crate::builder::{RevealMatch, Row};
use crate::input::{
    click_outcome, click_select_outcome, cursor_index, down_target, frame_before_scroll,
    frame_outcome, infos_for, keys_outcome, left_outcome, open_all, parent_index, reveal_outcome,
    right_outcome, select_outcome, toggle_outcome, up_target, FrameInput, Outcome,
    SelectionSettings,
};
use crate::laws::lemma_open_all_opens;
use crate::modifiers::Modifiers;
use crate::state::StateView;

verus! {

/// The ids of a list of node references.
pub open spec fn node_ids<Id>(nodes: Seq<NodeInfo<Id>>) -> Seq<Id> {
    nodes.map_values(|n: NodeInfo<Id>| n.id)
}

/// The ids of the last selection reported, if any.
pub open spec fn last_selection<Id>(acts: Seq<ActionView<Id>>) -> Option<Seq<Id>>
    decreases acts.len(),
{
    if acts.len() == 0 {
        None
    } else {
        match acts.last() {
            ActionView::SetSelected(nodes) => Some(node_ids(nodes)),
            _ => last_selection(acts.drop_last()),
        }
    }
}

/// The openness last reported for `id` (`true` for opened, `false` for
/// closed), if any.
pub open spec fn last_openness<Id>(acts: Seq<ActionView<Id>>, id: Id) -> Option<bool>
    decreases acts.len(),
{
    if acts.len() == 0 {
        None
    } else {
        match acts.last() {
            ActionView::DirOpened(info) => if info.id == id {
                Some(true)
            } else {
                last_openness(acts.drop_last(), id)
            },
            ActionView::DirClosed(info) => if info.id == id {
                Some(false)
            } else {
                last_openness(acts.drop_last(), id)
            },
            _ => last_openness(acts.drop_last(), id),
        }
    }
}

/// The reports of `o` agree with its state, measured from `st`: the last
/// reported selection is the selection, or it is unchanged when none was
/// reported; the last reported openness of each id is its openness, or it is
/// unchanged when none was reported.
pub open spec fn reports_agree<Id>(st: StateView<Id>, o: Outcome<Id>) -> bool {
    &&& match last_selection(o.actions) {
        Some(ids) => ids == o.state.selected,
        None => o.state.selected == st.selected,
    }
    &&& forall|id: Id| match #[trigger] last_openness(o.actions, id) {
        Some(b) => o.state.openness.get(id) == Some(b),
        None => o.state.openness.get(id) == st.openness.get(id),
    }
}

proof fn lemma_push<Id>(acts: Seq<ActionView<Id>>, a: ActionView<Id>)
    ensures
        last_selection(acts.push(a)) == match a {
            ActionView::SetSelected(nodes) => Some(node_ids(nodes)),
            _ => last_selection(acts),
        },
        forall|id: Id| #[trigger] last_openness(acts.push(a), id) == match a {
            ActionView::DirOpened(info) => if info.id == id { Some(true) } else { last_openness(acts, id) },
            ActionView::DirClosed(info) => if info.id == id { Some(false) } else { last_openness(acts, id) },
            _ => last_openness(acts, id),
        },
{
    assert(acts.push(a).drop_last() =~= acts);
}

proof fn lemma_infos_ids<Id>(rows: Seq<Row<Id>>, ids: Seq<Id>)
    ensures
        node_ids(infos_for(rows, ids)) == ids,
{
    assert(node_ids(infos_for(rows, ids)) =~= ids);
}

proof fn lemma_toggle_agrees<Id>(st: StateView<Id>, o: Outcome<Id>, row: Row<Id>)
    requires
        reports_agree(st, o),
    ensures
        reports_agree(st, toggle_outcome(o, row)),
{
    let t = toggle_outcome(o, row);
    lemma_push(o.actions, crate::input::toggle_action(row));
    assert forall|id: Id| match #[trigger] last_openness(t.actions, id) {
        Some(b) => t.state.openness.get(id) == Some(b),
        None => t.state.openness.get(id) == st.openness.get(id),
    } by {
        if id != row.info.id {
            assert(last_openness(t.actions, id) == last_openness(o.actions, id));
        }
    }
}

proof fn lemma_select_agrees<Id>(st: StateView<Id>, o: Outcome<Id>, rows: Seq<Row<Id>>, shift_held: bool, i: usize)
    requires
        reports_agree(st, o),
    ensures
        reports_agree(st, select_outcome(o, rows, shift_held, i)),
{
    let t = select_outcome(o, rows, shift_held, i);
    let a = t.actions.last();
    assert(t.actions == o.actions.push(a));
    lemma_push(o.actions, a);
    lemma_infos_ids(rows, t.state.selected);
    assert forall|id: Id| match #[trigger] last_openness(t.actions, id) {
        Some(b) => t.state.openness.get(id) == Some(b),
        None => t.state.openness.get(id) == st.openness.get(id),
    } by {
        assert(last_openness(t.actions, id) == last_openness(o.actions, id));
    }
}

proof fn lemma_click_select_agrees<Id>(
    settings: SelectionSettings,
    st: StateView<Id>,
    o: Outcome<Id>,
    rows: Seq<Row<Id>>,
    i: int,
    modifiers: Modifiers,
)
    requires
        reports_agree(st, o),
    ensures
        reports_agree(st, click_select_outcome(settings, o, rows, i, modifiers)),
{
    let t = click_select_outcome(settings, o, rows, i, modifiers);
    let a = t.actions.last();
    assert(t.actions == o.actions.push(a));
    lemma_push(o.actions, a);
    lemma_infos_ids(rows, t.state.selected);
    assert forall|id: Id| match #[trigger] last_openness(t.actions, id) {
        Some(b) => t.state.openness.get(id) == Some(b),
        None => t.state.openness.get(id) == st.openness.get(id),
    } by {
        assert(last_openness(t.actions, id) == last_openness(o.actions, id));
    }
}

proof fn lemma_activate_agrees<Id>(st: StateView<Id>, o: Outcome<Id>, nodes: Seq<NodeInfo<Id>>, modifiers: Modifiers)
    requires
        reports_agree(st, o),
    ensures
        reports_agree(
            st,
            Outcome { actions: o.actions.push(ActionView::Activate { nodes: nodes, modifiers: modifiers }), ..o },
        ),
{
    let a = ActionView::Activate { nodes: nodes, modifiers: modifiers };
    lemma_push(o.actions, a);
    let t = Outcome { actions: o.actions.push(a), ..o };
    assert forall|id: Id| match #[trigger] last_openness(t.actions, id) {
        Some(b) => t.state.openness.get(id) == Some(b),
        None => t.state.openness.get(id) == st.openness.get(id),
    } by {
        assert(last_openness(t.actions, id) == last_openness(o.actions, id));
    }
}

proof fn lemma_click_agrees<Id>(
    settings: SelectionSettings,
    st: StateView<Id>,
    o: Outcome<Id>,
    rows: Seq<Row<Id>>,
    i: int,
    on_closer: bool,
    double_clicked: bool,
    modifiers: Modifiers,
)
    requires
        reports_agree(st, o),
    ensures
        reports_agree(st, click_outcome(settings, o, rows, i, on_closer, double_clicked, modifiers)),
{
    let row = rows[i];
    if on_closer {
        lemma_toggle_agrees(st, o, row);
    } else if double_clicked {
        if !row.info.is_dir {
            let o1 = click_select_outcome(settings, o, rows, i, modifiers);
            lemma_click_select_agrees(settings, st, o, rows, i, modifiers);
            lemma_activate_agrees(st, o1, infos_for(rows, o1.state.selected), modifiers);
        }
    } else {
        let o1 = click_select_outcome(settings, o, rows, i, modifiers);
        lemma_click_select_agrees(settings, st, o, rows, i, modifiers);
        if row.info.is_dir && modifiers.is_none_spec() {
            lemma_toggle_agrees(st, o1, row);
        }
    }
}

proof fn lemma_keys_agree<Id>(
    settings: SelectionSettings,
    st: StateView<Id>,
    o: Outcome<Id>,
    rows: Seq<Row<Id>>,
    keys: crate::input::KeyPresses,
    modifiers: Modifiers,
)
    requires
        reports_agree(st, o),
    ensures
        reports_agree(st, keys_outcome(settings, o, rows, keys, modifiers)),
{
    if rows.len() > 0 {
        let shift_held = settings.allow_multi_select && modifiers.shift_only_spec();
        let c = cursor_index(o.state, rows);
        let n = rows.len() as int;
        let o1 = if keys.down {
            lemma_select_agrees(st, o, rows, shift_held, down_target(c, n));
            select_outcome(o, rows, shift_held, down_target(c, n))
        } else {
            o
        };
        let o2 = if keys.up {
            lemma_select_agrees(st, o1, rows, shift_held, up_target(c));
            select_outcome(o1, rows, shift_held, up_target(c))
        } else {
            o1
        };
        let o3 = if keys.right && c is Some {
            let i = c->0;
            if rows[i].info.is_dir && !rows[i].open {
                lemma_toggle_agrees(st, o2, rows[i]);
            } else if i + 1 < n {
                lemma_select_agrees(st, o2, rows, shift_held, (i + 1) as usize);
            }
            right_outcome(o2, rows, shift_held, i)
        } else {
            o2
        };
        let o4 = if keys.left && c is Some {
            let i = c->0;
            if rows[i].info.is_dir && rows[i].open {
                lemma_toggle_agrees(st, o3, rows[i]);
            } else if rows[i].depth > 0 {
                if let Some(p) = parent_index(rows, i) {
                    lemma_select_agrees(st, o3, rows, shift_held, p as usize);
                }
            }
            left_outcome(o3, rows, shift_held, i)
        } else {
            o3
        };
        if keys.enter {
            lemma_activate_agrees(st, o4, infos_for(rows, o4.state.selected), Modifiers::none_spec());
        }
    }
}

/// One frame's reports agree with what it changes: when the frame reports
/// a selection, the last one reported is the selection; when it reports
/// none, the selection is unchanged; and every directory whose openness the
/// frame changed, other than the ancestors a matched reveal opens, has a
/// report of it, the last of which is its openness now.
pub proof fn law_frame_reports_agree<Id>(
    settings: SelectionSettings,
    st: StateView<Id>,
    rows: Seq<Row<Id>>,
    reveal: Option<RevealMatch<Id>>,
    input: FrameInput,
)
    ensures
        ({
            let o = frame_outcome(settings, st, rows, reveal, input);
            &&& match last_selection(o.actions) {
                Some(ids) => ids == o.state.selected,
                None => o.state.selected == st.selected,
            }
            &&& forall|id: Id|
                !(reveal matches Some(m) && m.ancestors@.contains(id)) ==> match #[trigger] last_openness(
                    o.actions,
                    id,
                ) {
                    Some(b) => o.state.openness.get(id) == Some(b),
                    None => o.state.openness.get(id) == st.openness.get(id),
                }
        }),
{
    let o0 = Outcome { state: st, actions: Seq::<ActionView<Id>>::empty(), scrolls: Seq::<usize>::empty() };
    assert(last_selection(o0.actions) is None);
    assert forall|id: Id| #[trigger] last_openness(o0.actions, id) is None by {}
    let o1 = match input.click {
        Some(c) => {
            lemma_click_agrees(settings, st, o0, rows, c.row as int, c.on_closer, c.double_clicked, c.modifiers);
            click_outcome(settings, o0, rows, c.row as int, c.on_closer, c.double_clicked, c.modifiers)
        },
        None => o0,
    };
    let o2 = match input.keys {
        Some(k) => {
            lemma_keys_agree(settings, st, o1, rows, k, input.modifiers);
            keys_outcome(settings, o1, rows, k, input.modifiers)
        },
        None => o1,
    };
    let o = frame_outcome(settings, st, rows, reveal, input);
    match reveal {
        None => {},
        Some(m) => {
            lemma_open_all_opens(o2.state.openness, m.ancestors@);
            if m.select {
                let a = ActionView::SetSelected(seq![NodeInfo { id: m.id, is_dir: m.is_dir }]);
                lemma_push(o2.actions, a);
                assert(node_ids(seq![NodeInfo { id: m.id, is_dir: m.is_dir }]) =~= seq![m.id]);
            }
            assert forall|id: Id|
                !m.ancestors@.contains(id) implies match #[trigger] last_openness(o.actions, id) {
                    Some(b) => o.state.openness.get(id) == Some(b),
                    None => o.state.openness.get(id) == st.openness.get(id),
                } by {
                assert(last_openness(o.actions, id) == last_openness(o2.actions, id));
                assert(o.state.openness.get(id) == o2.state.openness.get(id));
            }
        },
    }
}

/// A directory the tree has not recorded stays unrecorded through a frame
/// that reports no opening or closing of it and whose reveal does not open
/// it: its node's default openness is used, never stored.
pub proof fn law_untouched_directory_stays_unrecorded<Id>(
    settings: SelectionSettings,
    st: StateView<Id>,
    rows: Seq<Row<Id>>,
    reveal: Option<RevealMatch<Id>>,
    input: FrameInput,
    k: Id,
)
    requires
        !st.openness.contains_key(k),
        last_openness(frame_outcome(settings, st, rows, reveal, input).actions, k) is None,
        !(reveal matches Some(m) && m.ancestors@.contains(k)),
    ensures
        !frame_outcome(settings, st, rows, reveal, input).state.openness.contains_key(k),
{
    law_frame_reports_agree(settings, st, rows, reveal, input);
    let o = frame_outcome(settings, st, rows, reveal, input);
    assert(match last_openness(o.actions, k) {
        Some(b) => o.state.openness.get(k) == Some(b),
        None => o.state.openness.get(k) == st.openness.get(k),
    });
}

/// One frame as the widget runs it: the rows of the build pass, the reveal
/// it matched, and the input.
#[verifier::reject_recursive_types(Id)]
pub struct Frame<Id> {
    pub rows: Seq<Row<Id>>,
    pub reveal: Option<RevealMatch<Id>>,
    pub input: FrameInput,
}

/// The state after a run of frames. The build pass of each frame reads the
/// state and drops the pending reveal when it matched.
pub open spec fn run_frames<Id>(settings: SelectionSettings, st: StateView<Id>, frames: Seq<Frame<Id>>) -> StateView<Id>
    decreases frames.len(),
{
    if frames.len() == 0 {
        st
    } else {
        let before = run_frames(settings, st, frames.drop_last());
        let f = frames.last();
        let built = if f.reveal is Some { before.with_pending_reveal(None) } else { before };
        frame_outcome(settings, built, f.rows, f.reveal, f.input).state
    }
}

/// No frame of the run reports opening or closing `k`, and no matched
/// reveal opens it.
pub open spec fn untouched_in<Id>(settings: SelectionSettings, st: StateView<Id>, frames: Seq<Frame<Id>>, k: Id) -> bool
    decreases frames.len(),
{
    if frames.len() == 0 {
        true
    } else {
        let before = run_frames(settings, st, frames.drop_last());
        let f = frames.last();
        let built = if f.reveal is Some { before.with_pending_reveal(None) } else { before };
        &&& untouched_in(settings, st, frames.drop_last(), k)
        &&& last_openness(frame_outcome(settings, built, f.rows, f.reveal, f.input).actions, k) is None
        &&& !(f.reveal matches Some(m) && m.ancestors@.contains(k))
    }
}

/// A directory never toggled, by the user or by a reveal, stays unrecorded
/// across any number of frames, so it keeps using its default openness.
pub proof fn law_untouched_directory_stays_unrecorded_across_frames<Id>(
    settings: SelectionSettings,
    st: StateView<Id>,
    frames: Seq<Frame<Id>>,
    k: Id,
)
    requires
        !st.openness.contains_key(k),
        untouched_in(settings, st, frames, k),
    ensures
        !run_frames(settings, st, frames).openness.contains_key(k),
    decreases frames.len(),
{
    if frames.len() > 0 {
        law_untouched_directory_stays_unrecorded_across_frames(settings, st, frames.drop_last(), k);
        let before = run_frames(settings, st, frames.drop_last());
        let f = frames.last();
        let built = if f.reveal is Some { before.with_pending_reveal(None) } else { before };
        law_untouched_directory_stays_unrecorded(settings, built, f.rows, f.reveal, f.input, k);
    }
}

} // verus!
