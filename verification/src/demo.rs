//! The playground's file model: a tree of entries the demo application walks
//! each frame, and the edits that drag-and-drop moves perform on it.

use vstd::multiset::Multiset;
use vstd::prelude::*;

use crate::icon::{extension, icon_for, icon_for_extension, tail_is, Icon, IconSpec};
use crate::state::{
    first_index, is_first_index, lemma_first_index_absent, lemma_first_index_is, set_all, StateView,
    TreeViewState,
};

verus! {

/// One file-system entry of the playground model.
pub struct Entry {
    pub id: u32,
    pub name: String,
    pub is_dir: bool,
    pub is_crate: bool,
    pub children: Vec<Entry>,
}

/// An [`Entry`] as a mathematical value.
pub struct EntryView {
    pub id: u32,
    pub name: Seq<char>,
    pub is_dir: bool,
    pub is_crate: bool,
    pub children: Seq<EntryView>,
}

/// The view of one entry.
pub open spec fn entry_view(e: Entry) -> EntryView
    decreases e, 1int,
{
    EntryView {
        id: e.id,
        name: e.name@,
        is_dir: e.is_dir,
        is_crate: e.is_crate,
        children: entries_view(e.children@),
    }
}

/// The views of a list of entries.
pub open spec fn entries_view(s: Seq<Entry>) -> Seq<EntryView>
    decreases s, 0int,
{
    if s.len() == 0 {
        Seq::empty()
    } else {
        entries_view(s.drop_last()).push(entry_view(s.last()))
    }
}

/// The view of a list of entries is the view of each entry.
pub broadcast proof fn lemma_entries_view_map(s: Seq<Entry>)
    ensures
        (#[trigger] entries_view(s)).len() == s.len() && entries_view(s) == s.map_values(
            |e: Entry| entry_view(e),
        ) && forall|i: int| 0 <= i < s.len() ==> entries_view(s)[i] == entry_view(s[i]),
    decreases s.len(),
{
    if s.len() > 0 {
        lemma_entries_view_map(s.drop_last());
        assert(s.drop_last().map_values(|e: Entry| entry_view(e)).push(entry_view(s.last()))
            =~= s.map_values(|e: Entry| entry_view(e)));
    }
    assert(entries_view(s) =~= s.map_values(|e: Entry| entry_view(e)));
}

/// The ids of the directories of an entry and its descendants, in pre-order.
pub open spec fn dir_ids(e: EntryView) -> Seq<u32>
    decreases e, 1int,
{
    (if e.is_dir {
        seq![e.id]
    } else {
        Seq::empty()
    }) + dir_ids_all(e.children)
}

/// The directory ids of a list of entries and their descendants, in
/// pre-order.
pub open spec fn dir_ids_all(s: Seq<EntryView>) -> Seq<u32>
    decreases s, 0int,
{
    if s.len() == 0 {
        Seq::empty()
    } else {
        dir_ids_all(s.drop_last()) + dir_ids(s.last())
    }
}

impl Entry {
    /// A file.
    pub fn leaf(id: u32, name: &str) -> (r: Self)
        ensures
            entry_view(r) == (EntryView {
                id: id,
                name: name@,
                is_dir: false,
                is_crate: false,
                children: Seq::empty(),
            }),
    {
        let r = Entry { id, name: name.to_owned(), is_dir: false, is_crate: false, children: Vec::new() };
        assert(entries_view(r.children@) =~= Seq::empty());
        r
    }

    /// A directory with these children.
    pub fn dir(id: u32, name: &str, children: Vec<Entry>) -> (r: Self)
        ensures
            entry_view(r) == (EntryView {
                id: id,
                name: name@,
                is_dir: true,
                is_crate: false,
                children: entries_view(children@),
            }),
    {
        Entry { id, name: name.to_owned(), is_dir: true, is_crate: false, children }
    }

    /// A Rust crate: a directory shown with the crate icon.
    pub fn krate(id: u32, name: &str, children: Vec<Entry>) -> (r: Self)
        ensures
            entry_view(r) == (EntryView {
                id: id,
                name: name@,
                is_dir: true,
                is_crate: true,
                children: entries_view(children@),
            }),
    {
        let d = Self::dir(id, name, children);
        Entry { is_crate: true, ..d }
    }

    /// Append the ids of this entry's directories, itself included, in
    /// pre-order.
    pub fn all_dir_ids(&self, out: &mut Vec<u32>)
        ensures
            final(out)@ == old(out)@ + dir_ids(entry_view(*self)),
        decreases *self,
    {
        if self.is_dir {
            out.push(self.id);
        }
        let ghost start = out@;
        let ghost kids = entries_view(self.children@);
        proof {
            lemma_entries_view_map(self.children@);
        }
        let n = self.children.len();
        let mut i: usize = 0;
        while i < n
            invariant
                n == self.children@.len(),
                kids == entries_view(self.children@),
                kids =~= self.children@.map_values(|e: Entry| entry_view(e)),
                i <= n,
                out@ == start + dir_ids_all(kids.take(i as int)),
            decreases n - i,
        {
            assert(decreases_to!(*self => self.children@[i as int]));
            self.children[i].all_dir_ids(out);
            assert(kids.take(i + 1).drop_last() =~= kids.take(i as int));
            assert(kids.take(i + 1).last() == entry_view(self.children@[i as int]));
            i += 1;
        }
        assert(kids.take(n as int) =~= kids);
        assert(out@ =~= old(out)@ + dir_ids(entry_view(*self)));
    }
}

/// The ids of every directory of the model, in pre-order.
pub fn all_dirs(roots: &Vec<Entry>) -> (r: Vec<u32>)
    ensures
        r@ == dir_ids_all(entries_view(roots@)),
{
    let ghost tops = entries_view(roots@);
    proof {
        lemma_entries_view_map(roots@);
    }
    let mut out: Vec<u32> = Vec::new();
    let n = roots.len();
    let mut i: usize = 0;
    while i < n
        invariant
            n == roots@.len(),
            tops == entries_view(roots@),
            tops =~= roots@.map_values(|e: Entry| entry_view(e)),
            i <= n,
            out@ == dir_ids_all(tops.take(i as int)),
        decreases n - i,
    {
        roots[i].all_dir_ids(&mut out);
        assert(tops.take(i + 1).drop_last() =~= tops.take(i as int));
        assert(tops.take(i + 1).last() == entry_view(roots@[i as int]));
        i += 1;
    }
    assert(tops.take(n as int) =~= tops);
    out
}

/// "Expand all" (`open`) or "collapse all": record every directory of the
/// model, in pre-order, as open or closed.
pub fn set_all_dirs_open(state: &mut TreeViewState<u32>, roots: &Vec<Entry>, open: bool)
    requires
        old(state).wf(),
    ensures
        final(state).wf(),
        final(state)@ == (StateView {
            openness: set_all(old(state)@.openness, dir_ids_all(entries_view(roots@)), open),
            ..old(state)@
        }),
{
    let ids = all_dirs(roots);
    state.set_openness_all(ids.as_slice(), open);
}

/// The entries left after removing every entry whose id is in `ids`, at any
/// depth, together with its subtree.
pub open spec fn pruned(s: Seq<EntryView>, ids: Seq<u32>) -> Seq<EntryView>
    decreases s, 0int,
{
    if s.len() == 0 {
        Seq::empty()
    } else {
        let rest = pruned(s.drop_last(), ids);
        let e = s.last();
        if ids.contains(e.id) {
            rest
        } else {
            rest.push(pruned_entry(e, ids))
        }
    }
}

/// An entry kept by [`pruned`], with its children pruned in turn.
pub open spec fn pruned_entry(e: EntryView, ids: Seq<u32>) -> EntryView
    decreases e, 1int,
{
    EntryView { children: pruned(e.children, ids), ..e }
}

/// The entries [`pruned`] takes out, each with its whole subtree, in the
/// order of a pre-order walk.
pub open spec fn removed_by(s: Seq<EntryView>, ids: Seq<u32>) -> Seq<EntryView>
    decreases s, 0int,
{
    if s.len() == 0 {
        Seq::empty()
    } else {
        let rest = removed_by(s.drop_last(), ids);
        let e = s.last();
        if ids.contains(e.id) {
            rest.push(e)
        } else {
            rest + removed_by(e.children, ids)
        }
    }
}

/// Whether `id` is one of `ids`.
fn contains_id(ids: &[u32], id: u32) -> (r: bool)
    ensures
        r == ids@.contains(id),
{
    let n = ids.len();
    let mut i: usize = 0;
    while i < n
        invariant
            n == ids@.len(),
            i <= n,
            forall|j: int| 0 <= j < i ==> ids@[j] != id,
        decreases n - i,
    {
        if ids[i] == id {
            assert(ids@[i as int] == id);
            return true;
        }
        i += 1;
    }
    false
}

/// Remove the entries with these ids (wherever they are) and append them,
/// with their subtrees, to `removed`.
pub fn remove_ids(entries: &mut Vec<Entry>, ids: &[u32], removed: &mut Vec<Entry>)
    ensures
        entries_view(final(entries)@) == pruned(entries_view(old(entries)@), ids@),
        entries_view(final(removed)@) == entries_view(old(removed)@) + removed_by(
            entries_view(old(entries)@),
            ids@,
        ),
    decreases old(entries)@,
{
    let ghost orig = entries_view(entries@);
    let ghost orig_exec = entries@;
    let ghost removed0 = entries_view(removed@);
    proof {
        lemma_entries_view_map(entries@);
        lemma_entries_view_map(removed@);
    }
    let mut i: usize = 0;
    let ghost mut k: int = 0;
    while i < entries.len()
        invariant
            orig == entries_view(orig_exec),
            orig =~= orig_exec.map_values(|e: Entry| entry_view(e)),
            orig_exec == old(entries)@,
            0 <= k <= orig.len(),
            i as int == pruned(orig.take(k), ids@).len(),
            entries@.len() == i + (orig.len() - k),
            entries@.skip(i as int) =~= orig_exec.skip(k),
            entries@.take(i as int).map_values(|e: Entry| entry_view(e)) =~= pruned(orig.take(k), ids@),
            removed@.map_values(|e: Entry| entry_view(e)) =~= removed0 + removed_by(orig.take(k), ids@),
        decreases orig.len() - k,
    {
        let ghost before = entries@;
        let ghost removed_before = removed@;
        assert(orig.take(k + 1).drop_last() =~= orig.take(k));
        assert(entries@.skip(i as int)[0] == orig_exec.skip(k)[0]);
        assert(entries@[i as int] == orig_exec[k]);
        assert forall|j: int| 0 <= j < before.len() - (i + 1) implies #[trigger] before.skip(i + 1)[j]
            == orig_exec.skip(k + 1)[j] by {
            assert(before.skip(i as int)[j + 1] == orig_exec.skip(k)[j + 1]);
        }
        assert(before.skip(i + 1) =~= orig_exec.skip(k + 1));
        assert(orig.take(k + 1).last() == entry_view(orig_exec[k]));
        if contains_id(ids, entries[i].id) {
            let e = entries.remove(i);
            removed.push(e);
            proof {
                assert(removed@.map_values(|e: Entry| entry_view(e)) =~= removed_before.map_values(
                    |e: Entry| entry_view(e),
                ).push(entry_view(e)));
                assert(removed_by(orig.take(k + 1), ids@) =~= removed_by(orig.take(k), ids@).push(orig[k]));
                assert(pruned(orig.take(k + 1), ids@) =~= pruned(orig.take(k), ids@));
                k = k + 1;
                assert(entries@.skip(i as int) =~= before.skip(i + 1));
                assert(entries@.take(i as int) =~= before.take(i as int));
            }
        } else {
            proof {
                assert(decreases_to!(old(entries)@ => old(entries)@[k]));
                assert(decreases_to!(old(entries)@[k] => old(entries)@[k].children));
                assert(decreases_to!(old(entries)@[k].children => old(entries)@[k].children@));
            }
            let ghost kid = before[i as int];
            remove_ids(&mut entries[i].children, ids, removed);
            proof {
                lemma_entries_view_map(removed_before);
                lemma_entries_view_map(removed@);
                let e_after = entries@[i as int];
                assert(entry_view(kid) == orig[k]);
                assert(entry_view(e_after) =~= pruned_entry(entry_view(kid), ids@));
                assert(removed_by(orig.take(k + 1), ids@) =~= removed_by(orig.take(k), ids@) + removed_by(
                    orig[k].children,
                    ids@,
                ));
                assert(pruned(orig.take(k + 1), ids@) =~= pruned(orig.take(k), ids@).push(pruned_entry(orig[k], ids@)));
                assert(entries@.skip(i + 1) =~= before.skip(i + 1));
                assert(entries@.take(i + 1) =~= before.take(i as int).push(e_after));
                k = k + 1;
            }
            i += 1;
        }
    }
    assert(orig.take(k) =~= orig);
    assert(entries@.take(i as int) =~= entries@);
    proof {
        lemma_entries_view_map(entries@);
        lemma_entries_view_map(removed@);
    }
}

/// The entry or one of its descendants has this id.
pub open spec fn subtree_has(e: EntryView, id: u32) -> bool
    decreases e, 1int,
{
    e.id == id || any_has(e.children, id)
}

/// One of the entries or their descendants has this id.
pub open spec fn any_has(s: Seq<EntryView>, id: u32) -> bool
    decreases s, 0int,
{
    s.len() > 0 && (any_has(s.drop_last(), id) || subtree_has(s.last(), id))
}

/// The first entry with this id in a pre-order walk of the list.
pub open spec fn find_in(s: Seq<EntryView>, id: u32) -> Option<EntryView>
    decreases s, 0int,
{
    if s.len() == 0 {
        None
    } else if any_has(s.drop_last(), id) {
        find_in(s.drop_last(), id)
    } else if subtree_has(s.last(), id) {
        find_in_entry(s.last(), id)
    } else {
        None
    }
}

/// The first entry with this id in a pre-order walk of the subtree.
pub open spec fn find_in_entry(e: EntryView, id: u32) -> Option<EntryView>
    decreases e, 1int,
{
    if e.id == id {
        Some(e)
    } else {
        find_in(e.children, id)
    }
}

/// The list with the entry [`find_in`] finds replaced by `new`.
pub open spec fn replace_found(s: Seq<EntryView>, id: u32, new: EntryView) -> Seq<EntryView>
    decreases s, 0int,
{
    if s.len() == 0 {
        s
    } else if any_has(s.drop_last(), id) {
        replace_found(s.drop_last(), id, new).push(s.last())
    } else if subtree_has(s.last(), id) {
        s.drop_last().push(replace_in_entry(s.last(), id, new))
    } else {
        s
    }
}

/// The subtree with the entry [`find_in_entry`] finds replaced by `new`.
pub open spec fn replace_in_entry(e: EntryView, id: u32, new: EntryView) -> EntryView
    decreases e, 1int,
{
    if e.id == id {
        new
    } else {
        EntryView { children: replace_found(e.children, id, new), ..e }
    }
}

/// `any_has` holds exactly when some entry's subtree has the id.
proof fn lemma_any_has(s: Seq<EntryView>, id: u32)
    ensures
        any_has(s, id) <==> exists|i: int| 0 <= i < s.len() && subtree_has(#[trigger] s[i], id),
    decreases s.len(),
{
    if s.len() > 0 {
        lemma_any_has(s.drop_last(), id);
        if any_has(s.drop_last(), id) {
            let i = choose|i: int| 0 <= i < s.drop_last().len() && subtree_has(#[trigger] s.drop_last()[i], id);
            assert(s[i] == s.drop_last()[i]);
        }
        if exists|i: int| 0 <= i < s.len() && subtree_has(#[trigger] s[i], id) {
            let i = choose|i: int| 0 <= i < s.len() && subtree_has(#[trigger] s[i], id);
            if i < s.len() - 1 {
                assert(s.drop_last()[i] == s[i]);
            }
        }
    }
}

/// When entry `i` is the first whose subtree has the id, the search ends in
/// it and the replacement happens in it.
proof fn lemma_first_subtree(s: Seq<EntryView>, id: u32, i: int, new: EntryView)
    requires
        0 <= i < s.len(),
        subtree_has(s[i], id),
        forall|j: int| 0 <= j < i ==> !subtree_has(#[trigger] s[j], id),
    ensures
        find_in(s, id) == find_in_entry(s[i], id),
        replace_found(s, id, new) == s.update(i, replace_in_entry(s[i], id, new)),
    decreases s.len(),
{
    lemma_any_has(s.drop_last(), id);
    if i < s.len() - 1 {
        assert(s.drop_last()[i] == s[i]);
        assert forall|j: int| 0 <= j < i implies !subtree_has(#[trigger] s.drop_last()[j], id) by {
            assert(s.drop_last()[j] == s[j]);
        }
        lemma_first_subtree(s.drop_last(), id, i, new);
        assert(replace_found(s, id, new) =~= s.update(i, replace_in_entry(s[i], id, new)));
    } else {
        assert(!any_has(s.drop_last(), id)) by {
            if any_has(s.drop_last(), id) {
                let j = choose|j: int| 0 <= j < s.drop_last().len() && subtree_has(#[trigger] s.drop_last()[j], id);
                assert(s.drop_last()[j] == s[j]);
            }
        }
        assert(replace_found(s, id, new) =~= s.update(i, replace_in_entry(s[i], id, new)));
    }
}

/// When no entry's subtree has the id, nothing is found.
proof fn lemma_none_found(s: Seq<EntryView>, id: u32)
    requires
        forall|j: int| 0 <= j < s.len() ==> !subtree_has(#[trigger] s[j], id),
    ensures
        !any_has(s, id),
        find_in(s, id) is None,
{
    lemma_any_has(s, id);
    if s.len() > 0 {
        lemma_any_has(s.drop_last(), id);
        if any_has(s.drop_last(), id) {
            let j = choose|j: int| 0 <= j < s.drop_last().len() && subtree_has(#[trigger] s.drop_last()[j], id);
            assert(s.drop_last()[j] == s[j]);
        }
    }
}

/// Whether an entry with this id occurs anywhere among the entries.
fn has_entry(entries: &Vec<Entry>, id: u32) -> (r: bool)
    ensures
        r == any_has(entries_view(entries@), id),
    decreases entries@,
{
    proof {
        lemma_entries_view_map(entries@);
        lemma_any_has(entries_view(entries@), id);
    }
    let n = entries.len();
    let mut i: usize = 0;
    while i < n
        invariant
            n == entries@.len(),
            entries_view(entries@) =~= entries@.map_values(|e: Entry| entry_view(e)),
            i <= n,
            forall|j: int| 0 <= j < i ==> !subtree_has(#[trigger] entries_view(entries@)[j], id),
        decreases n - i,
    {
        proof {
            assert(decreases_to!(entries@ => entries@[i as int]));
            assert(decreases_to!(entries@[i as int] => entries@[i as int].children));
            assert(decreases_to!(entries@[i as int].children => entries@[i as int].children@));
        }
        if entries[i].id == id || has_entry(&entries[i].children, id) {
            proof {
                assert(subtree_has(entries_view(entries@)[i as int], id));
                lemma_any_has(entries_view(entries@), id);
            }
            return true;
        }
        i += 1;
    }
    proof {
        lemma_none_found(entries_view(entries@), id);
    }
    false
}

/// Something is found exactly where the id occurs.
proof fn lemma_found_iff_has(s: Seq<EntryView>, id: u32)
    ensures
        find_in(s, id) is Some <==> any_has(s, id),
    decreases s, 0int,
{
    if s.len() > 0 {
        lemma_found_iff_has(s.drop_last(), id);
        lemma_found_in_entry_iff_has(s.last(), id);
    }
}

/// Something is found in a subtree exactly where the id occurs in it.
proof fn lemma_found_in_entry_iff_has(e: EntryView, id: u32)
    ensures
        find_in_entry(e, id) is Some <==> subtree_has(e, id),
    decreases e, 1int,
{
    if e.id != id {
        lemma_found_iff_has(e.children, id);
    }
}

/// The first entry whose subtree has this id, if any.
fn first_subtree_with(entries: &Vec<Entry>, id: u32) -> (r: Option<usize>)
    ensures
        match r {
            Some(i) => i < entries@.len() && subtree_has(entries_view(entries@)[i as int], id)
                && forall|j: int| 0 <= j < i ==> !subtree_has(#[trigger] entries_view(entries@)[j], id),
            None => forall|j: int| 0 <= j < entries@.len() ==> !subtree_has(#[trigger] entries_view(entries@)[j], id),
        },
{
    proof {
        lemma_entries_view_map(entries@);
    }
    let n = entries.len();
    let mut i: usize = 0;
    while i < n
        invariant
            n == entries@.len(),
            entries_view(entries@).len() == n,
            forall|j: int| 0 <= j < n ==> entries_view(entries@)[j] == entry_view(#[trigger] entries@[j]),
            i <= n,
            forall|j: int| 0 <= j < i ==> !subtree_has(#[trigger] entries_view(entries@)[j], id),
        decreases n - i,
    {
        if entries[i].id == id || has_entry(&entries[i].children, id) {
            return Some(i);
        }
        i += 1;
    }
    None
}

/// The first entry with this id in a pre-order walk, for editing in place.
pub fn find_dir_mut(entries: &mut Vec<Entry>, id: u32) -> (r: Option<&mut Entry>)
    ensures
        match r {
            None => find_in(entries_view(old(entries)@), id) is None && *final(entries) == *old(entries),
            Some(e) => find_in(entries_view(old(entries)@), id) == Some(entry_view(*e))
                && entries_view(final(entries)@) == replace_found(
                entries_view(old(entries)@),
                id,
                entry_view(*final(r.unwrap())),
            ),
        },
    decreases old(entries)@,
{
    let ghost v = entries_view(entries@);
    proof {
        lemma_entries_view_map(entries@);
    }
    let i = match first_subtree_with(entries, id) {
        None => {
            proof {
                lemma_none_found(v, id);
            }
            return None;
        },
        Some(i) => i,
    };
    if entries[i].id == id {
        let e = &mut entries[i];
        proof {
            broadcast use lemma_entries_view_map;
            lemma_first_subtree(v, id, i as int, entry_view(*final(e)));
        }
        return Some(e);
    }
    proof {
        assert(decreases_to!(old(entries)@ => old(entries)@[i as int]));
        assert(decreases_to!(old(entries)@[i as int] => old(entries)@[i as int].children));
        assert(decreases_to!(old(entries)@[i as int].children => old(entries)@[i as int].children@));
    }
    let e = &mut entries[i];
    let found = find_dir_mut(&mut e.children, id);
    proof {
        broadcast use lemma_entries_view_map;
        lemma_found_iff_has(v[i as int].children, id);
        if found.is_some() {
            lemma_first_subtree(v, id, i as int, entry_view(*final(found.unwrap())));
        }
    }
    found
}

/// The playground's deeply nested leaf (`workspace/ailanthus/src/lib.rs`).
pub const DEEP_LEAF: u32 = 12;

/// The playground's read-only directory.
pub const ARCHIVE_DIR: u32 = 20;

/// A file, as a value.
pub open spec fn leaf_view(id: u32, name: Seq<char>) -> EntryView {
    EntryView { id: id, name: name, is_dir: false, is_crate: false, children: Seq::empty() }
}

/// A directory, as a value.
pub open spec fn dir_view(id: u32, name: Seq<char>, children: Seq<EntryView>) -> EntryView {
    EntryView { id: id, name: name, is_dir: true, is_crate: false, children: children }
}

/// The playground's initial model, as a value.
pub open spec fn demo_model_view() -> Seq<EntryView> {
    seq![
        dir_view(1, "workspace"@, seq![
            EntryView { is_crate: true, ..dir_view(10, "ailanthus"@, seq![
                dir_view(11, "src"@, seq![leaf_view(DEEP_LEAF, "lib.rs"@), leaf_view(13, "icon.rs"@)]),
                leaf_view(14, "Cargo.toml"@),
            ]) },
            dir_view(15, "docs"@, seq![
                leaf_view(16, "report.pdf"@),
                leaf_view(17, "index.html"@),
                leaf_view(18, "notes.md"@),
                leaf_view(19, "logo.png"@),
            ]),
        ]),
        dir_view(ARCHIVE_DIR, "archive (read-only)"@, seq![leaf_view(21, "old.pdf"@)]),
        leaf_view(22, "todo.md"@),
    ]
}

/// The playground's initial model: a workspace with a crate and docs, an
/// archive, and a loose file.
pub fn demo_model() -> (r: Vec<Entry>)
    ensures
        entries_view(r@) == demo_model_view(),
{
    broadcast use lemma_entries_view_map;
    let src = vec![Entry::leaf(DEEP_LEAF, "lib.rs"), Entry::leaf(13, "icon.rs")];
    assert(entries_view(src@) =~= seq![leaf_view(DEEP_LEAF, "lib.rs"@), leaf_view(13, "icon.rs"@)]);
    let krate = vec![Entry::dir(11, "src", src), Entry::leaf(14, "Cargo.toml")];
    assert(entries_view(krate@) =~= seq![
        dir_view(11, "src"@, seq![leaf_view(DEEP_LEAF, "lib.rs"@), leaf_view(13, "icon.rs"@)]),
        leaf_view(14, "Cargo.toml"@),
    ]);
    let docs = vec![
        Entry::leaf(16, "report.pdf"),
        Entry::leaf(17, "index.html"),
        Entry::leaf(18, "notes.md"),
        Entry::leaf(19, "logo.png"),
    ];
    assert(entries_view(docs@) =~= seq![
        leaf_view(16, "report.pdf"@),
        leaf_view(17, "index.html"@),
        leaf_view(18, "notes.md"@),
        leaf_view(19, "logo.png"@),
    ]);
    let workspace = vec![Entry::krate(10, "ailanthus", krate), Entry::dir(15, "docs", docs)];
    assert(entries_view(workspace@) =~= demo_model_view()[0].children);
    let archive = vec![Entry::leaf(21, "old.pdf")];
    assert(entries_view(archive@) =~= seq![leaf_view(21, "old.pdf"@)]);
    let r = vec![
        Entry::dir(1, "workspace", workspace),
        Entry::dir(ARCHIVE_DIR, "archive (read-only)", archive),
        Entry::leaf(22, "todo.md"),
    ];
    assert(entries_view(r@) =~= demo_model_view());
    r
}

/// The most recent lines a log keeps.
pub const LOG_LINES: usize = 10;

/// Append a line to the action log, keeping only the last ten lines.
pub fn push_log(log: &mut Vec<String>, line: String)
    ensures
        ({
            let all = old(log)@.push(line);
            final(log)@ == if all.len() > LOG_LINES { all.skip(all.len() - LOG_LINES) } else { all }
        }),
        final(log)@.len() <= LOG_LINES,
        final(log)@.last() == line,
{
    log.push(line);
    let ghost all = log@;
    let excess = if log.len() > LOG_LINES { log.len() - LOG_LINES } else { 0 };
    if excess > 0 {
        let mut kept: Vec<String> = Vec::new();
        let n = log.len();
        let mut i: usize = excess;
        while i < n
            invariant
                log@ == all,
                n == all.len(),
                excess <= i <= n,
                kept@ =~= all.subrange(excess as int, i as int),
            decreases n - i,
        {
            kept.push(log[i].clone());
            i += 1;
        }
        *log = kept;
    }
}

/// Where moved nodes land inside their target list.
#[derive(Clone, Debug, PartialEq, Eq)]
pub enum DirPosition<Id> {
    /// Before every other entry.
    First,
    /// After every other entry.
    Last,
    /// Right before this sibling.
    Before(Id),
    /// Right after this sibling.
    After(Id),
}

/// The ids of a list of entries.
pub open spec fn entry_ids(s: Seq<EntryView>) -> Seq<u32> {
    s.map_values(|e: EntryView| e.id)
}

/// Where a position puts moved entries in `s`: at the front, at the end,
/// before or after the first sibling with the id, or at the end when the
/// sibling is not there.
pub open spec fn insert_index(s: Seq<EntryView>, p: DirPosition<u32>) -> int {
    match p {
        DirPosition::First => 0,
        DirPosition::Last => s.len() as int,
        DirPosition::Before(sib) => match first_index(entry_ids(s), sib) {
            Some(i) => i,
            None => s.len() as int,
        },
        DirPosition::After(sib) => match first_index(entry_ids(s), sib) {
            Some(i) => i + 1,
            None => s.len() as int,
        },
    }
}

/// `s` with `moved` inserted, in order, at the position.
pub open spec fn spliced(s: Seq<EntryView>, moved: Seq<EntryView>, p: DirPosition<u32>) -> Seq<EntryView> {
    let i = insert_index(s, p);
    s.take(i) + moved + s.skip(i)
}

/// The model after a move: the entries with the moved ids leave wherever
/// they are, then land, in pre-order, at the position inside the target
/// directory's children, or among the roots when there is no target or it
/// is gone.
pub open spec fn moved_model(
    roots: Seq<EntryView>,
    ids: Seq<u32>,
    target_dir: Option<u32>,
    p: DirPosition<u32>,
) -> Seq<EntryView> {
    let kept = pruned(roots, ids);
    let moved = removed_by(roots, ids);
    match target_dir {
        Some(d) => match find_in(kept, d) {
            Some(e) => replace_found(kept, d, EntryView { children: spliced(e.children, moved, p), ..e }),
            None => spliced(kept, moved, p),
        },
        None => spliced(kept, moved, p),
    }
}

/// The first entry of the list with this id, at this level only.
fn sibling_position(list: &Vec<Entry>, sib: u32) -> (r: Option<usize>)
    ensures
        match r {
            Some(i) => i < list@.len() && first_index(entry_ids(entries_view(list@)), sib) == Some(
                i as int,
            ),
            None => first_index(entry_ids(entries_view(list@)), sib) is None,
        },
{
    proof {
        lemma_entries_view_map(list@);
    }
    let ghost ids = entry_ids(entries_view(list@));
    let n = list.len();
    let mut i: usize = 0;
    while i < n
        invariant
            n == list@.len(),
            ids == entry_ids(entries_view(list@)),
            ids.len() == n,
            forall|j: int| 0 <= j < n ==> #[trigger] ids[j] == list@[j].id,
            i <= n,
            forall|j: int| 0 <= j < i ==> ids[j] != sib,
        decreases n - i,
    {
        if list[i].id == sib {
            proof {
                lemma_first_index_is(ids, sib, i as int);
            }
            return Some(i);
        }
        i += 1;
    }
    proof {
        lemma_first_index_absent(ids, sib);
    }
    None
}

/// Insert `moved`, in order, at the position in `list`.
fn insert_moved(list: &mut Vec<Entry>, moved: Vec<Entry>, position: &DirPosition<u32>)
    ensures
        entries_view(final(list)@) == spliced(entries_view(old(list)@), entries_view(moved@), *position),
{
    broadcast use lemma_entries_view_map;
    let ghost v = entries_view(list@);
    let len = list.len();
    let index = match position {
        DirPosition::First => 0,
        DirPosition::Last => len,
        DirPosition::Before(sib) => match sibling_position(list, *sib) {
            Some(i) => i,
            None => len,
        },
        DirPosition::After(sib) => match sibling_position(list, *sib) {
            Some(i) => i + 1,
            None => len,
        },
    };
    assert(index == insert_index(v, *position));
    let ghost base = list@;
    let ghost all = moved@;
    let mut moved = moved;
    let m = moved.len();
    let mut offset: usize = 0;
    while offset < m
        invariant
            m == all.len(),
            index <= base.len(),
            offset <= m,
            moved@ == all.skip(offset as int),
            list@.len() == base.len() + offset,
            list@ == base.take(index as int) + all.take(offset as int) + base.skip(index as int),
        decreases m - offset,
    {
        let entry = moved.remove(0);
        let cur = list.len();
        let at = if index + offset < cur { index + offset } else { cur };
        assert(all.skip(offset as int)[0] == all[offset as int]);
        list.insert(at, entry);
        proof {
            assert(all.skip(offset + 1) =~= all.skip(offset as int).remove(0));
            assert(all.take(offset + 1) =~= all.take(offset as int).push(all[offset as int]));
        }
        offset += 1;
        assert(list@ =~= base.take(index as int) + all.take(offset as int) + base.skip(index as int));
    }
    assert(all.take(m as int) =~= all);
    assert(entries_view(list@) =~= v.take(index as int) + entries_view(all) + v.skip(index as int));
}

/// Move the entries with these ids (wherever they are) to the position
/// inside the target directory, or among the roots when there is no target
/// or the target is gone.
pub fn apply_move(roots: &mut Vec<Entry>, ids: &[u32], target_dir: Option<u32>, position: &DirPosition<u32>)
    ensures
        entries_view(final(roots)@) == moved_model(entries_view(old(roots)@), ids@, target_dir, *position),
{
    let mut moved: Vec<Entry> = Vec::new();
    remove_ids(roots, ids, &mut moved);
    assert(entries_view(moved@) =~= removed_by(entries_view(old(roots)@), ids@));
    match target_dir {
        Some(d) => match find_dir_mut(roots, d) {
            Some(entry) => {
                insert_moved(&mut entry.children, moved, position);
            },
            None => {
                insert_moved(roots, moved, position);
            },
        },
        None => {
            insert_moved(roots, moved, position);
        },
    }
}

/// The number of entries in a subtree, the root included.
pub open spec fn tree_size(e: EntryView) -> nat
    decreases e, 1int,
{
    1 + forest_size(e.children)
}

/// The number of entries in a list of subtrees.
pub open spec fn forest_size(s: Seq<EntryView>) -> nat
    decreases s, 0int,
{
    if s.len() == 0 {
        0
    } else {
        forest_size(s.drop_last()) + tree_size(s.last())
    }
}

/// The ids of a subtree, the root's included, each as often as it occurs.
pub open spec fn tree_ids(e: EntryView) -> Multiset<u32>
    decreases e, 1int,
{
    Multiset::singleton(e.id).add(forest_ids(e.children))
}

/// The ids of a list of subtrees, each as often as it occurs.
pub open spec fn forest_ids(s: Seq<EntryView>) -> Multiset<u32>
    decreases s, 0int,
{
    if s.len() == 0 {
        Multiset::empty()
    } else {
        forest_ids(s.drop_last()).add(tree_ids(s.last()))
    }
}

proof fn lemma_forest_size_concat(a: Seq<EntryView>, b: Seq<EntryView>)
    ensures
        forest_size(a + b) == forest_size(a) + forest_size(b),
        forest_ids(a + b) == forest_ids(a).add(forest_ids(b)),
    decreases b.len(),
{
    if b.len() == 0 {
        assert(a + b =~= a);
        assert(forest_ids(a).add(forest_ids(b)) =~= forest_ids(a));
    } else {
        lemma_forest_size_concat(a, b.drop_last());
        assert((a + b).drop_last() =~= a + b.drop_last());
        assert((a + b).last() == b.last());
        assert(forest_ids(a + b) =~= forest_ids(a).add(forest_ids(b)));
    }
}

proof fn lemma_forest_size_split(s: Seq<EntryView>, i: int)
    requires
        0 <= i <= s.len(),
    ensures
        forest_size(s) == forest_size(s.take(i)) + forest_size(s.skip(i)),
        forest_ids(s) == forest_ids(s.take(i)).add(forest_ids(s.skip(i))),
{
    assert(s =~= s.take(i) + s.skip(i));
    lemma_forest_size_concat(s.take(i), s.skip(i));
}

proof fn lemma_prune_sizes(s: Seq<EntryView>, ids: Seq<u32>)
    ensures
        forest_size(pruned(s, ids)) + forest_size(removed_by(s, ids)) == forest_size(s),
        forest_ids(pruned(s, ids)).add(forest_ids(removed_by(s, ids))) == forest_ids(s),
    decreases s, 0int,
{
    if s.len() == 0 {
        assert(forest_ids(pruned(s, ids)).add(forest_ids(removed_by(s, ids))) =~= forest_ids(s));
    } else {
        let e = s.last();
        lemma_prune_sizes(s.drop_last(), ids);
        let rest_removed = removed_by(s.drop_last(), ids);
        let rest_kept = pruned(s.drop_last(), ids);
        if ids.contains(e.id) {
            assert(removed_by(s, ids) == rest_removed.push(e));
            assert(rest_removed.push(e).drop_last() =~= rest_removed);
            assert(forest_ids(pruned(s, ids)).add(forest_ids(removed_by(s, ids))) =~= forest_ids(s));
        } else {
            lemma_prune_entry_sizes(e, ids);
            assert(pruned(s, ids) == rest_kept.push(pruned_entry(e, ids)));
            assert(rest_kept.push(pruned_entry(e, ids)).drop_last() =~= rest_kept);
            lemma_forest_size_concat(rest_removed, removed_by(e.children, ids));
            assert(forest_ids(pruned(s, ids)).add(forest_ids(removed_by(s, ids))) =~= forest_ids(s));
        }
    }
}

proof fn lemma_prune_entry_sizes(e: EntryView, ids: Seq<u32>)
    ensures
        tree_size(pruned_entry(e, ids)) + forest_size(removed_by(e.children, ids)) == tree_size(e),
        tree_ids(pruned_entry(e, ids)).add(forest_ids(removed_by(e.children, ids))) == tree_ids(e),
    decreases e, 1int,
{
    lemma_prune_sizes(e.children, ids);
    assert(tree_ids(pruned_entry(e, ids)).add(forest_ids(removed_by(e.children, ids))) =~= tree_ids(e));
}

proof fn lemma_replace_sizes(s: Seq<EntryView>, id: u32, new: EntryView)
    requires
        any_has(s, id),
    ensures
        find_in(s, id) is Some,
        forest_size(replace_found(s, id, new)) + tree_size(find_in(s, id)->0) == forest_size(s)
            + tree_size(new),
        forest_ids(replace_found(s, id, new)).add(tree_ids(find_in(s, id)->0)) == forest_ids(s).add(
            tree_ids(new),
        ),
    decreases s, 0int,
{
    let found = tree_ids(find_in(s, id)->0);
    if any_has(s.drop_last(), id) {
        lemma_replace_sizes(s.drop_last(), id, new);
        let r = replace_found(s.drop_last(), id, new);
        assert(r.push(s.last()).drop_last() =~= r);
        assert(find_in(s, id) == find_in(s.drop_last(), id));
        assert(forest_ids(replace_found(s, id, new)) == forest_ids(r).add(tree_ids(s.last())));
        assert(forest_ids(r).add(found) == forest_ids(s.drop_last()).add(tree_ids(new)));
        assert(forest_ids(replace_found(s, id, new)).add(found) =~= forest_ids(r).add(found).add(
            tree_ids(s.last()),
        ));
        assert(forest_ids(s.drop_last()).add(tree_ids(new)).add(tree_ids(s.last())) =~= forest_ids(s).add(
            tree_ids(new),
        ));
    } else {
        lemma_replace_entry_sizes(s.last(), id, new);
        let r = s.drop_last().push(replace_in_entry(s.last(), id, new));
        assert(r.drop_last() =~= s.drop_last());
        assert(find_in(s, id) == find_in_entry(s.last(), id));
        let t = tree_ids(replace_in_entry(s.last(), id, new));
        assert(forest_ids(r) == forest_ids(s.drop_last()).add(t));
        assert(t.add(found) == tree_ids(s.last()).add(tree_ids(new)));
        assert(forest_ids(replace_found(s, id, new)).add(found) =~= forest_ids(s.drop_last()).add(
            t.add(found),
        ));
        assert(forest_ids(s.drop_last()).add(tree_ids(s.last()).add(tree_ids(new))) =~= forest_ids(s).add(
            tree_ids(new),
        ));
    }
}

proof fn lemma_replace_entry_sizes(e: EntryView, id: u32, new: EntryView)
    requires
        subtree_has(e, id),
    ensures
        find_in_entry(e, id) is Some,
        tree_size(replace_in_entry(e, id, new)) + tree_size(find_in_entry(e, id)->0) == tree_size(e)
            + tree_size(new),
        tree_ids(replace_in_entry(e, id, new)).add(tree_ids(find_in_entry(e, id)->0)) == tree_ids(e).add(
            tree_ids(new),
        ),
    decreases e, 1int,
{
    if e.id != id {
        lemma_replace_sizes(e.children, id, new);
        assert(find_in_entry(e, id) == find_in(e.children, id));
        let rc = forest_ids(replace_found(e.children, id, new));
        let found = tree_ids(find_in_entry(e, id)->0);
        assert(tree_ids(replace_in_entry(e, id, new)) == Multiset::singleton(e.id).add(rc));
        assert(rc.add(found) == forest_ids(e.children).add(tree_ids(new)));
        assert(tree_ids(replace_in_entry(e, id, new)).add(found) =~= Multiset::singleton(e.id).add(
            rc.add(found),
        ));
        assert(Multiset::singleton(e.id).add(forest_ids(e.children).add(tree_ids(new))) =~= tree_ids(
            e,
        ).add(tree_ids(new)));
    } else {
        assert(tree_ids(replace_in_entry(e, id, new)).add(tree_ids(find_in_entry(e, id)->0)) =~= tree_ids(
            e,
        ).add(tree_ids(new)));
    }
}

proof fn lemma_insert_index_bounds(s: Seq<EntryView>, p: DirPosition<u32>)
    ensures
        0 <= insert_index(s, p) <= s.len(),
{
    match p {
        DirPosition::Before(sib) => {
            if let Some(i) = first_index(entry_ids(s), sib) {
                let j = choose|j: int| is_first_index(entry_ids(s), sib, j);
                assert(is_first_index(entry_ids(s), sib, j));
            }
        },
        DirPosition::After(sib) => {
            if let Some(i) = first_index(entry_ids(s), sib) {
                let j = choose|j: int| is_first_index(entry_ids(s), sib, j);
                assert(is_first_index(entry_ids(s), sib, j));
            }
        },
        _ => {},
    }
}

proof fn lemma_spliced_size(s: Seq<EntryView>, moved: Seq<EntryView>, p: DirPosition<u32>)
    ensures
        forest_size(spliced(s, moved, p)) == forest_size(s) + forest_size(moved),
        forest_ids(spliced(s, moved, p)) == forest_ids(s).add(forest_ids(moved)),
{
    let i = insert_index(s, p);
    lemma_insert_index_bounds(s, p);
    lemma_forest_size_split(s, i);
    lemma_forest_size_concat(s.take(i) + moved, s.skip(i));
    lemma_forest_size_concat(s.take(i), moved);
    assert(forest_ids(spliced(s, moved, p)) =~= forest_ids(s).add(forest_ids(moved)));
}

/// Moving entries never loses or duplicates one: the model has as many
/// entries after a move as before, and the same ids, each as often,
/// whatever the ids, target and position.
pub proof fn law_move_keeps_every_entry(
    roots: Seq<EntryView>,
    ids: Seq<u32>,
    target_dir: Option<u32>,
    p: DirPosition<u32>,
)
    ensures
        forest_size(moved_model(roots, ids, target_dir, p)) == forest_size(roots),
        forest_ids(moved_model(roots, ids, target_dir, p)) == forest_ids(roots),
{
    let kept = pruned(roots, ids);
    let moved = removed_by(roots, ids);
    lemma_prune_sizes(roots, ids);
    lemma_spliced_size(kept, moved, p);
    if let Some(d) = target_dir {
        lemma_found_iff_has(kept, d);
        if let Some(e) = find_in(kept, d) {
            let e2 = EntryView { children: spliced(e.children, moved, p), ..e };
            lemma_spliced_size(e.children, moved, p);
            lemma_replace_sizes(kept, d, e2);
            let r = forest_ids(moved_model(roots, ids, target_dir, p));
            let k = forest_ids(kept);
            let m = forest_ids(moved);
            let te = tree_ids(e);
            assert(tree_ids(e2) =~= te.add(m));
            assert(r.add(te) == k.add(te.add(m)));
            assert forall|c: u32| r.count(c) == k.add(m).count(c) by {
                assert(r.add(te).count(c) == k.add(te.add(m)).count(c));
            }
            assert(r =~= k.add(m));
        } else {
            assert(forest_ids(moved_model(roots, ids, target_dir, p)) =~= forest_ids(roots));
        }
    } else {
        assert(forest_ids(moved_model(roots, ids, target_dir, p)) =~= forest_ids(roots));
    }
}

/// Removing entries never loses one: what stays and what is taken out
/// together hold every entry, and every id as often as the model did.
pub proof fn law_remove_keeps_every_entry(roots: Seq<EntryView>, ids: Seq<u32>)
    ensures
        forest_size(pruned(roots, ids)) + forest_size(removed_by(roots, ids)) == forest_size(roots),
        forest_ids(pruned(roots, ids)).add(forest_ids(removed_by(roots, ids))) == forest_ids(roots),
{
    lemma_prune_sizes(roots, ids);
}

/// `name` ends with `suffix`.
pub open spec fn ends_with(name: Seq<char>, suffix: Seq<char>) -> bool {
    name.len() >= suffix.len() && name.skip(name.len() - suffix.len()) == suffix
}

/// Whether `name` ends with `suffix`.
fn name_ends_with(name: &str, suffix: &str) -> (r: bool)
    ensures
        r == ends_with(name@, suffix@),
{
    let len = name.unicode_len();
    let m = suffix.unicode_len();
    if len < m {
        return false;
    }
    tail_is(name, len - m, len, suffix)
}

/// How the playground decorates the row of an entry.
pub struct EntryDecoration {
    /// The row's icon.
    pub icon: IconSpec<Icon>,
    /// A status dot on the icon.
    pub badge: bool,
    /// Text shown at the row's right edge.
    pub trailing: Option<&'static str>,
    /// A translucent warning wash painted behind the row.
    pub wash: bool,
}

/// The icon the playground gives an entry: crate or folder for directories,
/// the icon of the extension for files.
pub open spec fn entry_icon(e: EntryView) -> IconSpec<Icon> {
    if e.is_dir {
        if e.is_crate {
            IconSpec { closed: Icon::CrateClosed, open: Some(Icon::CrateOpen) }
        } else {
            IconSpec { closed: Icon::FolderClosed, open: Some(Icon::FolderOpen) }
        }
    } else {
        IconSpec { closed: icon_for_extension(extension(e.name)), open: None }
    }
}

/// Every directory of the playground switches icons when opened: a crate
/// shows the closed crate and, open, the open crate; any other directory
/// the closed folder and, open, the open folder. A file has one icon, the
/// one of its extension, whether or not it is open.
pub proof fn law_directories_switch_icons(e: EntryView)
    ensures
        e.is_dir && e.is_crate ==> entry_icon(e).closed == Icon::CrateClosed && entry_icon(e).open
            == Some(Icon::CrateOpen),
        e.is_dir && !e.is_crate ==> entry_icon(e).closed == Icon::FolderClosed && entry_icon(e).open
            == Some(Icon::FolderOpen),
        e.is_dir ==> entry_icon(e).open is Some && entry_icon(e).open->0 != entry_icon(e).closed,
        !e.is_dir ==> entry_icon(e).open is None && entry_icon(e).closed == icon_for_extension(
            extension(e.name),
        ),
{
}

/// The text the playground shows at the right edge of a file row.
pub open spec fn entry_trailing(e: EntryView) -> Option<&'static str> {
    if e.is_dir {
        None
    } else if ends_with(e.name, ".md"@) {
        Some("edited")
    } else if ends_with(e.name, ".pdf"@) {
        Some("2.4 MB")
    } else {
        None
    }
}

/// The playground's decoration of an entry: directories show the crate or
/// folder icon, and the read-only archive a warning line; files show the
/// icon of their extension, Markdown files a status dot and "edited", PDF
/// files their size.
pub fn entry_decoration(entry: &Entry) -> (r: EntryDecoration)
    ensures
        r.icon == entry_icon(entry_view(*entry)),
        entry.is_dir && entry.is_crate ==> r.icon.closed == Icon::CrateClosed && r.icon.open == Some(
            Icon::CrateOpen,
        ),
        entry.is_dir && !entry.is_crate ==> r.icon.closed == Icon::FolderClosed && r.icon.open == Some(
            Icon::FolderOpen,
        ),
        !entry.is_dir ==> r.icon.open is None,
        r.trailing == entry_trailing(entry_view(*entry)),
        r.badge == (!entry.is_dir && ends_with(entry.name@, ".md"@)),
        r.wash == (entry.is_dir && entry.id == ARCHIVE_DIR),
{
    if entry.is_dir {
        let icon = if entry.is_crate {
            Icon::rust_crate()
        } else {
            Icon::folder()
        };
        EntryDecoration { icon, badge: false, trailing: None, wash: entry.id == ARCHIVE_DIR }
    } else {
        let icon = IconSpec::new(icon_for(entry.name.as_str()));
        if name_ends_with(entry.name.as_str(), ".md") {
            EntryDecoration { icon, badge: true, trailing: Some("edited"), wash: false }
        } else if name_ends_with(entry.name.as_str(), ".pdf") {
            EntryDecoration { icon, badge: false, trailing: Some("2.4 MB"), wash: false }
        } else {
            EntryDecoration { icon, badge: false, trailing: None, wash: false }
        }
    }
}

} // verus!
