use egui_ailanthus::demo::{
    all_dirs, apply_move, demo_model, entry_decoration, find_dir_mut, push_log, remove_ids,
    set_all_dirs_open, DirPosition, Entry, ARCHIVE_DIR, DEEP_LEAF,
};
use egui_ailanthus::{Icon, TreeViewState};

fn ids(entries: &[Entry]) -> Vec<u32> {
    let mut out = Vec::new();
    for e in entries {
        out.push(e.id);
        out.extend(ids(&e.children));
    }
    out
}

#[test]
fn constructors_set_kind() {
    let leaf = Entry::leaf(1, "a.rs");
    assert!(!leaf.is_dir && !leaf.is_crate && leaf.children.is_empty() && leaf.name == "a.rs");
    let dir = Entry::dir(2, "d", vec![Entry::leaf(3, "x")]);
    assert!(dir.is_dir && !dir.is_crate && dir.children.len() == 1);
    let krate = Entry::krate(4, "k", Vec::new());
    assert!(krate.is_dir && krate.is_crate && krate.name == "k");
}

#[test]
fn demo_model_holds_the_playground_tree() {
    let model = demo_model();
    assert_eq!(ids(&model), vec![1, 10, 11, DEEP_LEAF, 13, 14, 15, 16, 17, 18, 19, ARCHIVE_DIR, 21, 22]);
    assert!(model[0].children[0].is_crate);
    assert_eq!(model[0].children[0].children[0].children[0].name, "lib.rs");
}

#[test]
fn all_dir_ids_lists_directories_in_preorder() {
    let model = demo_model();
    let mut out = vec![99];
    for root in &model {
        root.all_dir_ids(&mut out);
    }
    assert_eq!(out, vec![99, 1, 10, 11, 15, ARCHIVE_DIR]);
}

#[test]
fn remove_ids_takes_out_subtrees_in_walk_order() {
    let mut model = demo_model();
    let mut removed = Vec::new();
    remove_ids(&mut model, &[11, 16, 22], &mut removed);
    assert_eq!(removed.iter().map(|e| e.id).collect::<Vec<_>>(), vec![11, 16, 22]);
    assert_eq!(removed[0].children.len(), 2);
    assert_eq!(ids(&model), vec![1, 10, 14, 15, 17, 18, 19, ARCHIVE_DIR, 21]);
    // What stays and what was taken out together hold every entry.
    assert_eq!(ids(&model).len() + ids(&removed).len(), 14);
}

#[test]
fn find_dir_mut_edits_in_place() {
    let mut model = demo_model();
    match find_dir_mut(&mut model, 15) {
        Some(docs) => docs.children.push(Entry::leaf(30, "new.md")),
        None => panic!("docs exists"),
    }
    assert_eq!(model[0].children[1].children.len(), 5);
    assert!(find_dir_mut(&mut model, 77).is_none());
}

#[test]
fn apply_move_lands_after_sibling_in_target() {
    let mut model = demo_model();
    apply_move(&mut model, &[22, 16], Some(ARCHIVE_DIR), &DirPosition::After(21));
    assert_eq!(ids(&model[1..2]), vec![ARCHIVE_DIR, 21, 16, 22]);
    assert_eq!(model.len(), 2);
}

#[test]
fn apply_move_to_missing_target_goes_to_roots() {
    let mut model = demo_model();
    apply_move(&mut model, &[13], Some(77), &DirPosition::First);
    assert_eq!(model[0].id, 13);
    apply_move(&mut model, &[1], None, &DirPosition::Before(22));
    let roots: Vec<u32> = model.iter().map(|e| e.id).collect();
    assert_eq!(roots, vec![13, ARCHIVE_DIR, 1, 22]);
    apply_move(&mut model, &[13], None, &DirPosition::Last);
    let roots: Vec<u32> = model.iter().map(|e| e.id).collect();
    assert_eq!(roots, vec![ARCHIVE_DIR, 1, 22, 13]);
}

#[test]
fn move_keeps_every_entry() {
    let mut model = demo_model();
    let before = ids(&model).len();
    // Moving a directory into its own child: the child leaves with it, so
    // everything lands among the roots.
    apply_move(&mut model, &[10], Some(11), &DirPosition::First);
    assert_eq!(ids(&model).len(), before);
    assert_eq!(model.len(), 4);
}

#[test]
fn push_log_keeps_last_ten_lines() {
    let mut log = Vec::new();
    for i in 0..12 {
        push_log(&mut log, format!("line {i}"));
    }
    assert_eq!(log.len(), 10);
    assert_eq!(log[0], "line 2");
    assert_eq!(log[9], "line 11");
}

#[test]
fn decoration_follows_kind_and_extension() {
    let model = demo_model();
    let krate = entry_decoration(&model[0].children[0]);
    assert_eq!((krate.icon.closed, krate.icon.open), (Icon::CrateClosed, Some(Icon::CrateOpen)));
    let archive = entry_decoration(&model[1]);
    assert!(archive.wash && archive.trailing.is_none());
    let notes = entry_decoration(&Entry::leaf(1, "notes.md"));
    assert_eq!(notes.icon.closed, Icon::FileMarkdown);
    assert!(notes.badge);
    assert_eq!(notes.trailing, Some("edited"));
    let pdf = entry_decoration(&Entry::leaf(2, "report.pdf"));
    assert_eq!((pdf.icon.closed, pdf.trailing, pdf.badge), (Icon::FilePdf, Some("2.4 MB"), false));
    let other = entry_decoration(&Entry::leaf(3, "Cargo.toml"));
    assert_eq!((other.icon.closed, other.trailing), (Icon::File, None));
}

#[test]
fn all_dirs_lists_every_directory_of_the_model() {
    let model = demo_model();
    assert_eq!(all_dirs(&model), vec![1, 10, 11, 15, ARCHIVE_DIR]);
    assert!(all_dirs(&Vec::new()).is_empty());
}

#[test]
fn expand_all_and_collapse_all_reach_every_directory() {
    let model = demo_model();
    let mut state: TreeViewState<u32> = TreeViewState::new();
    state.set_selected(vec![DEEP_LEAF]);
    set_all_dirs_open(&mut state, &model, true);
    for id in [1, 10, 11, 15, ARCHIVE_DIR] {
        assert_eq!(state.is_open(&id), Some(true));
    }
    assert_eq!(state.is_open(&DEEP_LEAF), None);
    assert_eq!(state.selected(), [DEEP_LEAF]);
    set_all_dirs_open(&mut state, &model, false);
    for id in [1, 10, 11, 15, ARCHIVE_DIR] {
        assert_eq!(state.is_open(&id), Some(false));
    }
}

#[test]
fn move_and_remove_keep_every_id() {
    let mut model = demo_model();
    let mut before = ids(&model);
    apply_move(&mut model, &[15, DEEP_LEAF], Some(ARCHIVE_DIR), &DirPosition::Last);
    let mut after = ids(&model);
    before.sort();
    after.sort();
    assert_eq!(before, after);

    let mut model = demo_model();
    let mut removed = Vec::new();
    remove_ids(&mut model, &[10, 22], &mut removed);
    let mut all = ids(&model);
    all.extend(ids(&removed));
    all.sort();
    let mut original = ids(&demo_model());
    original.sort();
    assert_eq!(all, original);
}
