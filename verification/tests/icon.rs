use egui_ailanthus::icon::icon_for;
use egui_ailanthus::{Icon, IconSpec};

#[test]
fn icon_by_extension() {
    assert_eq!(icon_for("lib.rs"), Icon::FileRust);
    assert_eq!(icon_for("report.pdf"), Icon::FilePdf);
    assert_eq!(icon_for("index.html"), Icon::FileHtml);
    assert_eq!(icon_for("notes.md"), Icon::FileMarkdown);
    assert_eq!(icon_for("logo.png"), Icon::FileImage);
    assert_eq!(icon_for("Cargo.toml"), Icon::File);
}

#[test]
fn extension_is_text_after_last_dot_or_whole_name() {
    assert_eq!(icon_for("archive.tar.rs"), Icon::FileRust);
    assert_eq!(icon_for("rs"), Icon::FileRust);
    assert_eq!(icon_for("notes.md.bak"), Icon::File);
    assert_eq!(icon_for("trailing."), Icon::File);
    assert_eq!(icon_for(""), Icon::File);
    assert_eq!(icon_for("ünï.pdf"), Icon::FilePdf);
}

#[test]
fn open_variant_only_for_open_directories() {
    let folder = Icon::folder();
    assert_eq!(*folder.source_for(true, true), Icon::FolderOpen);
    assert_eq!(*folder.source_for(true, false), Icon::FolderClosed);
    assert_eq!(*folder.source_for(false, true), Icon::FolderClosed);
    let krate = Icon::rust_crate();
    assert_eq!(*krate.source_for(true, true), Icon::CrateOpen);
    let single = IconSpec::new(Icon::File);
    assert_eq!(*single.source_for(true, true), Icon::File);
}

#[test]
fn source_for_mut_edits_the_slot_source_for_reads() {
    let mut folder = Icon::folder();
    *folder.source_for_mut(true, true) = Icon::CrateOpen;
    assert_eq!(folder.open, Some(Icon::CrateOpen));
    assert_eq!(folder.closed, Icon::FolderClosed);
    *folder.source_for_mut(true, false) = Icon::FileJson;
    assert_eq!(folder.closed, Icon::FileJson);
    assert_eq!(*folder.source_for(true, true), Icon::CrateOpen);
    let mut single = IconSpec::new(Icon::FileCargo);
    *single.source_for_mut(true, true) = Icon::FileLock;
    assert_eq!(single.closed, Icon::FileLock);
    assert_eq!(single.open, None);
}

#[test]
fn newer_file_icons_are_distinct() {
    let icons = [Icon::FileCargo, Icon::FileLock, Icon::FileReadme, Icon::FileJson, Icon::File];
    for (i, a) in icons.iter().enumerate() {
        for (j, b) in icons.iter().enumerate() {
            assert_eq!(a == b, i == j);
        }
    }
}
