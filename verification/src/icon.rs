//! The built-in icon set, the open/closed icon pairing of a node, and the
//! playground's choice of icon by file extension.

use vstd::prelude::*;

verus! {

/// The built-in painted icon set. It is non-exhaustive, so it can keep
/// growing.
#[derive(Clone, Copy, Debug, PartialEq, Eq, Hash, Structural)]
#[non_exhaustive]
pub enum Icon {
    FolderClosed,
    FolderOpen,
    CrateClosed,
    CrateOpen,
    /// A generic file: page with a folded corner.
    File,
    FileRust,
    FilePdf,
    FileHtml,
    FileMarkdown,
    FileImage,
    /// A `Cargo.toml`: page with a miniature crate.
    FileCargo,
    /// A `Cargo.lock`: page with a padlock.
    FileLock,
    /// A README: page with an open book.
    FileReadme,
    /// JSON: page with curly braces.
    FileJson,
}

/// A node's icon: the closed (or only) source, plus an optional variant
/// shown while the node is an open directory.
pub struct IconSpec<S> {
    pub closed: S,
    pub open: Option<S>,
}

impl<S> IconSpec<S> {
    /// An icon with a single source.
    pub fn new(closed: S) -> (r: Self)
        ensures
            r.closed == closed,
            r.open is None,
    {
        IconSpec { closed, open: None }
    }

    /// The variant shown while the directory is open.
    pub fn open(self, open: S) -> (r: Self)
        ensures
            r.closed == self.closed,
            r.open == Some(open),
    {
        IconSpec { closed: self.closed, open: Some(open) }
    }

    /// The source a row shows: the open variant for an open directory that
    /// has one, the closed source otherwise.
    pub fn source_for(&self, is_dir: bool, is_open: bool) -> (r: &S)
        ensures
            *r == (if is_dir && is_open && self.open is Some {
                self.open->0
            } else {
                self.closed
            }),
    {
        match &self.open {
            Some(open_source) => if is_dir && is_open {
                open_source
            } else {
                &self.closed
            },
            None => &self.closed,
        }
    }

    /// [`IconSpec::source_for`], for a source that a painter may change in
    /// place: the returned slot is the one `source_for` reads, and nothing
    /// else of the icon changes.
    pub fn source_for_mut(&mut self, is_dir: bool, is_open: bool) -> (r: &mut S)
        ensures
            if is_dir && is_open && old(self).open is Some {
                &&& *r == old(self).open->0
                &&& final(self).open == Some(*final(r))
                &&& final(self).closed == old(self).closed
            } else {
                &&& *r == old(self).closed
                &&& final(self).closed == *final(r)
                &&& final(self).open == old(self).open
            },
    {
        if is_dir && is_open && self.open.is_some() {
            match &mut self.open {
                Some(open_source) => open_source,
                None => &mut self.closed,
            }
        } else {
            &mut self.closed
        }
    }
}

impl Icon {
    /// Folder with automatic open/closed variant switching.
    pub fn folder() -> (r: IconSpec<Icon>)
        ensures
            r.closed == Icon::FolderClosed,
            r.open == Some(Icon::FolderOpen),
    {
        IconSpec::new(Icon::FolderClosed).open(Icon::FolderOpen)
    }

    /// Rust crate with automatic open/closed variant switching.
    pub fn rust_crate() -> (r: IconSpec<Icon>)
        ensures
            r.closed == Icon::CrateClosed,
            r.open == Some(Icon::CrateOpen),
    {
        IconSpec::new(Icon::CrateClosed).open(Icon::CrateOpen)
    }
}

/// The position of the last `.` in a name, if any.
pub open spec fn last_dot(name: Seq<char>) -> Option<int>
    decreases name.len(),
{
    if name.len() == 0 {
        None
    } else if name.last() == '.' {
        Some(name.len() - 1)
    } else {
        last_dot(name.drop_last())
    }
}

/// The text after the last `.` of a name, or the whole name when it has
/// none.
pub open spec fn extension(name: Seq<char>) -> Seq<char> {
    match last_dot(name) {
        Some(i) => name.skip(i + 1),
        None => name,
    }
}

/// The icon for a file with this extension.
pub open spec fn icon_for_extension(ext: Seq<char>) -> Icon {
    if ext == "rs"@ {
        Icon::FileRust
    } else if ext == "pdf"@ {
        Icon::FilePdf
    } else if ext == "html"@ {
        Icon::FileHtml
    } else if ext == "md"@ {
        Icon::FileMarkdown
    } else if ext == "png"@ {
        Icon::FileImage
    } else {
        Icon::File
    }
}

proof fn lemma_last_dot_bounds(name: Seq<char>)
    ensures
        match last_dot(name) {
            Some(i) => 0 <= i < name.len() && name[i] == '.' && forall|j: int|
                i < j < name.len() ==> name[j] != '.',
            None => forall|j: int| 0 <= j < name.len() ==> name[j] != '.',
        },
    decreases name.len(),
{
    if name.len() > 0 && name.last() != '.' {
        lemma_last_dot_bounds(name.drop_last());
        assert forall|j: int| 0 <= j < name.len() - 1 implies name[j] == name.drop_last()[j] by {}
    }
}

/// Whether the characters of `name` from `start` on are exactly `lit`.
pub(crate) fn tail_is(name: &str, start: usize, len: usize, lit: &str) -> (r: bool)
    requires
        len == name@.len(),
        start <= len,
    ensures
        r == (name@.skip(start as int) == lit@),
{
    let m = lit.unicode_len();
    if len - start != m {
        assert(name@.skip(start as int).len() != lit@.len());
        return false;
    }
    let mut k: usize = 0;
    while k < m
        invariant
            len == name@.len(),
            m == lit@.len(),
            start + m == len,
            k <= m,
            forall|j: int| 0 <= j < k ==> name@[start + j] == lit@[j],
        decreases m - k,
    {
        if name.get_char(start + k) != lit.get_char(k) {
            assert(name@.skip(start as int)[k as int] != lit@[k as int]);
            return false;
        }
        k += 1;
    }
    assert(name@.skip(start as int) =~= lit@);
    true
}

/// The icon the playground shows for a file name, chosen by the text after
/// its last `.` (the whole name when it has none).
pub fn icon_for(name: &str) -> (r: Icon)
    ensures
        r == icon_for_extension(extension(name@)),
{
    proof {
        lemma_last_dot_bounds(name@);
    }
    let len = name.unicode_len();
    let mut i: usize = len;
    while i > 0 && name.get_char(i - 1) != '.'
        invariant
            len == name@.len(),
            i <= len,
            forall|j: int| i <= j < len ==> name@[j] != '.',
        decreases i,
    {
        i -= 1;
    }
    let start = if i > 0 && name.get_char(i - 1) == '.' { i } else { 0 };
    proof {
        if i > 0 && name@[i - 1] == '.' {
            assert(last_dot(name@) == Some(i - 1)) by {
                match last_dot(name@) {
                    Some(d) => {
                        if d < i - 1 {
                            assert(name@[i - 1] != '.');
                        } else if d > i - 1 {
                            assert(name@[d] != '.');
                        }
                    },
                    None => {},
                }
            }
        } else {
            assert(i == 0);
            assert(last_dot(name@) is None);
            assert(name@.skip(0) =~= name@);
        }
    }
    if tail_is(name, start, len, "rs") {
        Icon::FileRust
    } else if tail_is(name, start, len, "pdf") {
        Icon::FilePdf
    } else if tail_is(name, start, len, "html") {
        Icon::FileHtml
    } else if tail_is(name, start, len, "md") {
        Icon::FileMarkdown
    } else if tail_is(name, start, len, "png") {
        Icon::FileImage
    } else {
        Icon::File
    }
}

} // verus!
