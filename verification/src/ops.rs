//! The front-end description of one renaming session.
//!
//! A `RenameOp` records where the "before" list of names comes from — a
//! directory walk, a file, standard input, or an explicit pair of files to
//! compare — together with the editor to hand the list to, the sorting to
//! apply, and whether the session is a dry run.  It is plain data: the
//! caller gathers the two path lists as the operation describes (that is
//! I/O) and hands them to `crate::plan::bulk_rename`.

use vstd::prelude::*;

use crate::sort::{alphabetical_post, dirs_first_post, str_views};

verus! {

/// How the gathered file list is ordered before the editor sees it.
pub enum SortOrder {
    Alphabetical,
    DirsFirst,
}

/// A sorting choice: the order and its direction.
pub struct SortOption {
    pub order: SortOrder,
    pub ascending: bool,
}

/// Where the "before" names of a session come from.
pub enum RenameType {
    /// Walk `dir` (to `depth` levels if given, without following links),
    /// optionally leaving directories out, and edit the listing.
    Directory {
        dir: String,
        editor: String,
        filter_dirs: bool,
        depth: Option<usize>,
        sorting: Option<SortOption>,
    },
    /// Read the names from `file` and edit them.
    LeftFile { file: String, editor: String, sorting: Option<SortOption> },
    /// Read the names from standard input and edit them.
    StdinInput { editor: String, sorting: Option<SortOption> },
    /// Read the "before" names from `left` and the "after" names from
    /// `right`; no editor is involved.
    FileCompare { left: String, right: String },
}

/// One renaming session: an input source and a dry-run flag.
pub struct RenameOp {
    pub is_demo: bool,
    pub rename_type: RenameType,
}

impl RenameOp {
    /// A session over the contents of a directory.
    pub fn from_dir(
        dir: &str,
        editor: &str,
        depth: Option<usize>,
        filter_dirs: bool,
        is_demo: bool,
        sorting: Option<SortOption>,
    ) -> (r: RenameOp)
        ensures
            r.is_demo == is_demo,
            r.rename_type matches RenameType::Directory {
                dir: d,
                editor: e,
                filter_dirs: f,
                depth: n,
                sorting: s,
            } && d@ == dir@ && e@ == editor@ && f == filter_dirs && n == depth && s == sorting,
    {
        RenameOp {
            is_demo,
            rename_type: RenameType::Directory {
                dir: String::from_str(dir),
                editor: String::from_str(editor),
                depth,
                filter_dirs,
                sorting,
            },
        }
    }

    /// A session over names read from standard input.
    pub fn from_stdin(editor: &str, is_demo: bool, sorting: Option<SortOption>) -> (r: RenameOp)
        ensures
            r.is_demo == is_demo,
            r.rename_type matches RenameType::StdinInput { editor: e, sorting: s } && e@ == editor@
                && s == sorting,
    {
        RenameOp {
            is_demo,
            rename_type: RenameType::StdinInput { editor: String::from_str(editor), sorting },
        }
    }

    /// A session over names read from a file.
    pub fn from_left(file: &str, editor: &str, is_demo: bool, sorting: Option<SortOption>) -> (r:
        RenameOp)
        ensures
            r.is_demo == is_demo,
            r.rename_type matches RenameType::LeftFile { file: f, editor: e, sorting: s } && f@
                == file@ && e@ == editor@ && s == sorting,
    {
        RenameOp {
            is_demo,
            rename_type: RenameType::LeftFile {
                file: String::from_str(file),
                editor: String::from_str(editor),
                sorting,
            },
        }
    }

    /// Sort a gathered listing alphabetically, ascending or descending.
    pub fn sort_alphabetical(&self, files: &mut Vec<String>, ascending: bool)
        ensures
            alphabetical_post(str_views(old(files)@), str_views(final(files)@), ascending),
    {
        crate::sort::sort_alphabetical(files, ascending);
    }

    /// Sort a gathered listing with directories first, each group sorted
    /// internally.  The caller reads one is-a-directory flag per entry off
    /// the filesystem; an entry whose metadata cannot be read is flagged as
    /// not a directory.
    pub fn sort_dirs_first(&self, files: &mut Vec<String>, is_dir: &Vec<bool>, ascending: bool)
        requires
            is_dir@.len() == old(files)@.len(),
        ensures
            dirs_first_post(str_views(old(files)@), str_views(final(files)@), is_dir@, ascending),
    {
        crate::sort::sort_dirs_first(files, is_dir, ascending);
    }

    /// Apply the chosen sorting, if any, to a gathered listing.
    pub fn sort_files(
        &self,
        files: &mut Vec<String>,
        is_dir: &Vec<bool>,
        sort_option: &Option<SortOption>,
    )
        requires
            is_dir@.len() == old(files)@.len(),
        ensures
            match *sort_option {
                None => final(files)@ == old(files)@,
                Some(SortOption { order: SortOrder::Alphabetical, ascending }) => alphabetical_post(
                    str_views(old(files)@),
                    str_views(final(files)@),
                    ascending,
                ),
                Some(SortOption { order: SortOrder::DirsFirst, ascending }) => dirs_first_post(
                    str_views(old(files)@),
                    str_views(final(files)@),
                    is_dir@,
                    ascending,
                ),
            },
    {
        match sort_option {
            Some(SortOption { order: SortOrder::Alphabetical, ascending }) => {
                self.sort_alphabetical(files, *ascending);
            },
            Some(SortOption { order: SortOrder::DirsFirst, ascending }) => {
                self.sort_dirs_first(files, is_dir, *ascending);
            },
            None => {},
        }
    }

    /// A session comparing two listing files.
    pub fn from_compare(left: &str, right: &str, is_demo: bool) -> (r: RenameOp)
        ensures
            r.is_demo == is_demo,
            r.rename_type matches RenameType::FileCompare { left: l, right: rt } && l@ == left@
                && rt@ == right@,
    {
        RenameOp {
            is_demo,
            rename_type: RenameType::FileCompare {
                left: String::from_str(left),
                right: String::from_str(right),
            },
        }
    }
}

} // verus!
