use rname::RenameOp;
use rname::SortOption;
use rname::SortOrder;

fn strings(items: &[&str]) -> Vec<String> {
    items.iter().map(|s| s.to_string()).collect()
}

#[test]
fn sort_alphabetical_ascending() {
    let op = RenameOp::from_stdin("vi", false, None);
    let mut files = strings(&["b.txt", "a.txt", "c.txt", "a.txt"]);
    op.sort_alphabetical(&mut files, true);
    assert_eq!(files, strings(&["a.txt", "a.txt", "b.txt", "c.txt"]));
}

#[test]
fn sort_alphabetical_descending() {
    let op = RenameOp::from_stdin("vi", false, None);
    let mut files = strings(&["b", "c", "a"]);
    op.sort_alphabetical(&mut files, false);
    assert_eq!(files, strings(&["c", "b", "a"]));
}

#[test]
fn sort_dirs_first_groups_then_sorts() {
    let op = RenameOp::from_stdin("vi", false, None);
    let mut files = strings(&["zdir", "afile", "adir", "zfile"]);
    let is_dir = vec![true, false, true, false];
    op.sort_dirs_first(&mut files, &is_dir, true);
    assert_eq!(files, strings(&["adir", "zdir", "afile", "zfile"]));
}

#[test]
fn sort_files_none_keeps_order() {
    let op = RenameOp::from_stdin("vi", false, None);
    let mut files = strings(&["b", "a"]);
    let is_dir = vec![false, false];
    op.sort_files(&mut files, &is_dir, &None);
    assert_eq!(files, strings(&["b", "a"]));
}

#[test]
fn unreadable_metadata_sorts_with_the_files() {
    // The lenient policy: an entry whose metadata cannot be read is flagged
    // as not a directory and sorts with the plain files, not fatally.
    let op = RenameOp::from_stdin("vi", false, None);
    let mut files = strings(&["dir", "ghost", "file"]);
    let is_dir = vec![true, false, false];
    op.sort_dirs_first(&mut files, &is_dir, true);
    assert_eq!(files, strings(&["dir", "file", "ghost"]));
}

#[test]
fn sort_files_dispatches_alphabetical() {
    let op = RenameOp::from_stdin("vi", false, None);
    let mut files = strings(&["b", "a"]);
    let is_dir = vec![false, false];
    op.sort_files(
        &mut files,
        &is_dir,
        &Some(SortOption { order: SortOrder::Alphabetical, ascending: true }),
    );
    assert_eq!(files, strings(&["a", "b"]));
}

#[test]
fn sort_files_dispatches_dirs_first() {
    let op = RenameOp::from_stdin("vi", false, None);
    let mut files = strings(&["b", "a", "d", "c"]);
    let is_dir = vec![false, false, true, true];
    op.sort_files(
        &mut files,
        &is_dir,
        &Some(SortOption { order: SortOrder::DirsFirst, ascending: false }),
    );
    assert_eq!(files, strings(&["d", "c", "b", "a"]));
}
