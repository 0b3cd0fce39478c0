use rname::ops::RenameType;
use rname::RenameOp;
use rname::SortOption;
use rname::SortOrder;

#[test]
fn from_dir_records_the_session() {
    let op = RenameOp::from_dir(
        "/home/me/photos",
        "vi",
        Some(2),
        true,
        false,
        Some(SortOption { order: SortOrder::Alphabetical, ascending: true }),
    );
    assert!(!op.is_demo);
    match op.rename_type {
        RenameType::Directory { dir, editor, filter_dirs, depth, sorting } => {
            assert_eq!(dir, "/home/me/photos");
            assert_eq!(editor, "vi");
            assert!(filter_dirs);
            assert_eq!(depth, Some(2));
            match sorting {
                Some(SortOption { order: SortOrder::Alphabetical, ascending }) => {
                    assert!(ascending)
                }
                _ => assert!(false),
            }
        }
        _ => assert!(false),
    }
}

#[test]
fn from_stdin_records_the_session() {
    let op = RenameOp::from_stdin("nano", true, None);
    assert!(op.is_demo);
    match op.rename_type {
        RenameType::StdinInput { editor, sorting } => {
            assert_eq!(editor, "nano");
            assert!(sorting.is_none());
        }
        _ => assert!(false),
    }
}

#[test]
fn from_left_records_the_session() {
    let op = RenameOp::from_left(
        "names.txt",
        "vi",
        false,
        Some(SortOption { order: SortOrder::DirsFirst, ascending: false }),
    );
    assert!(!op.is_demo);
    match op.rename_type {
        RenameType::LeftFile { file, editor, sorting } => {
            assert_eq!(file, "names.txt");
            assert_eq!(editor, "vi");
            match sorting {
                Some(SortOption { order: SortOrder::DirsFirst, ascending }) => {
                    assert!(!ascending)
                }
                _ => assert!(false),
            }
        }
        _ => assert!(false),
    }
}

#[test]
fn from_compare_records_the_session() {
    let op = RenameOp::from_compare("before.txt", "after.txt", true);
    assert!(op.is_demo);
    match op.rename_type {
        RenameType::FileCompare { left, right } => {
            assert_eq!(left, "before.txt");
            assert_eq!(right, "after.txt");
        }
        _ => assert!(false),
    }
}
