use std::collections::HashMap;

use rname::bulk_rename;
use rname::paths::replace_filename;
use rname::rename::Rename;
use rname::RenameError;

/// The file-level model the library's laws are stated over: a map from path
/// to content.  One rename moves the content if the source exists, else it
/// fails and changes nothing.
fn apply(model: &mut HashMap<String, String>, r: &Rename) -> bool {
    if let Some(v) = model.remove(&r.from) {
        model.insert(r.to.clone(), v);
        true
    } else {
        false
    }
}

fn strings(items: &[&str]) -> Vec<String> {
    items.iter().map(|s| s.to_string()).collect()
}

#[test]
fn independent_batch_moves_contents() {
    // Two pairs without any path overlap: planned as given, in order, with
    // nothing withheld as conflicting; applied, each target holds its
    // source's former content.
    let froms = strings(&["/d/a.txt", "/d/b.txt"]);
    let tos = strings(&["/d/c.txt", "/d/e.txt"]);
    let plan = bulk_rename(&froms, &tos).unwrap();

    assert_eq!(plan.conflict_pairs, 0);
    assert_eq!(plan.resolved.len(), 0);
    assert_eq!(
        plan.singles,
        vec![
            Rename::new("/d/a.txt", "/d/c.txt"),
            Rename::new("/d/b.txt", "/d/e.txt"),
        ]
    );

    let mut model: HashMap<String, String> = HashMap::new();
    model.insert("/d/a.txt".to_string(), "alpha".to_string());
    model.insert("/d/b.txt".to_string(), "beta".to_string());
    model.insert("/d/other".to_string(), "untouched".to_string());
    let mut done: usize = 0;
    for r in plan.singles.iter() {
        if apply(&mut model, r) {
            done += 1;
        }
    }
    assert_eq!(plan.tally(done), 2);
    assert_eq!(model.get("/d/c.txt"), Some(&"alpha".to_string()));
    assert_eq!(model.get("/d/e.txt"), Some(&"beta".to_string()));
    assert_eq!(model.get("/d/other"), Some(&"untouched".to_string()));
    assert_eq!(model.get("/d/a.txt"), None);
    assert_eq!(model.get("/d/b.txt"), None);
}

#[test]
fn swap_breaks_cycle_and_moves_both() {
    // froms = [A, B], tos = [B, A]: the swap is the one conflicting pair;
    // after applying the resolved three-step sequence the content formerly
    // at A is at B and vice versa, and the temporary name is gone.
    let a = "/dir/A.txt".to_string();
    let b = "/dir/B.txt".to_string();
    let plan = bulk_rename(&vec![a.clone(), b.clone()], &vec![b.clone(), a.clone()]).unwrap();

    assert_eq!(plan.singles.len(), 0);
    assert_eq!(plan.conflict_pairs, 1);
    assert_eq!(plan.resolved.len(), 3);

    // The breakout parks the later-seen rename (B -> A) under a temporary
    // name in its target directory, runs A -> B, then completes the move.
    assert_eq!(plan.resolved[0].from, b);
    assert_eq!(plan.resolved[1], Rename::new(&a, &b));
    assert_eq!(plan.resolved[2].to, a);
    let temp = plan.resolved[0].to.clone();
    assert_eq!(plan.resolved[2].from, temp);
    // The temporary path is the generated 36-character token in A's
    // directory; a token is never empty and never holds a separator.
    assert!(temp.starts_with("/dir/"));
    assert_eq!(temp.chars().count(), "/dir/".chars().count() + 36);
    assert!(!temp["/dir/".len()..].contains('/'));
    assert_ne!(temp, a);
    assert_ne!(temp, b);

    let mut model: HashMap<String, String> = HashMap::new();
    model.insert(a.clone(), "hello".to_string());
    model.insert(b.clone(), "hi".to_string());
    for r in plan.resolved.iter() {
        assert!(apply(&mut model, r));
    }
    assert_eq!(model.len(), 2);
    assert_eq!(model.get(&a), Some(&"hi".to_string()));
    assert_eq!(model.get(&b), Some(&"hello".to_string()));
    assert_eq!(model.get(&temp), None);
    // A resolved pair counts as two renamed items.
    assert_eq!(plan.tally(0), 2);
    assert_eq!(plan.planned_count(), 2);
}

#[test]
fn resolver_applies_both_renames_of_an_unrelated_pair() {
    // A detected pair need not be a swap (a key collision can couple two
    // independent renames); the three-step breakout still applies both.
    let x = Rename::new("/d/x1", "/d/x2");
    let y = Rename::new("/e/y1", "/e/y2");
    let moves = rname::plan::with_temporary_moves(&vec![(x, y)]);
    assert_eq!(moves.len(), 3);
    assert_eq!(moves[0].from, "/d/x1");
    assert!(moves[0].to.starts_with("/d/"));
    assert_eq!(moves[1], Rename::new("/e/y1", "/e/y2"));
    assert_eq!(moves[2].from, moves[0].to);
    assert_eq!(moves[2].to, "/d/x2");

    let mut model: HashMap<String, String> = HashMap::new();
    model.insert("/d/x1".to_string(), "one".to_string());
    model.insert("/e/y1".to_string(), "two".to_string());
    for r in moves.iter() {
        assert!(apply(&mut model, r));
    }
    assert_eq!(model.len(), 2);
    assert_eq!(model.get("/d/x2"), Some(&"one".to_string()));
    assert_eq!(model.get("/e/y2"), Some(&"two".to_string()));
}

#[test]
fn length_mismatch_is_fatal() {
    // froms of length 2, tos of length 1: the fatal error, and no plan (so
    // nothing that could mutate a filesystem) comes back.
    let result = bulk_rename(&strings(&["a", "b"]), &strings(&["c"]));
    assert!(matches!(result, Err(RenameError::LengthMismatch)));
    let msg = result.unwrap_err().message();
    assert_eq!(
        msg,
        "Error: renamed files does not match original files in length"
    );
}

#[test]
fn incompatible_pair_aborts_whole_batch() {
    // The first structurally incompatible pair aborts planning, even when
    // other pairs are fine.
    let result = bulk_rename(
        &strings(&["/ok/x", "/A/B/C"]),
        &strings(&["/ok/y", "/X/Y"]),
    );
    match result {
        Err(RenameError::IncompatiblePaths { from, to }) => {
            assert_eq!(from, "/A/B/C");
            assert_eq!(to, "/X/Y");
        }
        _ => assert!(false),
    }
}

#[test]
fn incompatible_message_names_the_pair() {
    let err = Rename::rename_sequence("/A/B/C", "/X/Y").unwrap_err();
    assert_eq!(
        err.message(),
        "Incompatible paths for renaming: /A/B/C -> /X/Y"
    );
}

#[test]
fn noop_pair_contributes_nothing() {
    // A pair with from == to plans zero renames and zero side effects.
    let plan = bulk_rename(&strings(&["/x", "same"]), &strings(&["/x", "same"])).unwrap();
    assert_eq!(plan.singles.len(), 0);
    assert_eq!(plan.resolved.len(), 0);
    assert_eq!(plan.conflict_pairs, 0);
    assert_eq!(plan.planned_count(), 0);
}

#[test]
fn empty_batch_plans_nothing() {
    let plan = bulk_rename(&strings(&[]), &strings(&[])).unwrap();
    assert_eq!(plan.singles.len(), 0);
    assert_eq!(plan.resolved.len(), 0);
    assert_eq!(plan.planned_count(), 0);
}

#[test]
fn duplicate_renames_are_not_conflicts() {
    // The same rename twice shares its key but is identical: a duplicate,
    // not a conflict; both stay in the non-conflicting list.
    let plan = bulk_rename(&strings(&["/x", "/x"]), &strings(&["/y", "/y"])).unwrap();
    assert_eq!(plan.conflict_pairs, 0);
    assert_eq!(
        plan.singles,
        vec![Rename::new("/x", "/y"), Rename::new("/x", "/y")]
    );
}

#[test]
fn duplicate_of_conflicted_rename_is_withheld() {
    // froms = [A, B, A], tos = [B, A, B]: the first two renames are the swap
    // pair; the third is a duplicate of a conflicted rename and must be
    // withheld too — otherwise it would run first and overwrite B's content
    // before the breakout.
    let a = "/d/A".to_string();
    let b = "/d/B".to_string();
    let plan = bulk_rename(
        &vec![a.clone(), b.clone(), a.clone()],
        &vec![b.clone(), a.clone(), b.clone()],
    )
    .unwrap();
    assert_eq!(plan.conflict_pairs, 1);
    assert_eq!(plan.singles.len(), 0);
    assert_eq!(plan.resolved.len(), 3);

    let mut model: HashMap<String, String> = HashMap::new();
    model.insert(a.clone(), "first".to_string());
    model.insert(b.clone(), "second".to_string());
    for r in plan.singles.iter() {
        apply(&mut model, r);
    }
    for r in plan.resolved.iter() {
        apply(&mut model, r);
    }
    assert_eq!(model.len(), 2);
    assert_eq!(model.get(&a), Some(&"second".to_string()));
    assert_eq!(model.get(&b), Some(&"first".to_string()));
}

#[test]
fn combined_hash_exact_values() {
    // The path hash is the 64-bit FNV-1a fold; "a" hashes to
    // 0xaf63dc4c8601ec8c, "b" to 0xaf63df4c8601f1a5, the empty string to the
    // offset basis 0xcbf29ce484222325.  The key is their wrapping sum.
    assert_eq!(Rename::new("a", "b").combined_hash(), 0x5ec7bb990c03de31);
    assert_eq!(Rename::new("a", "").combined_hash(), 0x7b5679310a240fb1);
}

#[test]
fn combined_hash_is_commutative() {
    // The conflict key must not change when from and to trade places, and
    // must separate renames that differ in one path.
    let ab = Rename::new("/p/a", "/p/b").combined_hash();
    let ba = Rename::new("/p/b", "/p/a").combined_hash();
    let ac = Rename::new("/p/a", "/p/c").combined_hash();
    assert_eq!(ab, ba);
    assert_ne!(ab, ac);
}

#[test]
fn deep_decomposition_then_plan() {
    // A single pair differing in every component decomposes bottom-up and
    // is planned conflict-free.
    let plan = bulk_rename(&strings(&["/x/y/z"]), &strings(&["/a/b/c"])).unwrap();
    assert_eq!(plan.conflict_pairs, 0);
    assert_eq!(
        plan.singles,
        vec![
            Rename::new("/x/y/z", "/x/y/c"),
            Rename::new("/x/y", "/x/b"),
            Rename::new("/x", "/a"),
        ]
    );
    assert_eq!(plan.planned_count(), 3);
}

#[test]
fn replace_filename_keeps_directory() {
    assert_eq!(replace_filename("a/b/c", "t"), "a/b/t");
    assert_eq!(replace_filename("/x", "t"), "/t");
    assert_eq!(replace_filename("x", "t"), "t");
    assert_eq!(replace_filename("", "t"), "t");
    assert_eq!(replace_filename("/", "t"), "/t");
    assert_eq!(replace_filename("x/y/", "t"), "x/t");
}
