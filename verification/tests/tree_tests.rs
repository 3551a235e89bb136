use tutors::count;
use tutors::fstree::{clean_dirs, flatten_dirs, Entry, Node};

fn dir(path: &[&str]) -> Entry {
    Entry { path: path.iter().map(|c| c.to_string()).collect(), node: Node::Dir }
}

fn file(path: &[&str], data: &[u8]) -> Entry {
    Entry { path: path.iter().map(|c| c.to_string()).collect(), node: Node::File(data.to_vec()) }
}

#[test]
fn prune_removes_ignored_and_nothing_else() {
    let tree = vec![
        dir(&[".git"]),
        file(&[".git", "config"], b"x"),
        file(&["a.txt"], b"keep"),
        dir(&["sub"]),
        file(&["sub", "Thing.class"], b"junk"),
        file(&["sub", "Main.java"], b"ok"),
        file(&["report.DS_Store.txt"], b"junk"),
    ];
    let out = clean_dirs(tree, &Vec::new());
    let expected = vec![
        file(&["a.txt"], b"keep"),
        dir(&["sub"]),
        file(&["sub", "Main.java"], b"ok"),
    ];
    assert_eq!(out, expected);
}

#[test]
fn prune_is_case_insensitive() {
    let tree = vec![dir(&["__MACOSX"]), file(&["__MACOSX", "x"], b"1"), file(&["ok"], b"2")];
    let out = clean_dirs(tree, &Vec::new());
    assert_eq!(out, vec![file(&["ok"], b"2")]);
}

#[test]
fn flatten_flat_tree_is_noop() {
    let tree = vec![file(&["a.txt"], b"1"), file(&["b.txt"], b"2")];
    let out = flatten_dirs(tree, &Vec::new());
    assert_eq!(out, vec![file(&["a.txt"], b"1"), file(&["b.txt"], b"2")]);
}

#[test]
fn flatten_hoists_nested_files() {
    let tree = vec![
        dir(&["d"]),
        dir(&["d", "e"]),
        file(&["d", "e", "deep.txt"], b"deep"),
        file(&["d", "shallow.txt"], b"shallow"),
    ];
    let out = flatten_dirs(tree, &Vec::new());
    assert_eq!(out, vec![file(&["deep.txt"], b"deep"), file(&["shallow.txt"], b"shallow")]);
}

#[test]
fn flatten_later_copy_wins() {
    let tree = vec![
        file(&["a.txt"], b"1"),
        dir(&["d"]),
        file(&["d", "a.txt"], b"2"),
    ];
    let out = flatten_dirs(tree, &Vec::new());
    assert_eq!(out, vec![file(&["a.txt"], b"2")]);
}

#[test]
fn flatten_shallower_nested_copy_wins() {
    // Deeper files are hoisted first, so of nested files sharing a name
    // the shallower one lands last and wins.
    let tree = vec![
        dir(&["d"]),
        file(&["d", "x.txt"], b"shallow"),
        dir(&["d", "e"]),
        file(&["d", "e", "x.txt"], b"deep"),
    ];
    let out = flatten_dirs(tree, &Vec::new());
    assert_eq!(out, vec![file(&["x.txt"], b"shallow")]);
}

#[test]
fn counter_scenario_single_student() {
    let tree = vec![
        dir(&["1234567_Jane"]),
        file(&["1234567_Jane", "Main.java"], b"// Tutor: -2.5\n"),
    ];
    let result = count(&tree, None);
    assert_eq!(result, "Jane,22.5\n");
}

#[test]
fn counter_clamps_at_zero() {
    let tree = vec![
        dir(&["9999999_Jane"]),
        file(&["9999999_Jane", "Main.java"], b"// Tutor: 30\n"),
    ];
    let result = count(&tree, Some(25));
    assert_eq!(result, "Jane,0\n");
}

#[test]
fn counter_skips_nameless_folders() {
    let tree = vec![dir(&["12345_"]), file(&["12345_", "Main.java"], b"// Tutor: 1\n")];
    assert_eq!(count(&tree, None), "");
}

#[test]
fn counter_ignores_other_extensions() {
    let tree = vec![
        dir(&["1_Ann"]),
        file(&["1_Ann", "notes.txt"], b"// Tutor: 5\n"),
        file(&["1_Ann", "Main.java"], b"clean\n"),
    ];
    assert_eq!(count(&tree, None), "Ann,25\n");
}
