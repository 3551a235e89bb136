use std::io::Write;

use tutors::fstree::{Entry, Node};
use tutors::{unzip, zipit, Error};

fn build_zip(entries: &[(&str, &[u8])]) -> Vec<u8> {
    let opts = zip::write::SimpleFileOptions::default();
    let mut w = zip::ZipWriter::new(std::io::Cursor::new(Vec::new()));
    for (name, data) in entries {
        w.start_file(*name, opts).unwrap();
        w.write_all(data).unwrap();
    }
    w.finish().unwrap().into_inner()
}

fn list_zip(bytes: &[u8]) -> Vec<(String, Vec<u8>)> {
    let mut archive = zip::ZipArchive::new(std::io::Cursor::new(bytes)).unwrap();
    let mut out = Vec::new();
    for i in 0..archive.len() {
        let mut f = archive.by_index(i).unwrap();
        let name = f.name().to_string();
        let mut data = Vec::new();
        std::io::Read::read_to_end(&mut f, &mut data).unwrap();
        out.push((name, data));
    }
    out
}

#[test]
fn unzip_single_extracts_once() {
    let outer = build_zip(&[("a.txt", b"hello"), ("d/b.txt", b"nested")]);
    let tree = unzip(&outer, true, false).unwrap();
    assert!(tree.contains(&Entry {
        path: vec!["a.txt".to_string()],
        node: Node::File(b"hello".to_vec()),
    }));
    assert!(tree.contains(&Entry {
        path: vec!["d".to_string(), "b.txt".to_string()],
        node: Node::File(b"nested".to_vec()),
    }));
}

#[test]
fn unzip_resolves_nested_archive() {
    let inner = build_zip(&[("hello.txt", b"hi there")]);
    let outer = build_zip(&[("inner.zip", &inner)]);
    let tree = unzip(&outer, false, false).unwrap();
    assert!(tree.contains(&Entry {
        path: vec!["hello.txt".to_string()],
        node: Node::File(b"hi there".to_vec()),
    }));
    for e in &tree {
        assert!(!e.path.last().unwrap().ends_with(".zip"));
    }
}

#[test]
fn unzip_prunes_junk_from_nested_extraction() {
    let inner = build_zip(&[("__MACOSX/junk", b"x"), ("keep.txt", b"y")]);
    let outer = build_zip(&[("inner.zip", &inner)]);
    let tree = unzip(&outer, false, false).unwrap();
    assert!(tree.contains(&Entry {
        path: vec!["keep.txt".to_string()],
        node: Node::File(b"y".to_vec()),
    }));
    for e in &tree {
        assert!(!e.path.iter().any(|c| c.contains("__MACOSX")));
    }
}

#[test]
fn unzip_flattens_when_asked() {
    let inner = build_zip(&[("deep/deeper/file.txt", b"z")]);
    let outer = build_zip(&[("inner.zip", &inner)]);
    let tree = unzip(&outer, false, true).unwrap();
    assert!(tree.contains(&Entry {
        path: vec!["file.txt".to_string()],
        node: Node::File(b"z".to_vec()),
    }));
}

#[test]
fn unzip_rejects_garbage() {
    let garbage = b"this is not an archive".to_vec();
    assert_eq!(unzip(&garbage, false, false), Err(Error::InvalidArchive));
    assert_eq!(
        Error::InvalidArchive.message(),
        "Invalid or corrupt zip archive"
    );
}

#[test]
fn packager_scenario_single_student() {
    let tree = vec![
        Entry { path: vec!["stu".to_string()], node: Node::Dir },
        Entry {
            path: vec!["stu".to_string(), "Main.java".to_string()],
            node: Node::File(b"code".to_vec()),
        },
        Entry {
            path: vec!["stu".to_string(), "notes.txt".to_string()],
            node: Node::File(b"notes".to_vec()),
        },
    ];
    let plan = zipit(&"feedback".to_string(), tree).unwrap();
    assert_eq!(plan.students.len(), 1);
    let st = &plan.students[0];
    assert_eq!(st.zip_path, vec!["stu".to_string(), "feedback.zip".to_string()]);

    // The feedback archive holds exactly the two loose files.
    let entries = list_zip(&st.zip_bytes);
    assert_eq!(entries.len(), 2);
    assert_eq!(entries[0], ("Main.java".to_string(), b"code".to_vec()));
    assert_eq!(entries[1], ("notes.txt".to_string(), b"notes".to_vec()));

    // Both loose files are planned for deletion; the archive is not.
    let deleted: Vec<&Vec<String>> = st.deletions.iter().map(|d| &d.path).collect();
    assert_eq!(deleted.len(), 2);
    assert!(deleted.contains(&&vec!["stu".to_string(), "Main.java".to_string()]));
    assert!(deleted.contains(&&vec!["stu".to_string(), "notes.txt".to_string()]));

    // The outer archive holds the student folder with only the feedback
    // archive inside.
    let outer = list_zip(&plan.outer_zip);
    let names: Vec<&str> = outer.iter().map(|(n, _)| n.as_str()).collect();
    assert!(names.contains(&"stu/"));
    assert!(names.contains(&"stu/feedback.zip"));
    assert!(!names.iter().any(|n| n.ends_with("Main.java")));
}

#[test]
fn packager_keeps_existing_archives_out_of_bundle() {
    let tree = vec![
        Entry { path: vec!["stu".to_string()], node: Node::Dir },
        Entry {
            path: vec!["stu".to_string(), "submission.zip".to_string()],
            node: Node::File(b"orig".to_vec()),
        },
        Entry {
            path: vec!["stu".to_string(), "review.txt".to_string()],
            node: Node::File(b"r".to_vec()),
        },
    ];
    let plan = zipit(&"feedback".to_string(), tree).unwrap();
    let entries = list_zip(&plan.students[0].zip_bytes);
    assert_eq!(entries.len(), 1);
    assert_eq!(entries[0].0, "review.txt");
    let deleted: Vec<&Vec<String>> = plan.students[0].deletions.iter().map(|d| &d.path).collect();
    assert_eq!(deleted, vec![&vec!["stu".to_string(), "review.txt".to_string()]]);
}
