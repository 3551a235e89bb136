use tutors::fstree::{Entry, Node};
use tutors::record::Record;
use tutors::table::write_table;
use tutors::{fill_table, stats, Error};

fn header_and(rows: &str) -> String {
    let mut text = String::from(
        "ID,Vollständiger Name,ID-Nummer,E-Mail-Adresse,Status,Bewertung,Bestwertung,Bewertung kann geändert werden,Zuletzt geändert (Abgabe),Zuletzt geändert (Bewertung),Feedback als Kommentar\n",
    );
    text.push_str(rows);
    text
}

fn student_tree() -> Vec<Entry> {
    vec![
        Entry { path: vec!["111_Ann".to_string()], node: Node::Dir },
        Entry {
            path: vec!["111_Ann".to_string(), "Main.java".to_string()],
            node: Node::File(b"// Tutor: -2.5\n".to_vec()),
        },
    ]
}

#[test]
fn filler_recomputes_and_stamps_feedback() {
    let text = header_and(
        "Teilnehmer/in111,Ann,1,a@e,ok,,\"24,00\",Ja,t1,t2,old note\n",
    );
    let out = fill_table(
        &"grades.csv".to_string(),
        true,
        true,
        &text,
        &student_tree(),
    )
    .unwrap();
    let expected = write_table(&vec![Record {
        id: "111".to_string(),
        name: "Ann".to_string(),
        id_number: "1".to_string(),
        email: "a@e".to_string(),
        status: "ok".to_string(),
        rating: Some(2400 - 250),
        best_rating: 2400,
        rating_changeable: "Ja".to_string(),
        last_change_submission: "t1".to_string(),
        last_change_rating: "t2".to_string(),
        feedback: "Bewertung siehe Feedbackdateien.".to_string(),
    }]);
    assert_eq!(out, expected);
    assert!(out.contains("\"21,50\""));
}

#[test]
fn filler_excludes_unmatched_records() {
    let text = header_and(
        "Teilnehmer/in111,Ann,1,a@e,ok,,\"24,00\",Ja,t1,t2,\nTeilnehmer/in222,Bob,2,b@e,ok,,\"24,00\",Ja,t1,t2,\n",
    );
    let out = fill_table(
        &"grades.csv".to_string(),
        true,
        true,
        &text,
        &student_tree(),
    )
    .unwrap();
    assert!(out.contains("Teilnehmer/in111"));
    assert!(!out.contains("Teilnehmer/in222"));
}

#[test]
fn filler_clamps_rating_at_zero() {
    let tree = vec![
        Entry { path: vec!["333_Cy".to_string()], node: Node::Dir },
        Entry {
            path: vec!["333_Cy".to_string(), "Main.java".to_string()],
            node: Node::File(b"// Tutor: 30\n".to_vec()),
        },
    ];
    let text = header_and("Teilnehmer/in333,Cy,3,c@e,ok,,\"25,00\",Ja,t1,t2,\n");
    let out = fill_table(&"t.csv".to_string(), true, true, &text, &tree).unwrap();
    assert!(out.contains("\"0,00\""));
}

#[test]
fn filler_rejects_bad_paths() {
    let text = header_and("");
    let tree = Vec::new();
    assert_eq!(
        fill_table(&"grades.csv".to_string(), false, true, &text, &tree),
        Err(Error::InvalidTablePath)
    );
    assert_eq!(
        fill_table(&"grades.csv".to_string(), true, false, &text, &tree),
        Err(Error::InvalidTablePath)
    );
    assert_eq!(
        fill_table(&"grades.txt".to_string(), true, true, &text, &tree),
        Err(Error::InvalidTablePath)
    );
    assert_eq!(Error::InvalidTablePath.message(), "Table path not valid");
}

#[test]
fn filler_accepts_paths_with_directories() {
    let text = header_and("");
    let tree = Vec::new();
    let out = fill_table(&"some/dir/grades.csv".to_string(), true, true, &text, &tree);
    assert!(out.is_ok());
}

#[test]
fn filler_last_matching_folder_wins() {
    let tree = vec![
        Entry { path: vec!["111_old".to_string()], node: Node::Dir },
        Entry {
            path: vec!["111_old".to_string(), "Main.java".to_string()],
            node: Node::File(b"// Tutor: 10\n".to_vec()),
        },
        Entry { path: vec!["111_new".to_string()], node: Node::Dir },
        Entry {
            path: vec!["111_new".to_string(), "Main.java".to_string()],
            node: Node::File(b"// Tutor: 1\n".to_vec()),
        },
    ];
    let text = header_and("Teilnehmer/in111,Ann,1,a@e,ok,,\"24,00\",Ja,t1,t2,\n");
    let out = fill_table(&"t.csv".to_string(), true, true, &text, &tree).unwrap();
    assert!(out.contains("\"23,00\""));
}

#[test]
fn stats_is_not_implemented() {
    let r = stats();
    assert_eq!(r, Err(Error::NotImplemented));
    assert_eq!(Error::NotImplemented.message(), "Not yet implemented");
}
