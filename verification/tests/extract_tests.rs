use tutors::extract::{extract_id, extract_name, is_counted_source, is_zip_file, not_ignored};

#[test]
fn id_is_first_digit_run() {
    assert_eq!(extract_id(&"1234567_Jane".to_string()), Some("1234567".to_string()));
    assert_eq!(extract_id(&"hw1_456".to_string()), Some("1".to_string()));
    assert_eq!(extract_id(&"nodigits".to_string()), None);
}

#[test]
fn name_is_first_plain_run() {
    assert_eq!(extract_name(&"1234567_Jane".to_string()), Some("Jane".to_string()));
    assert_eq!(extract_name(&"Jane Q_123".to_string()), Some("Jane Q".to_string()));
    assert_eq!(extract_name(&"123_456".to_string()), None);
}

#[test]
fn ignored_names_are_spotted() {
    assert!(!not_ignored(&"__MACOSX".to_string()));
    assert!(!not_ignored(&".git".to_string()));
    assert!(!not_ignored(&"Main.class".to_string()));
    assert!(!not_ignored(&"project.IML".to_string()));
    assert!(not_ignored(&"Main.java".to_string()));
    assert!(not_ignored(&"notes.txt".to_string()));
}

#[test]
fn archive_names_end_in_zip() {
    assert!(is_zip_file(&"a.zip".to_string()));
    assert!(!is_zip_file(&"a.zip.txt".to_string()));
    assert!(!is_zip_file(&"a.ZIP".to_string()));
}

#[test]
fn counted_sources_are_java() {
    assert!(is_counted_source(&"Main.java".to_string()));
    assert!(!is_counted_source(&"Main.javax".to_string()));
    assert!(!is_counted_source(&"java".to_string()));
}
