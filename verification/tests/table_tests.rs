use tutors::record::Record;
use tutors::table::{read_table, write_table};

const DATA: &str = "ID,Vollständiger Name,ID-Nummer,E-Mail-Adresse,Status,Bewertung,Bestwertung,Bewertung kann geändert werden,Zuletzt geändert (Abgabe),Zuletzt geändert (Bewertung),Feedback als Kommentar
Teilnehmer/in1234567,asdf ghjklö,12345678,K12345678@students.jku.at,Zur Bewertung abgegeben,\"13,50\",\"24,00\",Ja,\"Mittwoch, 13. März 2024, 10:15\",\"Mittwoch, 13. März 2024, 19:59\",
Teilnehmer/in7654321,\"fdsa ölkjh,g\",87654321,K87654321@students.jku.at,Zur Bewertung abgegeben,,\"24,00\",Ja,\"Mittwoch, 13. März 2024, 15:10\",\"Mittwoch, 13. März 2024, 19:59\",
";

fn get_records() -> [Record; 2] {
    [
        Record {
            id: 1234567.to_string(),
            name: "asdf ghjklö".to_string(),
            id_number: 12345678.to_string(),
            email: "K12345678@students.jku.at".to_string(),
            status: "Zur Bewertung abgegeben".to_string(),
            rating: Some(1350),
            best_rating: 2400,
            rating_changeable: "Ja".to_string(),
            last_change_submission: "Mittwoch, 13. März 2024, 10:15".to_string(),
            last_change_rating: "Mittwoch, 13. März 2024, 19:59".to_string(),
            feedback: "".to_string(),
        },
        Record {
            id: 7654321.to_string(),
            name: "fdsa ölkjh,g".to_string(),
            id_number: 87654321.to_string(),
            email: "K87654321@students.jku.at".to_string(),
            status: "Zur Bewertung abgegeben".to_string(),
            rating: None,
            best_rating: 2400,
            rating_changeable: "Ja".to_string(),
            last_change_submission: "Mittwoch, 13. März 2024, 15:10".to_string(),
            last_change_rating: "Mittwoch, 13. März 2024, 19:59".to_string(),
            feedback: "".to_string(),
        },
    ]
}

#[test]
fn test_deserialize() {
    let records = get_records();
    let loaded = read_table(&DATA.to_string());
    for (i, record) in loaded.iter().take(2).enumerate() {
        assert_eq!(record, &records[i]);
    }
    assert_eq!(loaded.len(), 2);
}

#[test]
fn test_serialize() {
    let records = get_records();
    let [a, b] = records;
    let wtr = write_table(&vec![a, b]);
    assert_eq!(DATA, wtr);
}

#[test]
fn table_round_trip_quirky_fields() {
    let rec = Record {
        id: "42".to_string(),
        name: "Name, with \"quotes\"\nand a newline".to_string(),
        id_number: "x".to_string(),
        email: "a@b".to_string(),
        status: "ok".to_string(),
        rating: Some(5),
        best_rating: 18446744073709551615,
        rating_changeable: "Ja".to_string(),
        last_change_submission: "".to_string(),
        last_change_rating: "".to_string(),
        feedback: "multi\r\nline, text".to_string(),
    };
    let text = write_table(&vec![rec]);
    let back = read_table(&text);
    assert_eq!(back.len(), 1);
    let expected = get_back_expected();
    assert_eq!(back[0], expected);
}

fn get_back_expected() -> Record {
    Record {
        id: "42".to_string(),
        name: "Name, with \"quotes\"\nand a newline".to_string(),
        id_number: "x".to_string(),
        email: "a@b".to_string(),
        status: "ok".to_string(),
        rating: Some(5),
        best_rating: 18446744073709551615,
        rating_changeable: "Ja".to_string(),
        last_change_submission: "".to_string(),
        last_change_rating: "".to_string(),
        feedback: "multi\r\nline, text".to_string(),
    }
}

#[test]
fn table_rating_formats() {
    let rec = Record {
        id: "7".to_string(),
        name: "n".to_string(),
        id_number: "i".to_string(),
        email: "e".to_string(),
        status: "s".to_string(),
        rating: Some(0),
        best_rating: 25,
        rating_changeable: "Ja".to_string(),
        last_change_submission: "t1".to_string(),
        last_change_rating: "t2".to_string(),
        feedback: "".to_string(),
    };
    let text = write_table(&vec![rec]);
    assert!(text.contains("\"0,00\""));
    assert!(text.contains("\"0,25\""));
}

#[test]
fn table_missing_header_yields_nothing() {
    let text = "a,b,c\n1,2,3\n".to_string();
    assert_eq!(read_table(&text).len(), 0);
}

#[test]
fn table_bad_rows_are_dropped() {
    // A row with no digits in the ID cell, and a row with a malformed
    // rating, both vanish; the good row stays.
    let text = format!(
        "{}{}{}{}",
        "ID,Vollständiger Name,ID-Nummer,E-Mail-Adresse,Status,Bewertung,Bestwertung,Bewertung kann geändert werden,Zuletzt geändert (Abgabe),Zuletzt geändert (Bewertung),Feedback als Kommentar\n",
        "Teilnehmer/inABC,x,1,e,s,,\"24,00\",Ja,t1,t2,\n",
        "Teilnehmer/in111,x,1,e,s,oops,\"24,00\",Ja,t1,t2,\n",
        "Teilnehmer/in222,x,1,e,s,,\"24,00\",Ja,t1,t2,\n"
    );
    let loaded = read_table(&text);
    assert_eq!(loaded.len(), 1);
    assert_eq!(loaded[0].id, "222");
}
