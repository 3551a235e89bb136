use tutors::scan::calculate_deduction;

fn ded(text: &str) -> u64 {
    calculate_deduction(&text.as_bytes().to_vec())
}

#[test]
fn scanner_single_marker() {
    assert_eq!(ded("int x; // Tutor: -2.5\n"), 25);
}

#[test]
fn scanner_sums_all_markers() {
    let text = "// Tutor: -2.5\ncode\n// Tutor: 1\n// Tutor: 0.5\n";
    assert_eq!(ded(text), 25 + 10 + 5);
}

#[test]
fn scanner_ignores_sign() {
    assert_eq!(ded("// Tutor: -3\n"), ded("// Tutor: 3\n"));
}

#[test]
fn scanner_unparseable_counts_zero() {
    assert_eq!(ded("// Tutor: oops\n"), 0);
    assert_eq!(ded("// Tutor: \n"), 0);
}

#[test]
fn scanner_no_marker_is_zero() {
    assert_eq!(ded("no comments here\n"), 0);
    assert_eq!(ded(""), 0);
}

#[test]
fn scanner_fraction_only() {
    assert_eq!(ded("// Tutor: .5"), 5);
}

#[test]
fn scanner_second_fraction_digit_not_consumed() {
    // The magnitude grammar takes one digit after the dot; the rest of
    // the line is left alone.
    assert_eq!(ded("// Tutor: 2.55"), 25);
}

#[test]
fn scanner_two_markers_one_line() {
    assert_eq!(ded("// Tutor: 1 // Tutor: 2\n"), 30);
}
