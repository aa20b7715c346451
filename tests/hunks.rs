use gg::hunk::{apply_hunk_to_base, copy_hunk_content, ChangeHunk, FileRange, HunkError, HunkLocation};

fn hunk(from: (usize, usize), to: (usize, usize), lines: &[&str]) -> ChangeHunk {
    ChangeHunk {
        location: HunkLocation {
            from_file: FileRange { start: from.0, len: from.1 },
            to_file: FileRange { start: to.0, len: to.1 },
        },
        lines: lines.iter().map(|l| l.as_bytes().to_vec()).collect(),
    }
}

#[test]
fn applying_a_deletion_hunk_rebuilds_the_source() {
    // B deleted line 2 of A's two-line file; the patch on A's content gives B's.
    let h = hunk((1, 2), (1, 1), &[" x\n", "-y\n"]);
    let r = apply_hunk_to_base(b"x\ny\n", &h);
    assert_eq!(r.ok().unwrap(), b"x\n".to_vec());
}

#[test]
fn applying_a_modification_keeps_surrounding_lines() {
    let h = hunk((2, 2), (2, 2), &[" b\n", "-c\n", "+C\n"]);
    let r = apply_hunk_to_base(b"a\nb\nc\nd\n", &h);
    assert_eq!(r.ok().unwrap(), b"a\nb\nC\nd\n".to_vec());
}

#[test]
fn applying_keeps_a_missing_final_newline_missing() {
    let h = hunk((1, 1), (1, 2), &[" a\n", "+b"]);
    let r = apply_hunk_to_base(b"a", &h);
    assert_eq!(r.ok().unwrap(), b"a\nb".to_vec());
}

#[test]
fn applying_a_stale_hunk_reports_the_line() {
    let h = hunk((1, 2), (1, 2), &[" x\n", "-q\n", "+z\n"]);
    match apply_hunk_to_base(b"x\ny\n", &h) {
        Err(HunkError::Mismatch { index, expected, found }) => {
            assert_eq!(index, 1);
            assert_eq!(expected, b"q".to_vec());
            assert_eq!(found, Some(b"y".to_vec()));
        }
        _ => panic!("expected a mismatch"),
    }
}

#[test]
fn applying_past_the_end_reports_end_of_file() {
    let h = hunk((2, 2), (2, 1), &[" y\n", "-z\n"]);
    match apply_hunk_to_base(b"x\ny\n", &h) {
        Err(HunkError::Mismatch { index, found, .. }) => {
            assert_eq!(index, 2);
            assert_eq!(found, None);
        }
        _ => panic!("expected a mismatch"),
    }
}

#[test]
fn applying_a_malformed_line_fails() {
    let h = hunk((1, 1), (1, 1), &["?x\n"]);
    match apply_hunk_to_base(b"x\n", &h) {
        Err(HunkError::Malformed { line }) => assert_eq!(line, b"?x\n".to_vec()),
        _ => panic!("expected a malformed line"),
    }
}

#[test]
fn applying_beyond_the_base_is_out_of_bounds() {
    let h = hunk((5, 0), (5, 1), &["+x\n"]);
    match apply_hunk_to_base(b"a\n", &h) {
        Err(e) => {
            assert!(e.is_precondition());
            assert!(matches!(e, HunkError::OutOfBounds { available: 1, start: 5, len: 0 }));
        }
        _ => panic!("expected out of bounds"),
    }
}

#[test]
fn applying_ignores_trailing_whitespace_and_crlf() {
    let h = hunk((1, 2), (1, 2), &[" a  \n", "-b\n", "+B\n"]);
    let r = apply_hunk_to_base(b"a\r\nb\r\n", &h);
    assert_eq!(r.ok().unwrap(), b"a\nB\n".to_vec());
}

#[test]
fn copying_replaces_the_destination_range() {
    // Hunk from old "x\ny\n" to new "x\nz\n"; copy the old range back over the new.
    let h = hunk((1, 2), (1, 2), &[" x\n", "-y\n", "+z\n"]);
    let r = copy_hunk_content(b"x\nz\nw\n", b"x\ny\n", &h);
    assert_eq!(r.ok().unwrap(), Some(b"x\ny\nw\n".to_vec()));
}

#[test]
fn copying_identical_content_is_unchanged() {
    let h = hunk((1, 2), (1, 2), &[" x\n", "+z\n"]);
    let r = copy_hunk_content(b"x\nz\n", b"x\nz\n", &h);
    assert_eq!(r.ok().unwrap(), None);
}

#[test]
fn copying_names_the_first_differing_line() {
    let h = hunk((1, 3), (2, 3), &[" a\n", "+b\n", " c\n"]);
    match copy_hunk_content(b"0\na\nB\nc\n", b"a\nb\nc\n", &h) {
        Err(HunkError::Mismatch { index, expected, found }) => {
            assert_eq!(index, 2);
            assert_eq!(expected, b"b".to_vec());
            assert_eq!(found, Some(b"B".to_vec()));
        }
        _ => panic!("expected a mismatch"),
    }
}

#[test]
fn copying_a_range_beyond_the_destination_is_a_precondition_error() {
    let h = hunk((1, 1), (3, 2), &[" a\n", " b\n"]);
    match copy_hunk_content(b"a\nb\n", b"a\n", &h) {
        Err(e) => {
            assert!(e.is_precondition());
            assert!(matches!(e, HunkError::OutOfBounds { available: 2, start: 3, len: 2 }));
        }
        _ => panic!("expected out of bounds"),
    }
}

#[test]
fn copying_a_range_beyond_the_source_is_a_precondition_error() {
    let h = hunk((2, 3), (1, 1), &[" a\n"]);
    match copy_hunk_content(b"a\n", b"a\nb\n", &h) {
        Err(e) => {
            assert!(e.is_precondition());
            assert!(matches!(e, HunkError::SourceOutOfBounds { available: 2, start: 2, len: 3 }));
        }
        _ => panic!("expected out of bounds"),
    }
}

#[test]
fn copying_with_a_wrong_line_count_fails() {
    let h = hunk((1, 1), (1, 2), &[" a\n"]);
    match copy_hunk_content(b"a\nb\n", b"a\n", &h) {
        Err(e) => {
            assert!(!e.is_precondition());
            assert!(matches!(e, HunkError::CountMismatch { expected: 1, found: 2 }));
        }
        _ => panic!("expected a count mismatch"),
    }
}

#[test]
fn copying_keeps_the_destination_without_final_newline() {
    let h = hunk((1, 1), (1, 1), &["-q\n", "+a"]);
    let r = copy_hunk_content(b"a", b"b\n", &h);
    assert_eq!(r.ok().unwrap(), Some(b"b".to_vec()));
}

#[test]
fn unicode_trailing_whitespace_is_ignored_when_applying() {
    // A base line ending in a no-break space matches a context line without it.
    let h = hunk((1, 2), (1, 2), &[" a\n", "-b\n", "+c\n"]);
    let r = apply_hunk_to_base("a\u{a0}\nb\u{3000}\n".as_bytes(), &h);
    assert_eq!(r.ok().unwrap(), "a\u{a0}\nc\n".as_bytes().to_vec());
}

#[test]
fn unicode_trailing_whitespace_is_ignored_when_copying() {
    let h = hunk((1, 1), (1, 1), &[" a\n"]);
    let r = copy_hunk_content("a\u{a0}\n".as_bytes(), b"z\n", &h);
    assert_eq!(r.ok().unwrap(), Some(b"z\n".to_vec()));
    // Other non-ASCII text is not whitespace.
    let r = copy_hunk_content("a\u{e9}\n".as_bytes(), b"z\n", &h);
    assert!(matches!(r, Err(HunkError::Mismatch { index: 0, .. })));
}
