use gg::diff::{
    change_kind, contents_for_diff, get_unified_hunks, unified_diff_hunks, ChangeKind, DiffLineType, DiffRegion, DiffTokenType,
    UnifiedDiffHunk, UnifiedDiffOptions,
};
use gg::hunk::{ChangeHunk, FileRange, HunkLocation};

fn text_lines(h: &ChangeHunk) -> Vec<String> {
    h.lines.iter().map(|l| String::from_utf8(l.clone()).unwrap()).collect()
}

/// Replays hunks on `left`: lines outside hunks are copied, context and added
/// lines are emitted, removed lines are skipped.
fn replay(left: &[u8], hunks: &[ChangeHunk]) -> Vec<u8> {
    let left_lines: Vec<&[u8]> = left.split_inclusive(|b| *b == b'\n').collect();
    let mut out = Vec::new();
    let mut pos = 0;
    for h in hunks {
        let start = h.location.from_file.start - 1;
        while pos < start {
            out.extend_from_slice(left_lines[pos]);
            pos += 1;
        }
        for l in &h.lines {
            match l[0] {
                b' ' => {
                    out.extend_from_slice(&l[1..]);
                    pos += 1;
                }
                b'-' => pos += 1,
                b'+' => out.extend_from_slice(&l[1..]),
                _ => panic!("bad tag"),
            }
        }
    }
    while pos < left_lines.len() {
        out.extend_from_slice(left_lines[pos]);
        pos += 1;
    }
    out
}

#[test]
fn modified_second_line() {
    let hunks = get_unified_hunks(3, b"x\ny\n", b"x\nz\n");
    assert_eq!(hunks.len(), 1);
    assert_eq!(
        hunks[0].location,
        HunkLocation { from_file: FileRange { start: 1, len: 2 }, to_file: FileRange { start: 1, len: 2 } }
    );
    assert_eq!(text_lines(&hunks[0]), vec![" x\n", "-y\n", "+z\n"]);
}

#[test]
fn identical_buffers_have_no_hunks() {
    for ctx in [0usize, 1, 3, 10] {
        assert!(get_unified_hunks(ctx, b"", b"").is_empty());
        assert!(get_unified_hunks(ctx, b"a\nb\nc\n", b"a\nb\nc\n").is_empty());
        assert!(get_unified_hunks(ctx, b"no newline", b"no newline").is_empty());
    }
}

#[test]
fn distant_changes_make_separate_hunks() {
    let left = b"1\n2\n3\n4\n5\n6\n7\n8\n9\n10\n";
    let right = b"one\n2\n3\n4\n5\n6\n7\n8\n9\nten\n";
    let hunks = get_unified_hunks(2, left, right);
    assert_eq!(hunks.len(), 2);
    assert_eq!(text_lines(&hunks[0]), vec!["-1\n", "+one\n", " 2\n", " 3\n"]);
    assert_eq!(hunks[0].location.from_file, FileRange { start: 1, len: 3 });
    assert_eq!(text_lines(&hunks[1]), vec![" 8\n", " 9\n", "-10\n", "+ten\n"]);
    assert_eq!(hunks[1].location.from_file, FileRange { start: 8, len: 3 });
    assert_eq!(hunks[1].location.to_file, FileRange { start: 8, len: 3 });
    assert_eq!(replay(left, &hunks), right.to_vec());
}

#[test]
fn close_changes_merge_into_one_hunk() {
    let left = b"a\nb\nc\nd\ne\n";
    let right = b"A\nb\nc\nd\nE\n";
    let hunks = get_unified_hunks(2, left, right);
    assert_eq!(hunks.len(), 1);
    assert_eq!(text_lines(&hunks[0]), vec!["-a\n", "+A\n", " b\n", " c\n", " d\n", "-e\n", "+E\n"]);
    assert_eq!(replay(left, &hunks), right.to_vec());
}

#[test]
fn added_and_deleted_files() {
    let added = get_unified_hunks(3, b"", b"new\nfile\n");
    assert_eq!(added.len(), 1);
    assert_eq!(text_lines(&added[0]), vec!["+new\n", "+file\n"]);
    assert_eq!(added[0].location.to_file, FileRange { start: 1, len: 2 });
    assert_eq!(added[0].location.from_file, FileRange { start: 1, len: 0 });
    let deleted = get_unified_hunks(3, b"old\n", b"");
    assert_eq!(text_lines(&deleted[0]), vec!["-old\n"]);
}

#[test]
fn round_trip_reconstructs_right_side() {
    let cases: [(&[u8], &[u8]); 4] = [
        (b"a\nb\nc\n", b"a\nc\nd\n"),
        (b"one\ntwo\nthree\nfour\nfive\nsix\nseven\n", b"zero\none\ntwo\n3\nfour\nfive\nsix\nseven\neight\n"),
        (b"no final newline", b"no final newline\nnow\n"),
        (b"x\n", b"y"),
    ];
    for (left, right) in cases {
        for ctx in [0usize, 1, 3] {
            let hunks = get_unified_hunks(ctx, left, right);
            assert_eq!(replay(left, &hunks), right.to_vec());
        }
    }
}

#[test]
fn zero_context_keeps_only_changed_lines() {
    let hunks = get_unified_hunks(0, b"a\nb\nc\n", b"a\nB\nc\n");
    assert_eq!(hunks.len(), 1);
    assert_eq!(text_lines(&hunks[0]), vec!["-b\n", "+B\n"]);
    assert_eq!(hunks[0].location.from_file, FileRange { start: 2, len: 1 });
}

#[test]
fn binary_content_is_replaced_by_a_marker() {
    assert_eq!(contents_for_diff(b"ab\0cd".to_vec()), b"(binary)".to_vec());
    assert_eq!(contents_for_diff(b"text\n".to_vec()), b"text\n".to_vec());
    let mut late_nul = vec![b'a'; 8000];
    late_nul.push(0);
    assert_eq!(contents_for_diff(late_nul.clone()), late_nul);
    let mut early_nul = vec![b'a'; 7999];
    early_nul.push(0);
    assert_eq!(contents_for_diff(early_nul), b"(binary)".to_vec());
}

#[test]
fn changed_lines_are_split_into_matching_and_different_words() {
    let regions = vec![DiffRegion { matching: false, left: b"hello world\n".to_vec(), right: b"hello there\n".to_vec() }];
    let hunks = unified_diff_hunks(&regions, &UnifiedDiffOptions { context: 3 });
    assert_eq!(hunks.len(), 1);
    assert_eq!(hunks[0].left_line_range, 1..2);
    assert_eq!(hunks[0].right_line_range, 1..2);
    assert_eq!(hunks[0].lines.len(), 2);
    let (removed_type, removed) = &hunks[0].lines[0];
    let (added_type, added) = &hunks[0].lines[1];
    assert_eq!(*removed_type, DiffLineType::Removed);
    assert_eq!(*added_type, DiffLineType::Added);
    let removed_text: Vec<u8> = removed.iter().flat_map(|t| t.1.clone()).collect();
    let added_text: Vec<u8> = added.iter().flat_map(|t| t.1.clone()).collect();
    assert_eq!(removed_text, b"hello world\n".to_vec());
    assert_eq!(added_text, b"hello there\n".to_vec());
    assert!(removed.iter().any(|t| t.0 == DiffTokenType::Matching));
    assert!(removed.iter().any(|t| t.0 == DiffTokenType::Different && t.1 == b"world".to_vec()));
    assert!(added.iter().any(|t| t.0 == DiffTokenType::Different && t.1 == b"there".to_vec()));
}

#[test]
fn context_lines_extend_both_ranges() {
    let mut h = UnifiedDiffHunk { left_line_range: 3..3, right_line_range: 5..5, lines: Vec::new() };
    h.extend_context_lines(vec![b"a\n".to_vec(), b"b\n".to_vec()]);
    assert_eq!(h.left_line_range, 3..5);
    assert_eq!(h.right_line_range, 5..7);
    h.extend_removed_lines(vec![vec![(DiffTokenType::Different, b"c\n".to_vec())]]);
    assert_eq!(h.left_line_range, 3..6);
    assert_eq!(h.right_line_range, 5..7);
    h.extend_added_lines(vec![vec![(DiffTokenType::Different, b"d\n".to_vec())], vec![(DiffTokenType::Different, b"e\n".to_vec())]]);
    assert_eq!(h.left_line_range, 3..6);
    assert_eq!(h.right_line_range, 5..9);
    assert_eq!(h.lines.len(), 5);
}

#[test]
fn context_lines_are_single_matching_tokens() {
    let mut h = UnifiedDiffHunk { left_line_range: 1..1, right_line_range: 1..1, lines: Vec::new() };
    h.extend_context_lines(vec![b"a\n".to_vec()]);
    assert_eq!(h.lines[0].0, DiffLineType::Context);
    assert_eq!(h.lines[0].1, vec![(DiffTokenType::Matching, b"a\n".to_vec())]);
}

#[test]
fn change_kinds() {
    assert_eq!(change_kind(true, true), ChangeKind::Modified);
    assert_eq!(change_kind(false, true), ChangeKind::Added);
    assert_eq!(change_kind(true, false), ChangeKind::Deleted);
}
