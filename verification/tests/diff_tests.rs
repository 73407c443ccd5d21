use linediff::diff_lines;
use linediff::diff_segments;
use linediff::split_lines;
use linediff::Change;

/// Checks the coverage invariant: the changes walk both sequences in order,
/// partitioning old and new indices exactly, with content lengths matching
/// the declared lengths.
fn check_coverage(changes: &[Change], old_len: usize, new_len: usize) {
    let mut i: usize = 0;
    let mut j: usize = 0;
    for c in changes {
        match c {
            Change::Equal { old_index, new, new_index, len } => {
                assert_eq!(*old_index, i);
                assert_eq!(*new_index, j);
                assert_eq!(new.len(), *len);
                i += *len;
                j += *len;
            }
            Change::Delete { old, old_index, len } => {
                assert_eq!(*old_index, i);
                assert_eq!(old.len(), *len);
                i += *len;
            }
            Change::Insert { old_index, new, new_index, new_len } => {
                assert_eq!(*old_index, i);
                assert_eq!(*new_index, j);
                assert_eq!(new.len(), *new_len);
                j += *new_len;
            }
            Change::Replace { old, old_index, old_len, new, new_index, new_len } => {
                assert_eq!(*old_index, i);
                assert_eq!(*new_index, j);
                assert_eq!(old.len(), *old_len);
                assert_eq!(new.len(), *new_len);
                i += *old_len;
                j += *new_len;
            }
        }
    }
    assert_eq!(i, old_len);
    assert_eq!(j, new_len);
}

/// Replays the change list: keep Equal content, drop Delete, splice in
/// Insert and Replace new content.
fn reconstruct(changes: &[Change]) -> Vec<String> {
    let mut out: Vec<String> = Vec::new();
    for c in changes {
        match c {
            Change::Equal { new, .. } => out.extend(new.iter().cloned()),
            Change::Delete { .. } => {}
            Change::Insert { new, .. } => out.extend(new.iter().cloned()),
            Change::Replace { new, .. } => out.extend(new.iter().cloned()),
        }
    }
    out
}

/// Runs the full battery on one pair: coverage and reconstruction.
fn check_pair(old: &str, new: &str) -> Vec<Change> {
    let changes = diff_lines(old, new).unwrap();
    let old_lines = split_lines(old);
    let new_lines = split_lines(new);
    check_coverage(&changes, old_lines.len(), new_lines.len());
    assert_eq!(reconstruct(&changes), new_lines);
    changes
}

fn owned(strs: &[&str]) -> Vec<String> {
    strs.iter().map(|s| s.to_string()).collect()
}

#[test]
fn identity_single_equal() {
    let changes = check_pair("a\nb\nc", "a\nb\nc");
    assert_eq!(
        changes,
        vec![Change::Equal {
            old_index: 0,
            new: owned(&["a", "b", "c"]),
            new_index: 0,
            len: 3,
        }]
    );
}

#[test]
fn both_empty_gives_empty_list() {
    let changes = diff_lines("", "").unwrap();
    assert_eq!(changes, vec![]);
}

#[test]
fn pure_insertion() {
    let changes = check_pair("", "a\nb");
    assert_eq!(
        changes,
        vec![Change::Insert {
            old_index: 0,
            new: owned(&["a", "b"]),
            new_index: 0,
            new_len: 2,
        }]
    );
}

#[test]
fn pure_deletion() {
    let changes = check_pair("a\nb", "");
    assert_eq!(
        changes,
        vec![Change::Delete {
            old: owned(&["a", "b"]),
            old_index: 0,
            len: 2,
        }]
    );
}

#[test]
fn overlap_no_double_count() {
    // old = "aba", new = "ababa" as line patterns: the matched prefix and
    // suffix overlap; the indices must still partition both sides exactly.
    let changes = check_pair("a\nb\na", "a\nb\na\nb\na");
    let mut old_total: usize = 0;
    let mut new_total: usize = 0;
    for c in &changes {
        match c {
            Change::Equal { len, .. } => {
                old_total += *len;
                new_total += *len;
            }
            Change::Delete { len, .. } => old_total += *len,
            Change::Insert { new_len, .. } => new_total += *new_len,
            Change::Replace { old_len, new_len, .. } => {
                old_total += *old_len;
                new_total += *new_len;
            }
        }
    }
    assert_eq!(old_total, 3);
    assert_eq!(new_total, 5);
    // the common prefix consumes all of old, so this is terminal: one Equal
    // then one Insert
    assert_eq!(
        changes,
        vec![
            Change::Equal {
                old_index: 0,
                new: owned(&["a", "b", "a"]),
                new_index: 0,
                len: 3,
            },
            Change::Insert {
                old_index: 3,
                new: owned(&["b", "a"]),
                new_index: 3,
                new_len: 2,
            },
        ]
    );
}

#[test]
fn prefix_and_suffix_trimmed_middle_replaced() {
    // the middle window [x, y] vs [z, w, q] goes through the engine; the
    // trimmed prefix length must be added back onto every index
    let changes = check_pair("a\nb\nx\ny\nc\nd", "a\nb\nz\nw\nq\nc\nd");
    assert_eq!(
        changes,
        vec![
            Change::Equal {
                old_index: 0,
                new: owned(&["a", "b"]),
                new_index: 0,
                len: 2,
            },
            Change::Replace {
                old: owned(&["x", "y"]),
                old_index: 2,
                old_len: 2,
                new: owned(&["z", "w", "q"]),
                new_index: 2,
                new_len: 3,
            },
            Change::Equal {
                old_index: 4,
                new: owned(&["c", "d"]),
                new_index: 5,
                len: 2,
            },
        ]
    );
}

#[test]
fn suffix_consumes_whole_old_side() {
    // the backward scan exhausts old entirely: terminal insertion in front
    // of a fully matched suffix
    let changes = check_pair("b\na", "x\nb\na");
    assert_eq!(
        changes,
        vec![
            Change::Insert {
                old_index: 0,
                new: owned(&["x"]),
                new_index: 0,
                new_len: 1,
            },
            Change::Equal {
                old_index: 0,
                new: owned(&["b", "a"]),
                new_index: 1,
                len: 2,
            },
        ]
    );
}

#[test]
fn prefix_consumes_whole_new_side() {
    // the forward scan exhausts new entirely: terminal deletion after a
    // fully matched prefix
    let changes = check_pair("a\nb\nc\nd", "a\nb");
    assert_eq!(
        changes,
        vec![
            Change::Equal {
                old_index: 0,
                new: owned(&["a", "b"]),
                new_index: 0,
                len: 2,
            },
            Change::Delete {
                old: owned(&["c", "d"]),
                old_index: 2,
                len: 2,
            },
        ]
    );
}

#[test]
fn full_window_fallback_on_tight_overlap() {
    // prefix 1 + suffix 1 reach each other in a three-line file: nothing is
    // trimmed and the whole sequences go through the engine
    let changes = check_pair("a\nx\nc", "a\ny\nc");
    assert_eq!(
        changes,
        vec![
            Change::Equal {
                old_index: 0,
                new: owned(&["a"]),
                new_index: 0,
                len: 1,
            },
            Change::Replace {
                old: owned(&["x"]),
                old_index: 1,
                old_len: 1,
                new: owned(&["y"]),
                new_index: 1,
                new_len: 1,
            },
            Change::Equal {
                old_index: 2,
                new: owned(&["c"]),
                new_index: 2,
                len: 1,
            },
        ]
    );
}

#[test]
fn repeated_lines_resolved_consistently() {
    // equal-content lines at different positions: coverage and
    // reconstruction must still hold exactly
    check_pair("a\na\nb\na", "a\nb\na\na");
    check_pair("x\nx\nx", "x\nx");
    check_pair("x\nx", "x\nx\nx\nx");
}

#[test]
fn determinism_bit_identical() {
    let old = "a\nb\nx\ny\nc";
    let new = "a\nq\ny\nc";
    let first = diff_lines(old, new).unwrap();
    let second = diff_lines(old, new).unwrap();
    assert_eq!(first, second);
}

#[test]
fn diff_segments_matches_diff_lines() {
    let old_lines = split_lines("a\nb\nc");
    let new_lines = split_lines("a\nc");
    let from_segments = diff_segments(&old_lines, &new_lines).unwrap();
    let from_lines = diff_lines("a\nb\nc", "a\nc").unwrap();
    assert_eq!(from_segments, from_lines);
}

#[test]
fn generated_pairs_cover_and_reconstruct() {
    // a fixed linear congruential generator: the pairs are arbitrary but
    // reproducible
    let mut state: u64 = 0x2545F4914F6CDD1D;
    let mut next = move |bound: usize| {
        state = state
            .wrapping_mul(6364136223846793005)
            .wrapping_add(1442695040888963407);
        ((state >> 33) as usize) % bound
    };
    let alphabet = ["a", "b", "c", "d"];
    for _ in 0..50 {
        let old_len = next(12);
        let new_len = next(12);
        let old: Vec<String> = (0..old_len).map(|_| alphabet[next(4)].to_string()).collect();
        let new: Vec<String> = (0..new_len).map(|_| alphabet[next(4)].to_string()).collect();
        let changes = diff_segments(&old, &new).unwrap();
        check_coverage(&changes, old.len(), new.len());
        assert_eq!(reconstruct(&changes), new);
    }
}

#[test]
fn assorted_pairs_cover_and_reconstruct() {
    let cases: Vec<(&str, &str)> = vec![
        ("", "a"),
        ("a", ""),
        ("a", "a"),
        ("a", "b"),
        ("a\nb\nc", "c\nb\na"),
        ("one\ntwo\nthree\nfour", "one\nthree\nfour\nfive"),
        ("x\na\nb\nc", "a\nb\nc\ny"),
        ("a\nb\na\nb\na\nb", "b\na\nb\na"),
        ("same\nsame\nsame", "same\nother\nsame"),
    ];
    for (old, new) in cases {
        check_pair(old, new);
    }
}
