use linediff::hash_changed;
use linediff::split_lines;
use linediff::Interner;

#[test]
fn unique_id_is_stable_and_dense() {
    let mut interner = Interner::new();
    let x = "x".to_string();
    let y = "y".to_string();
    assert_eq!(interner.unique_id(&x), 0);
    assert_eq!(interner.unique_id(&y), 1);
    assert_eq!(interner.unique_id(&x), 0);
    assert_eq!(interner.unique_id(&y), 1);
    assert_eq!(interner.unique_id(&"z".to_string()), 2);
}

#[test]
fn contents_reverses_identities_in_order() {
    let mut interner = Interner::new();
    let a = interner.unique_id(&"alpha".to_string());
    let b = interner.unique_id(&"beta".to_string());
    let ids = vec![b, a, b];
    let contents = interner.contents(&ids, 0, 3);
    assert_eq!(contents, vec!["beta".to_string(), "alpha".to_string(), "beta".to_string()]);
    let middle = interner.contents(&ids, 1, 2);
    assert_eq!(middle, vec!["alpha".to_string()]);
}

#[test]
fn intern_all_assigns_first_occurrence_indices() {
    let mut interner = Interner::new();
    let lines = split_lines("a\nb\na\nc\nb");
    let ids = interner.intern_all(&lines);
    assert_eq!(ids, vec![0, 1, 0, 2, 1]);
}

#[test]
fn hash_changed_none_only_for_two_empties() {
    assert!(hash_changed(&Vec::new(), &Vec::new()).is_none());
    assert!(hash_changed(&split_lines("a"), &Vec::new()).is_some());
    assert!(hash_changed(&Vec::new(), &split_lines("a")).is_some());
}

#[test]
fn hash_changed_trims_safe_affixes() {
    let old = split_lines("a\nb\nx\ny\nc\nd");
    let new = split_lines("a\nb\nz\nw\nq\nc\nd");
    let h = hash_changed(&old, &new).unwrap();
    assert_eq!(h.trimmed_prefix, 2);
    assert_eq!(h.trimmed_suffix, 2);
    assert_eq!(h.changed_old.len(), 6);
    assert_eq!(h.changed_new.len(), 7);
    // identities are shared across the two sequences
    assert_eq!(h.changed_old[0], h.changed_new[0]);
    assert_eq!(h.changed_old[5], h.changed_new[6]);
}

#[test]
fn hash_changed_refuses_overlapping_trim() {
    // prefix "a b a" and suffix "b a" overlap: nothing may be trimmed
    let old = split_lines("a\nb\na");
    let new = split_lines("a\nb\na\nb\na");
    let h = hash_changed(&old, &new).unwrap();
    // the prefix consumes all of old, so the whole prefix is taken and
    // there is no suffix trim
    assert_eq!(h.trimmed_prefix, 3);
    assert_eq!(h.trimmed_suffix, 0);
}

#[test]
fn hash_changed_full_window_on_tight_overlap() {
    let old = split_lines("a\nx\nc");
    let new = split_lines("a\ny\nc");
    let h = hash_changed(&old, &new).unwrap();
    assert_eq!(h.trimmed_prefix, 0);
    assert_eq!(h.trimmed_suffix, 0);
}

#[test]
fn myers_diff_vec_on_hashed() {
    let old = split_lines("a\nb");
    let new = split_lines("a\nc");
    let h = hash_changed(&old, &new).unwrap();
    let changes = h.myers_diff_vec().unwrap();
    assert!(!changes.is_empty());
}
