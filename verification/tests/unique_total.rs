use durt::{calculate_unique_total_size, Entry};

/// An entry whose path canonicalized into its components.
fn entry(path: &str, size: u64) -> Entry {
    Entry {
        path: path.to_string(),
        canonical: Some(path.split('/').map(|c| c.to_string()).collect()),
        size,
        filesystem_id: 0,
    }
}

/// An entry whose path could not be canonicalized.
fn entry_without_canonical(path: &str, size: u64) -> Entry {
    Entry {
        path: path.to_string(),
        canonical: None,
        size,
        filesystem_id: 0,
    }
}

#[test]
fn empty_list_totals_zero() {
    let entries: Vec<Entry> = vec![];
    assert_eq!(calculate_unique_total_size(&entries), 0);
}

#[test]
fn single_entry_totals_its_size() {
    let entries = vec![entry("a", 42)];
    assert_eq!(calculate_unique_total_size(&entries), 42);
}

#[test]
fn non_overlapping_entries_total_plain_sum() {
    let entries = vec![entry("a", 1), entry("b", 2), entry("c/d", 3)];
    assert_eq!(calculate_unique_total_size(&entries), 6);
}

#[test]
fn nested_file_after_directory_is_shadowed() {
    let entries = vec![entry("a", 100), entry("a/b", 40)];
    assert_eq!(calculate_unique_total_size(&entries), 100);
}

#[test]
fn directory_after_nested_file_absorbs_it() {
    let entries = vec![entry("a/b", 40), entry("a", 100)];
    assert_eq!(calculate_unique_total_size(&entries), 100);
}

#[test]
fn both_insertion_orders_yield_ancestor_size() {
    let ancestor_first = vec![entry("d", 7), entry("d/e/f", 3)];
    let descendant_first = vec![entry("d/e/f", 3), entry("d", 7)];
    assert_eq!(calculate_unique_total_size(&ancestor_first), 7);
    assert_eq!(calculate_unique_total_size(&descendant_first), 7);
}

#[test]
fn overlapping_and_disjoint_entries() {
    let entries = vec![entry("a", 100), entry("a/b", 40), entry("c", 10)];
    assert_eq!(calculate_unique_total_size(&entries), 110);
}

#[test]
fn duplicate_path_counts_once_first_size_wins() {
    let entries = vec![entry("a", 100), entry("a", 40)];
    assert_eq!(calculate_unique_total_size(&entries), 100);
}

#[test]
fn absorbing_chain_keeps_outermost_only() {
    let entries = vec![entry("a/b/c", 5), entry("a/b", 7), entry("a", 9)];
    assert_eq!(calculate_unique_total_size(&entries), 9);
}

#[test]
fn siblings_under_one_directory_both_count() {
    let entries = vec![entry("a/b", 5), entry("a/c", 7)];
    assert_eq!(calculate_unique_total_size(&entries), 12);
}

#[test]
fn entry_inserted_after_absorption_is_shadowed() {
    let entries = vec![entry("a/b", 5), entry("a", 7), entry("a/x", 3)];
    assert_eq!(calculate_unique_total_size(&entries), 7);
}

#[test]
fn component_names_must_match_exactly() {
    // "ab" is not inside "a": component equality, not string-prefix matching.
    let entries = vec![entry("a", 5), entry("ab", 7), entry("a/b", 11)];
    assert_eq!(calculate_unique_total_size(&entries), 12);
}

#[test]
fn absolute_canonical_components_overlap_as_usual() {
    // Canonical paths as a caller would produce them from the filesystem:
    // a root component followed by the directory names.
    let home = Entry {
        path: "~".to_string(),
        canonical: Some(vec!["/".to_string(), "home".to_string()]),
        size: 500,
        filesystem_id: 1,
    };
    let nested = Entry {
        path: "notes.txt".to_string(),
        canonical: Some(vec![
            "/".to_string(),
            "home".to_string(),
            "notes.txt".to_string(),
        ]),
        size: 30,
        filesystem_id: 1,
    };
    let other = Entry {
        path: "/var".to_string(),
        canonical: Some(vec!["/".to_string(), "var".to_string()]),
        size: 70,
        filesystem_id: 1,
    };
    let entries = vec![home, nested, other];
    assert_eq!(calculate_unique_total_size(&entries), 570);
}

#[test]
fn entry_without_canonical_path_contributes_nothing() {
    let entries = vec![entry("a", 100), entry_without_canonical("b", 50)];
    assert_eq!(calculate_unique_total_size(&entries), 100);
}

#[test]
fn only_uncanonicalized_entries_total_zero() {
    let entries = vec![entry_without_canonical("a", 50)];
    assert_eq!(calculate_unique_total_size(&entries), 0);
}

#[test]
fn repeated_calls_on_same_entries_agree() {
    let entries = vec![entry("a/b", 40), entry("a", 100), entry("c", 1)];
    let first = calculate_unique_total_size(&entries);
    let second = calculate_unique_total_size(&entries);
    assert_eq!(first, second);
    // The entries themselves are untouched.
    assert_eq!(entries.len(), 3);
    assert_eq!(entries[0].path, "a/b");
    assert_eq!(entries[0].size, 40);
    assert_eq!(entries[2].size, 1);
}
