use facet_core::vector_merge::merge_keyed_entries;

fn entry(name: &str, v: u32) -> (Vec<u8>, u32) {
    (name.as_bytes().to_vec(), v)
}

#[test]
fn new_entries_shadow_stored_ones() {
    let new_doc = vec![entry("default", 1), entry("extra", 2)];
    let db = vec![entry("default", 10), entry("old", 11)];
    let merged = merge_keyed_entries(new_doc, db);
    assert_eq!(merged, vec![entry("default", 1), entry("extra", 2), entry("old", 11)]);
}

#[test]
fn empty_sides_merge_plainly() {
    let merged = merge_keyed_entries(Vec::new(), vec![entry("a", 1)]);
    assert_eq!(merged, vec![entry("a", 1)]);
    let merged = merge_keyed_entries(vec![entry("a", 1)], Vec::new());
    assert_eq!(merged, vec![entry("a", 1)]);
    let merged: Vec<(Vec<u8>, u32)> = merge_keyed_entries(Vec::new(), Vec::new());
    assert!(merged.is_empty());
}

#[test]
fn stored_order_is_kept_for_unshadowed_names() {
    let new_doc = vec![entry("b", 1)];
    let db = vec![entry("c", 2), entry("b", 3), entry("a", 4)];
    let merged = merge_keyed_entries(new_doc, db);
    assert_eq!(merged, vec![entry("b", 1), entry("c", 2), entry("a", 4)]);
}
