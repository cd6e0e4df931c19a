use facet_core::cache::BalancedCaches;
use facet_core::document::{Document, FieldIdMap, JsonVal};
use facet_core::extract::{DocumentChange, FacetedDocidsExtractor, FacetedExtractorData};
use facet_core::reconciler::{DelAdd, FacetOp};

fn fresh_cache() -> BalancedCaches {
    BalancedCaches::new(4, 1 << 20)
}

/// Allocates dummy field names so the next fresh attribute receives
/// the wanted id.
fn seed_fields(fields: &mut FieldIdMap, n: u16) {
    for i in 0..n {
        let name = format!("seeded-field-{}", i);
        assert_eq!(fields.id_or_insert(&name), Some(i));
    }
}

fn doc(fields: Vec<(&str, JsonVal)>) -> Document {
    fields.into_iter().map(|(k, v)| (k.to_string(), v)).collect()
}

fn attrs(names: &[&str]) -> Vec<String> {
    names.iter().map(|s| s.to_string()).collect()
}

fn extract(
    cache: &mut BalancedCaches,
    attributes: &Vec<String>,
    fields: &mut FieldIdMap,
    change: DocumentChange,
) -> Vec<FacetOp> {
    let (ops, err) =
        FacetedDocidsExtractor::extract_document_change(cache, attributes, fields, change);
    assert!(err.is_none());
    ops
}

fn number_cache_key(fid: u16, x: f64) -> Vec<u8> {
    let bits = x.to_bits();
    let mapped = if bits & 0x8000_0000_0000_0000 != 0 { !bits } else { bits | 0x8000_0000_0000_0000 };
    let mut key = vec![0u8];
    key.extend_from_slice(&fid.to_be_bytes());
    key.push(0);
    key.extend_from_slice(&mapped.to_be_bytes());
    key.extend_from_slice(&bits.to_be_bytes());
    key
}

fn number_doc_key(fid: u16, docid: u32, x: f64) -> Vec<u8> {
    let bits = x.to_bits();
    let mapped = if bits & 0x8000_0000_0000_0000 != 0 { !bits } else { bits | 0x8000_0000_0000_0000 };
    let mut key = Vec::new();
    key.extend_from_slice(&fid.to_be_bytes());
    key.extend_from_slice(&docid.to_be_bytes());
    key.extend_from_slice(&mapped.to_be_bytes());
    key.extend_from_slice(&bits.to_be_bytes());
    key
}

#[test]
fn insert_with_string_facet() {
    let mut cache = fresh_cache();
    let mut fields = FieldIdMap::new();
    seed_fields(&mut fields, 3);
    let attributes = attrs(&["color"]);
    let change = DocumentChange::Insertion {
        docid: 7,
        inserted: doc(vec![("color", JsonVal::String("Red".to_string()))]),
    };
    let ops = extract(&mut cache, &attributes, &mut fields, change);
    assert_eq!(ops.len(), 1);
    match &ops[0] {
        FacetOp::WriteString { key, original } => {
            assert_eq!(key.as_slice(), b"\x00\x03\x00\x00\x00\x07red");
            assert_eq!(original.as_slice(), b"Red");
        }
        _ => panic!("expected a string write"),
    }
    assert!(cache.contains(&vec![4, 0, 3], 7, DelAdd::Addition));
    let mut string_key = vec![1u8, 0, 3, 0];
    string_key.extend_from_slice(b"red");
    assert!(cache.contains(&string_key, 7, DelAdd::Addition));
}

#[test]
fn delete_with_string_facet() {
    let mut cache = fresh_cache();
    let mut fields = FieldIdMap::new();
    seed_fields(&mut fields, 3);
    let attributes = attrs(&["color"]);
    let change = DocumentChange::Deletion {
        docid: 7,
        current: doc(vec![("color", JsonVal::String("Red".to_string()))]),
    };
    let ops = extract(&mut cache, &attributes, &mut fields, change);
    assert_eq!(ops.len(), 1);
    match &ops[0] {
        FacetOp::DeleteString { key } => {
            assert_eq!(key.as_slice(), b"\x00\x03\x00\x00\x00\x07red");
        }
        _ => panic!("expected a string delete"),
    }
    assert!(cache.contains(&vec![4, 0, 3], 7, DelAdd::Deletion));
    let mut string_key = vec![1u8, 0, 3, 0];
    string_key.extend_from_slice(b"red");
    assert!(cache.contains(&string_key, 7, DelAdd::Deletion));
}

#[test]
fn noop_update_sends_nothing_and_balances_the_cache() {
    let mut cache = fresh_cache();
    let mut fields = FieldIdMap::new();
    seed_fields(&mut fields, 5);
    let attributes = attrs(&["price"]);
    let change = DocumentChange::Update {
        docid: 1,
        current: doc(vec![("price", JsonVal::Number(10.0f64.to_bits()))]),
        merged: doc(vec![("price", JsonVal::Number(10.0f64.to_bits()))]),
    };
    let ops = extract(&mut cache, &attributes, &mut fields, change);
    assert!(ops.is_empty());
    assert!(cache.contains(&vec![4, 0, 5], 1, DelAdd::Deletion));
    assert!(cache.contains(&vec![4, 0, 5], 1, DelAdd::Addition));
    let nk = number_cache_key(5, 10.0);
    assert!(cache.contains(&nk, 1, DelAdd::Deletion));
    assert!(cache.contains(&nk, 1, DelAdd::Addition));
}

#[test]
fn changing_update_sends_the_delta() {
    let mut cache = fresh_cache();
    let mut fields = FieldIdMap::new();
    seed_fields(&mut fields, 5);
    let attributes = attrs(&["price"]);
    let change = DocumentChange::Update {
        docid: 1,
        current: doc(vec![("price", JsonVal::Number(10.0f64.to_bits()))]),
        merged: doc(vec![("price", JsonVal::Number(20.0f64.to_bits()))]),
    };
    let ops = extract(&mut cache, &attributes, &mut fields, change);
    assert_eq!(ops.len(), 2);
    match &ops[0] {
        FacetOp::DeleteF64 { key } => assert_eq!(key, &number_doc_key(5, 1, 10.0)),
        _ => panic!("expected a number delete first"),
    }
    match &ops[1] {
        FacetOp::WriteF64 { key } => assert_eq!(key, &number_doc_key(5, 1, 20.0)),
        _ => panic!("expected a number write second"),
    }
    assert!(cache.contains(&vec![4, 0, 5], 1, DelAdd::Deletion));
    assert!(cache.contains(&vec![4, 0, 5], 1, DelAdd::Addition));
    assert!(cache.contains(&number_cache_key(5, 10.0), 1, DelAdd::Deletion));
    assert!(!cache.contains(&number_cache_key(5, 10.0), 1, DelAdd::Addition));
    assert!(cache.contains(&number_cache_key(5, 20.0), 1, DelAdd::Addition));
    assert!(!cache.contains(&number_cache_key(5, 20.0), 1, DelAdd::Deletion));
}

#[test]
fn empty_array_records_the_empty_tag_only() {
    let mut cache = fresh_cache();
    let mut fields = FieldIdMap::new();
    seed_fields(&mut fields, 9);
    let attributes = attrs(&["tags"]);
    let change = DocumentChange::Insertion {
        docid: 2,
        inserted: doc(vec![("tags", JsonVal::Array(Vec::new()))]),
    };
    let ops = extract(&mut cache, &attributes, &mut fields, change);
    assert!(ops.is_empty());
    assert!(cache.contains(&vec![3, 0, 9], 2, DelAdd::Addition));
    assert!(cache.contains(&vec![4, 0, 9], 2, DelAdd::Addition));
    assert!(!cache.contains(&vec![2, 0, 9], 2, DelAdd::Addition));
}

#[test]
fn null_records_null_and_exists() {
    let mut cache = fresh_cache();
    let mut fields = FieldIdMap::new();
    seed_fields(&mut fields, 4);
    let attributes = attrs(&["v"]);
    let change =
        DocumentChange::Insertion { docid: 3, inserted: doc(vec![("v", JsonVal::Null)]) };
    let ops = extract(&mut cache, &attributes, &mut fields, change);
    assert!(ops.is_empty());
    assert!(cache.contains(&vec![2, 0, 4], 3, DelAdd::Addition));
    assert!(cache.contains(&vec![4, 0, 4], 3, DelAdd::Addition));
}

#[test]
fn non_finite_numbers_record_exists_only() {
    let mut cache = fresh_cache();
    let mut fields = FieldIdMap::new();
    let attributes = attrs(&["x"]);
    let change = DocumentChange::Insertion {
        docid: 3,
        inserted: doc(vec![("x", JsonVal::Number(f64::NAN.to_bits()))]),
    };
    let ops = extract(&mut cache, &attributes, &mut fields, change);
    assert!(ops.is_empty());
    assert!(cache.contains(&vec![4, 0, 0], 3, DelAdd::Addition));
    assert!(!cache.contains(&number_cache_key(0, f64::NAN), 3, DelAdd::Addition));
}

#[test]
fn arrays_spread_and_the_reconciler_deduplicates_pairs() {
    let mut cache = fresh_cache();
    let mut fields = FieldIdMap::new();
    let attributes = attrs(&["tags"]);
    let change = DocumentChange::Update {
        docid: 4,
        current: doc(vec![(
            "tags",
            JsonVal::Array(vec![
                JsonVal::String("a".to_string()),
                JsonVal::String("b".to_string()),
            ]),
        )]),
        merged: doc(vec![(
            "tags",
            JsonVal::Array(vec![
                JsonVal::String("b".to_string()),
                JsonVal::String("c".to_string()),
            ]),
        )]),
    };
    let ops = extract(&mut cache, &attributes, &mut fields, change);
    // "b" cancels; "a" is deleted and "c" written
    assert_eq!(ops.len(), 2);
    let mut deletes = 0;
    let mut writes = 0;
    for op in &ops {
        match op {
            FacetOp::DeleteString { key } => {
                deletes += 1;
                assert_eq!(key.as_slice(), b"\x00\x00\x00\x00\x00\x04a");
            }
            FacetOp::WriteString { key, original } => {
                writes += 1;
                assert_eq!(key.as_slice(), b"\x00\x00\x00\x00\x00\x04c");
                assert_eq!(original.as_slice(), b"c");
            }
            _ => panic!("unexpected record"),
        }
    }
    assert_eq!((deletes, writes), (1, 1));
}

#[test]
fn nested_attributes_resolve_one_level_by_dotted_name() {
    let mut cache = fresh_cache();
    let mut fields = FieldIdMap::new();
    let attributes = attrs(&["spec.color"]);
    let inner = vec![("color".to_string(), JsonVal::String("Blue".to_string()))];
    let change = DocumentChange::Insertion {
        docid: 5,
        inserted: doc(vec![("spec", JsonVal::Object(inner))]),
    };
    let ops = extract(&mut cache, &attributes, &mut fields, change);
    assert_eq!(ops.len(), 1);
    assert_eq!(fields.id_or_insert(&"spec.color".to_string()), Some(0));
    let mut string_key = vec![1u8, 0, 0, 0];
    string_key.extend_from_slice(b"blue");
    assert!(cache.contains(&string_key, 5, DelAdd::Addition));
}

#[test]
fn booleans_record_exists_only() {
    let mut cache = fresh_cache();
    let mut fields = FieldIdMap::new();
    let attributes = attrs(&["flag"]);
    let change = DocumentChange::Insertion {
        docid: 6,
        inserted: doc(vec![("flag", JsonVal::Bool(true))]),
    };
    let ops = extract(&mut cache, &attributes, &mut fields, change);
    assert!(ops.is_empty());
    assert!(cache.contains(&vec![4, 0, 0], 6, DelAdd::Addition));
}

#[test]
fn unmatched_attributes_are_ignored() {
    let mut cache = fresh_cache();
    let mut fields = FieldIdMap::new();
    let attributes = attrs(&["color"]);
    let change = DocumentChange::Insertion {
        docid: 8,
        inserted: doc(vec![("size", JsonVal::String("L".to_string()))]),
    };
    let ops = extract(&mut cache, &attributes, &mut fields, change);
    assert!(ops.is_empty());
    assert_eq!(fields.id_or_insert(&"size".to_string()), Some(0));
}

#[test]
fn run_extraction_returns_one_cache_per_worker() {
    let extractor = FacetedExtractorData {
        attributes_to_extract: attrs(&["color"]),
        buckets: 3,
        max_memory_by_thread: 1 << 16,
    };
    let mut fields = FieldIdMap::new();
    let changes = vec![
        DocumentChange::Insertion {
            docid: 1,
            inserted: doc(vec![("color", JsonVal::String("Red".to_string()))]),
        },
        DocumentChange::Insertion {
            docid: 2,
            inserted: doc(vec![("color", JsonVal::String("Blue".to_string()))]),
        },
        DocumentChange::Insertion {
            docid: 3,
            inserted: doc(vec![("color", JsonVal::String("Red".to_string()))]),
        },
    ];
    let (caches, ops, err) =
        FacetedDocidsExtractor::run_extraction(&extractor, changes, &mut fields);
    assert!(err.is_none());
    assert_eq!(caches.len(), 3);
    assert_eq!(ops.len(), 3);
    // round-robin: change i lands in worker i % 3
    assert!(caches[0].contains(&vec![4, 0, 0], 1, DelAdd::Addition));
    assert!(caches[1].contains(&vec![4, 0, 0], 2, DelAdd::Addition));
    assert!(caches[2].contains(&vec![4, 0, 0], 3, DelAdd::Addition));
    assert!(!caches[0].contains(&vec![4, 0, 0], 2, DelAdd::Addition));
}

#[test]
fn process_runs_changes_in_order_against_one_cache() {
    let extractor = FacetedExtractorData {
        attributes_to_extract: attrs(&["color"]),
        buckets: 1,
        max_memory_by_thread: 1 << 16,
    };
    let mut fields = FieldIdMap::new();
    let mut cache = extractor.init_data();
    let changes = vec![
        DocumentChange::Insertion {
            docid: 7,
            inserted: doc(vec![("color", JsonVal::String("Red".to_string()))]),
        },
        DocumentChange::Deletion {
            docid: 7,
            current: doc(vec![("color", JsonVal::String("Red".to_string()))]),
        },
    ];
    let (ops, err) = extractor.process(changes, &mut fields, &mut cache);
    assert!(err.is_none());
    assert_eq!(ops.len(), 2);
    assert!(matches!(ops[0], FacetOp::WriteString { .. }));
    assert!(matches!(ops[1], FacetOp::DeleteString { .. }));
    assert!(cache.contains(&vec![4, 0, 0], 7, DelAdd::Addition));
    assert!(cache.contains(&vec![4, 0, 0], 7, DelAdd::Deletion));
}

#[test]
fn field_id_exhaustion_is_reported() {
    let mut fields = FieldIdMap::new();
    for i in 0..65536u32 {
        let name = format!("field-{}", i);
        assert!(fields.id_or_insert(&name).is_some());
    }
    assert_eq!(fields.id_or_insert(&"one-too-many".to_string()), None);

    let mut cache = fresh_cache();
    let attributes = attrs(&["one-too-many"]);
    let change = DocumentChange::Insertion {
        docid: 1,
        inserted: doc(vec![("one-too-many", JsonVal::Null)]),
    };
    let (ops, err) =
        FacetedDocidsExtractor::extract_document_change(&mut cache, &attributes, &mut fields, change);
    assert!(ops.is_empty());
    assert!(err.is_some());
}
