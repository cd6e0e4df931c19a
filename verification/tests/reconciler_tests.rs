use facet_core::codec::FacetKind;
use facet_core::reconciler::{DelAddFacetValue, FacetOp};

fn string_entry(dafv: &mut DelAddFacetValue, add: bool, fid: u16, value: &str) {
    if add {
        dafv.insert_add(fid, value.as_bytes().to_vec(), FacetKind::String);
    } else {
        dafv.insert_del(fid, value.as_bytes().to_vec(), FacetKind::String);
    }
}

#[test]
fn matched_del_add_pair_sends_nothing() {
    let mut dafv = DelAddFacetValue::new();
    string_entry(&mut dafv, false, 3, "red");
    string_entry(&mut dafv, true, 3, "red");
    assert!(dafv.send_data(7).is_empty());

    let mut dafv = DelAddFacetValue::new();
    string_entry(&mut dafv, true, 3, "red");
    string_entry(&mut dafv, false, 3, "red");
    assert!(dafv.send_data(7).is_empty());
}

#[test]
fn pairs_cancel_per_key_across_interleavings() {
    let mut dafv = DelAddFacetValue::new();
    string_entry(&mut dafv, false, 1, "a");
    string_entry(&mut dafv, false, 2, "b");
    string_entry(&mut dafv, true, 2, "b");
    string_entry(&mut dafv, true, 1, "a");
    assert!(dafv.send_data(9).is_empty());
}

#[test]
fn repeated_insert_add_is_idempotent_on_a_fresh_key() {
    let mut once = DelAddFacetValue::new();
    string_entry(&mut once, true, 3, "red");
    let mut twice = DelAddFacetValue::new();
    string_entry(&mut twice, true, 3, "red");
    string_entry(&mut twice, true, 3, "red");
    let a = once.send_data(7);
    let b = twice.send_data(7);
    assert_eq!(a.len(), 1);
    assert_eq!(b.len(), 1);
    match (&a[0], &b[0]) {
        (
            FacetOp::WriteString { key: k1, original: o1 },
            FacetOp::WriteString { key: k2, original: o2 },
        ) => {
            assert_eq!(k1, k2);
            assert_eq!(o1, o2);
        }
        _ => panic!("expected two write records"),
    }
}

#[test]
fn repeated_insert_del_is_idempotent_on_a_fresh_key() {
    let mut once = DelAddFacetValue::new();
    string_entry(&mut once, false, 3, "red");
    let mut twice = DelAddFacetValue::new();
    string_entry(&mut twice, false, 3, "red");
    string_entry(&mut twice, false, 3, "red");
    assert_eq!(once.send_data(7).len(), 1);
    assert_eq!(twice.send_data(7).len(), 1);
}

#[test]
fn string_records_carry_field_document_and_normalized_value() {
    let mut dafv = DelAddFacetValue::new();
    string_entry(&mut dafv, true, 3, "Red");
    let ops = dafv.send_data(7);
    assert_eq!(ops.len(), 1);
    match &ops[0] {
        FacetOp::WriteString { key, original } => {
            assert_eq!(key.as_slice(), b"\x00\x03\x00\x00\x00\x07red");
            assert_eq!(original.as_slice(), b"Red");
        }
        _ => panic!("expected a write record"),
    }
}

#[test]
fn number_records_carry_the_stored_payload() {
    let bits = 10.0f64.to_bits();
    let payload = facet_core::ordered_f64::encode_ordered_f64(bits).unwrap();
    let mut dafv = DelAddFacetValue::new();
    dafv.insert_del(5, payload.clone(), FacetKind::Number);
    let ops = dafv.send_data(1);
    assert_eq!(ops.len(), 1);
    match &ops[0] {
        FacetOp::DeleteF64 { key } => {
            let mut expected = vec![0u8, 5, 0, 0, 0, 1];
            expected.extend_from_slice(&payload);
            assert_eq!(key, &expected);
        }
        _ => panic!("expected a delete record"),
    }
}

#[test]
fn invalid_utf8_values_are_skipped_on_flush() {
    let mut dafv = DelAddFacetValue::new();
    dafv.insert_add(3, vec![0xff, 0xfe], FacetKind::String);
    assert!(dafv.send_data(7).is_empty());
}

#[test]
fn exists_null_empty_kinds_are_not_reconciled() {
    let mut dafv = DelAddFacetValue::new();
    dafv.insert_add(3, b"x".to_vec(), FacetKind::Exists);
    dafv.insert_add(3, b"x".to_vec(), FacetKind::Null);
    dafv.insert_add(3, b"x".to_vec(), FacetKind::Empty);
    assert!(dafv.send_data(7).is_empty());
}
