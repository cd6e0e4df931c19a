use facet_core::store_keys::{document_key, extract_document_key, index_name, ByteCursor};

#[test]
fn index_names_carry_the_prefix() {
    assert_eq!(index_name("hello"), b"index-hello".to_vec());
    assert_eq!(index_name(""), b"index-".to_vec());
}

#[test]
fn document_keys_round_trip() {
    for (id, attr) in [(0u64, 0u16), (7, 3), (u64::MAX, u16::MAX), (0x0102030405060708, 0x0a0b)] {
        let key = document_key(id, attr);
        assert_eq!(key.len(), 19);
        assert_eq!(extract_document_key(key), Some((id, attr)));
    }
}

#[test]
fn document_key_layout_is_prefix_id_attr() {
    let key = document_key(0x0102030405060708, 0x0a0b);
    let mut expected = b"document-".to_vec();
    expected.extend_from_slice(&[1, 2, 3, 4, 5, 6, 7, 8, 0x0a, 0x0b]);
    assert_eq!(key, expected);
}

#[test]
fn foreign_keys_are_rejected() {
    assert_eq!(extract_document_key(b"documenty\0\0\0\0\0\0\0\0\0\0".to_vec()), None);
    assert_eq!(extract_document_key(b"document-".to_vec()), None);
    assert_eq!(extract_document_key(b"doc".to_vec()), None);
    assert_eq!(extract_document_key(Vec::new()), None);
}

#[test]
fn cursor_consumes_only_matching_prefixes() {
    let mut cursor = ByteCursor::new(b"document-rest".to_vec());
    assert!(!cursor.consume_if_eq(&b"documenz".to_vec()));
    assert!(cursor.consume_if_eq(&b"document-".to_vec()));
    assert!(cursor.consume_if_eq(&b"rest".to_vec()));
    assert!(!cursor.consume_if_eq(&b"x".to_vec()));
}
