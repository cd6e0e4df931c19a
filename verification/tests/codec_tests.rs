use facet_core::codec::{encode_fid_key, FacetKind};
use facet_core::ordered_f64::{encode_ordered_f64, recover_f64_bits};
use facet_core::truncate::truncate_str;
use facet_core::MAX_FACET_VALUE_LENGTH;

fn ordered_bytes(x: f64) -> Vec<u8> {
    encode_ordered_f64(x.to_bits()).expect("finite")
}

#[test]
fn fid_keys_have_exact_tags_and_big_endian_ids() {
    assert_eq!(encode_fid_key(FacetKind::Number, 3), vec![0u8, 0, 3]);
    assert_eq!(encode_fid_key(FacetKind::String, 3), vec![1u8, 0, 3]);
    assert_eq!(encode_fid_key(FacetKind::Null, 3), vec![2u8, 0, 3]);
    assert_eq!(encode_fid_key(FacetKind::Empty, 3), vec![3u8, 0, 3]);
    assert_eq!(encode_fid_key(FacetKind::Exists, 0x0102), vec![4u8, 1, 2]);
}

#[test]
fn ordered_f64_layout_is_mapped_then_raw_big_endian() {
    let x = 10.0f64;
    let bits = x.to_bits();
    let mapped = bits | 0x8000_0000_0000_0000;
    let mut expected = Vec::new();
    expected.extend_from_slice(&mapped.to_be_bytes());
    expected.extend_from_slice(&bits.to_be_bytes());
    assert_eq!(ordered_bytes(x), expected);

    let y = -10.0f64;
    let ybits = y.to_bits();
    let ymapped = !ybits;
    let mut yexpected = Vec::new();
    yexpected.extend_from_slice(&ymapped.to_be_bytes());
    yexpected.extend_from_slice(&ybits.to_be_bytes());
    assert_eq!(ordered_bytes(y), yexpected);
}

#[test]
fn ordered_f64_preserves_numeric_order_bytewise() {
    let samples = [
        f64::MIN,
        -1.0e100,
        -2.5,
        -1.0,
        -4.9e-324,
        -0.0,
        0.0,
        4.9e-324,
        0.5,
        1.0,
        2.5,
        10.0,
        20.0,
        1.0e100,
        f64::MAX,
    ];
    for i in 0..samples.len() {
        for j in 0..samples.len() {
            if samples[i] < samples[j] {
                assert!(
                    ordered_bytes(samples[i]) < ordered_bytes(samples[j]),
                    "order broken for {} vs {}",
                    samples[i],
                    samples[j]
                );
            }
        }
    }
}

#[test]
fn ordered_f64_round_trips_through_second_half() {
    for x in [0.0, -0.0, 1.5, -273.15, 6.02e23, f64::MIN, f64::MAX, 4.9e-324] {
        let enc = ordered_bytes(x);
        assert_eq!(enc.len(), 16);
        let bits = recover_f64_bits(&enc);
        assert_eq!(f64::from_bits(bits), x);
        assert_eq!(bits, x.to_bits());
    }
}

#[test]
fn non_finite_numbers_have_no_encoding() {
    assert!(encode_ordered_f64(f64::NAN.to_bits()).is_none());
    assert!(encode_ordered_f64(f64::INFINITY.to_bits()).is_none());
    assert!(encode_ordered_f64(f64::NEG_INFINITY.to_bits()).is_none());
    assert!(encode_ordered_f64(1.0f64.to_bits()).is_some());
}

#[test]
fn truncate_keeps_short_strings() {
    assert_eq!(truncate_str(""), "");
    assert_eq!(truncate_str("hello"), "hello");
    let exact = "a".repeat(MAX_FACET_VALUE_LENGTH);
    assert_eq!(truncate_str(&exact), exact.as_str());
}

#[test]
fn truncate_cuts_on_character_boundaries() {
    let over = "a".repeat(MAX_FACET_VALUE_LENGTH + 10);
    assert_eq!(truncate_str(&over).len(), MAX_FACET_VALUE_LENGTH);

    // a two-byte code point straddling the ceiling is dropped whole
    let mut s = "a".repeat(MAX_FACET_VALUE_LENGTH - 1);
    s.push('é');
    s.push_str("zzz");
    let t = truncate_str(&s);
    assert_eq!(t.len(), MAX_FACET_VALUE_LENGTH - 1);
    assert!(t.chars().all(|c| c == 'a'));

    // multi-byte text stays valid UTF-8 after the cut
    let long = "é".repeat(MAX_FACET_VALUE_LENGTH);
    let t = truncate_str(&long);
    assert!(t.len() <= MAX_FACET_VALUE_LENGTH);
    assert!(t.chars().all(|c| c == 'é'));
    assert_eq!(t.len(), MAX_FACET_VALUE_LENGTH - 1);
}
