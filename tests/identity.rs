use asana2taskwarrior::mapping::SectionPriorityMapping;
use asana2taskwarrior::taskwarrior::{get_depends_fields, FormatError, Priority, UUID};

#[test]
fn encode_exact_text() {
    let u = UUID::new(0x0123456789abcdef0011223344556677);
    assert_eq!(u.encode(), "01234567-89AB-CDEF-0011-223344556677");
}

#[test]
fn encode_zero_and_max() {
    assert_eq!(UUID::new(0).encode(), "00000000-0000-0000-0000-000000000000");
    assert_eq!(UUID::new(u128::MAX).encode(), "FFFFFFFF-FFFF-FFFF-FFFF-FFFFFFFFFFFF");
}

#[test]
fn encode_matches_byte_order_of_uuid_crate() {
    let v: u128 = 0xa1a2a3a4b1b2c1c2d1d2d3d4d5d6d7d8;
    let expected = uuid::Uuid::from_u128(v).hyphenated().to_string().to_uppercase();
    assert_eq!(UUID::new(v).encode(), expected);
}

#[test]
fn decode_round_trip() {
    for v in [0u128, 1, u128::MAX, 0x0123456789abcdef0011223344556677, 1 << 127] {
        let text = UUID::new(v).encode();
        assert_eq!(text.len(), 36);
        assert_eq!(UUID::decode(&text), Ok(UUID::new(v)));
    }
}

#[test]
fn decode_lower_case() {
    assert_eq!(
        UUID::decode("01234567-89ab-cdef-0011-223344556677"),
        Ok(UUID::new(0x0123456789abcdef0011223344556677))
    );
}

#[test]
fn decode_rejects_malformed() {
    assert_eq!(UUID::decode(""), Err(FormatError::Malformed));
    assert_eq!(UUID::decode("01234567-89AB-CDEF-0011-22334455667"), Err(FormatError::Malformed));
    assert_eq!(UUID::decode("01234567-89AB-CDEF-0011-2233445566778"), Err(FormatError::Malformed));
    assert_eq!(UUID::decode("0123456789AB-CDEF-0011-223344556677-"), Err(FormatError::Malformed));
    assert_eq!(UUID::decode("01234567-89AB-CDEG-0011-223344556677"), Err(FormatError::Malformed));
    assert_eq!(UUID::decode("01234567+89AB-CDEF-0011-223344556677"), Err(FormatError::Malformed));
}

#[test]
fn depends_sorted_and_deduplicated() {
    let a = UUID::new(0x20);
    let b = UUID::new(0x10);
    let text = get_depends_fields(vec![a, b, a]);
    assert_eq!(
        text,
        "00000000-0000-0000-0000-000000000010,00000000-0000-0000-0000-000000000020"
    );
}

#[test]
fn depends_independent_of_order() {
    let ids: Vec<UUID> = [5u128, 1 << 100, 42, 7, 42].iter().map(|v| UUID::new(*v)).collect();
    let mut reversed = ids.clone();
    reversed.reverse();
    assert_eq!(get_depends_fields(ids), get_depends_fields(reversed));
}

#[test]
fn depends_single() {
    let a = UUID::new(0xabc);
    assert_eq!(get_depends_fields(vec![a]), a.encode());
}

#[test]
fn depends_empty_is_empty_text() {
    assert_eq!(get_depends_fields(Vec::new()), "");
}

#[test]
fn mapping_entry_then_default() {
    let m = SectionPriorityMapping {
        default_mapping: Some(Priority::Low),
        mapping: vec![("Now".to_string(), Priority::High), ("Now".to_string(), Priority::Medium)],
    };
    assert_eq!(m.get_mapping("Now"), Some(Priority::High));
    assert_eq!(m.get_mapping("Other"), Some(Priority::Low));
    let none = SectionPriorityMapping { default_mapping: None, mapping: Vec::new() };
    assert_eq!(none.get_mapping("Now"), None);
}
