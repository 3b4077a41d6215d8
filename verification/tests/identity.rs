use colla::{ElementId, ErrorCode, IdAllocator};

fn namespace() -> [u8; 16] {
    [0, 1, 2, 3, 4, 5, 6, 7, 8, 9, 10, 11, 12, 13, 14, 0xff]
}

#[test]
fn deterministic_allocator_counts_from_one() {
    let mut allocator = IdAllocator::deterministic(namespace());
    let first = allocator.allocate().unwrap();
    let second = allocator.allocate().unwrap();
    assert_eq!(first.namespace(), namespace());
    assert_eq!(first.sequence(), 1);
    assert_eq!(second.sequence(), 2);
    assert_ne!(first, second);
}

#[test]
fn id_text_is_48_lowercase_hex_digits() {
    let mut allocator = IdAllocator::deterministic(namespace());
    let id = allocator.allocate().unwrap();
    assert_eq!(
        id.to_hex_string(),
        "000102030405060708090a0b0c0d0eff0000000000000001"
    );
}

#[test]
fn id_text_round_trips() {
    let mut allocator = IdAllocator::deterministic(namespace());
    let _ = allocator.allocate().unwrap();
    let id = allocator.allocate().unwrap();
    let parsed = ElementId::parse(&id.to_hex_string()).unwrap();
    assert_eq!(parsed, id);
    let via_from_str: ElementId = id.to_hex_string().parse().unwrap();
    assert_eq!(via_from_str, id);
}

#[test]
fn id_parsing_rejects_malformed_text() {
    let bad = [
        "",
        "000102030405060708090a0b0c0d0eff000000000000001",
        "000102030405060708090A0B0C0D0EFF0000000000000001",
        "000102030405060708090a0b0c0d0eff000000000000000g",
        "000102030405060708090a0b0c0d0eff0000000000000000",
    ];
    for text in bad {
        assert_eq!(ElementId::parse(text).unwrap_err().code, ErrorCode::InvalidValue);
    }
}

#[test]
fn random_allocators_draw_independent_namespaces() {
    let mut a = IdAllocator::random().unwrap();
    let mut b = IdAllocator::random().unwrap();
    let x = a.allocate().unwrap();
    let y = b.allocate().unwrap();
    assert_eq!(x.sequence(), 1);
    assert_eq!(y.sequence(), 1);
    assert_ne!(x.namespace(), y.namespace());
}

#[test]
fn deterministic_allocators_reproduce_their_ids() {
    let mut a1 = IdAllocator::deterministic(namespace());
    let mut a2 = IdAllocator::deterministic(namespace());
    for k in 1..=20u64 {
        let x = a1.allocate().unwrap();
        let y = a2.allocate().unwrap();
        assert_eq!(x, y);
        assert_eq!(x.namespace(), namespace());
        assert_eq!(x.sequence(), k);
    }
}
