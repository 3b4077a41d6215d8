use colla::engine::{
    algebra_error, check_string, checked_end, identity, invalid_state, missing, structural,
    type_error, Destination, Location, Origin, Priority, Ref, Rejection, Segment,
};
use colla::{CollaError, ErrorCode, IdAllocator};

#[test]
fn helper_errors_carry_their_code_and_reason() {
    assert_eq!(structural("x").code, ErrorCode::StructuralConflict);
    assert_eq!(type_error("x").code, ErrorCode::TypeMismatch);
    assert_eq!(invalid_state("x").code, ErrorCode::InvalidState);
    assert_eq!(algebra_error("x").code, ErrorCode::IncompatibleChange);
    assert_eq!(structural("why").details.entries().to_vec(), vec![("reason".to_owned(), "why".to_owned())]);
}

#[test]
fn missing_elements_name_their_id() {
    let mut allocator = IdAllocator::deterministic([0xab; 16]);
    let id = allocator.allocate().unwrap();
    let e = missing(id);
    assert_eq!(e.code, ErrorCode::MissingKey);
    assert_eq!(
        e.details.entries().to_vec(),
        vec![
            ("elementId".to_owned(), id.to_hex_string()),
            ("reason".to_owned(), "element not found".to_owned()),
        ]
    );
}

#[test]
fn identities_and_strings_are_bounded() {
    assert_eq!(identity("").unwrap_err().code, ErrorCode::InvalidArgument);
    assert!(identity("doc").is_ok());
    assert!(identity(&"x".repeat(4096)).is_ok());
    assert_eq!(identity(&"x".repeat(4097)).unwrap_err().code, ErrorCode::InvalidArgument);
    assert!(check_string("short").is_ok());
    assert_eq!(
        check_string(&"x".repeat(16 * 1024 * 1024 + 1)).unwrap_err().code,
        ErrorCode::LimitExceeded
    );
}

#[test]
fn ranges_must_end_within_the_sequence() {
    assert_eq!(checked_end(2, 3, 5).unwrap(), 5);
    assert_eq!(checked_end(2, 4, 5).unwrap_err().code, ErrorCode::OutOfBounds);
    assert_eq!(checked_end(usize::MAX, 1, 5).unwrap_err().code, ErrorCode::OutOfBounds);
}

#[test]
fn rejections_expose_their_parts() {
    let reason = CollaError::new(ErrorCode::InvalidArgument, "bad");
    let rejection = Rejection::new("doc", "client", 4, reason.clone());
    assert_eq!(rejection.document_id(), "doc");
    assert_eq!(rejection.client_id(), "client");
    assert_eq!(rejection.sequence(), 4);
    assert_eq!(rejection.reason(), &reason);
}

#[test]
fn locations_and_destinations_hold_ids_and_segments() {
    let mut allocator = IdAllocator::deterministic([1; 16]);
    let id = allocator.allocate().unwrap();
    let target = Ref { target: id };
    let destination = Destination { parent: target.target, slot: Segment::Index(0) };
    assert_eq!(destination.parent, id);
    assert_ne!(Location::Id(id), Location::Path(vec![Segment::Key("a".into())]));
    assert!(Segment::Key("a".into()) < Segment::Index(0));
    assert_ne!(Origin::Local, Origin::Remote);
    assert_ne!(Priority::Left, Priority::Right);
}
