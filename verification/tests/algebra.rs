use colla::{
    apply_text, compose_text, invert_text, transform_text, Text, TextChange, TextOp, TieBreak,
    TransformError,
};

fn change(ops: Vec<TextOp>) -> TextChange {
    TextChange::from_ops(ops).unwrap()
}

fn apply(base: &str, c: &TextChange) -> String {
    apply_text(&Text::new(base), c).unwrap().as_str().to_owned()
}

fn assert_tp1(base: &str, a: &TextChange, b: &TextChange) {
    let (ap, bp) = transform_text(a, b, TieBreak::LeftFirst).unwrap();
    let left = apply(&apply(base, a), &bp);
    let right = apply(&apply(base, b), &ap);
    assert_eq!(left, right);
}

#[test]
fn text_tp1_insert_delete() {
    let a = change(vec![TextOp::Retain(1), TextOp::Delete(2)]);
    let b = change(vec![TextOp::Retain(2), TextOp::Insert("X".into())]);
    assert_tp1("abcd", &a, &b);
}

#[test]
fn compose_matches_sequential_apply() {
    let a = change(vec![TextOp::Retain(5), TextOp::Insert("!".into())]);
    let b = change(vec![TextOp::Delete(1)]);
    let combined = compose_text(&a, &b).unwrap();
    let sequential = apply(&apply("hello", &a), &b);
    assert_eq!(apply("hello", &combined), sequential);
}

#[test]
fn inverse_restores_text_base() {
    let base = Text::new("abc");
    let c = change(vec![TextOp::Retain(1), TextOp::Delete(1), TextOp::Insert("9".into())]);
    let inverse = invert_text(&c, &base).unwrap();
    let after = apply_text(&base, &c).unwrap();
    assert_eq!(apply_text(&after, &inverse).unwrap().as_str(), "abc");
}

#[test]
fn transform_keeps_huge_logical_sequences_compact() {
    let huge = change(vec![TextOp::Delete(usize::MAX)]);
    let noop = change(vec![]);
    let (a, b) = transform_text(&huge, &noop, TieBreak::LeftFirst).unwrap();
    assert_eq!(a.ops(), huge.ops());
    assert!(b.is_empty());
}

#[test]
fn text_compose_splits_unicode_insert_without_losing_boundaries() {
    let first = change(vec![TextOp::Retain(1), TextOp::Insert("你🙂好".into())]);
    let second = change(vec![TextOp::Retain(2), TextOp::Delete(1)]);
    let combined = compose_text(&first, &second).unwrap();
    let sequential = apply(&apply("ab", &first), &second);
    assert_eq!(sequential, "a你好b");
    assert_eq!(apply("ab", &combined), sequential);
}

#[test]
fn large_retain_compose_stays_compact() {
    let len = 900_000;
    let first = change(vec![TextOp::Retain(len), TextOp::Insert("x".into())]);
    let second = change(vec![TextOp::Retain(len), TextOp::Insert("y".into())]);
    let combined = compose_text(&first, &second).unwrap();
    assert_eq!(
        combined.ops(),
        change(vec![TextOp::Retain(len), TextOp::Insert("yx".into())]).ops()
    );
}

#[test]
fn transform_tie_break_orders_concurrent_inserts() {
    let a = change(vec![TextOp::Retain(1), TextOp::Insert("L".into())]);
    let b = change(vec![TextOp::Retain(1), TextOp::Insert("R".into())]);
    let (ap, _) = transform_text(&a, &b, TieBreak::LeftFirst).unwrap();
    assert_eq!(apply(&apply("xy", &b), &ap), "xLRy");
    let (ap, bp) = transform_text(&a, &b, TieBreak::RightFirst).unwrap();
    assert_eq!(apply(&apply("xy", &b), &ap), "xRLy");
    assert_eq!(apply(&apply("xy", &a), &bp), "xRLy");
}

#[test]
fn transform_reports_output_length_overflow() {
    let left = change(vec![TextOp::Delete(usize::MAX)]);
    let right = change(vec![TextOp::Insert("b".into())]);
    assert_eq!(
        transform_text(&left, &right, TieBreak::LeftFirst).unwrap_err(),
        TransformError::LengthOverflow
    );
}

#[test]
fn compose_with_empty_change_keeps_the_other() {
    let a = change(vec![TextOp::Retain(2), TextOp::Insert("z".into()), TextOp::Delete(1)]);
    let empty = change(vec![]);
    assert_eq!(compose_text(&a, &empty).unwrap().ops(), a.ops());
    assert_eq!(compose_text(&empty, &a).unwrap().ops(), a.ops());
}

#[test]
fn invert_of_insert_deletes_it() {
    let base = Text::new("ab");
    let c = change(vec![TextOp::Retain(1), TextOp::Insert("xyz".into())]);
    let inverse = invert_text(&c, &base).unwrap();
    assert_eq!(inverse.ops(), &[TextOp::Retain(1), TextOp::Delete(3)]);
}

#[test]
fn invert_of_delete_reinserts_the_deleted_text() {
    let base = Text::new("héllo");
    let c = change(vec![TextOp::Retain(1), TextOp::Delete(3)]);
    let inverse = invert_text(&c, &base).unwrap();
    assert_eq!(inverse.ops(), &[TextOp::Retain(1), TextOp::Insert("éll".into())]);
}
