use colla::attrs::{compose_attr_patch, AttrChange, AttrPatch, AttrValue, Attrs};
use colla::ValueError;

fn attrs(entries: &[(&str, AttrValue)]) -> Attrs {
    Attrs::from_entries(entries.iter().map(|(k, v)| (k.to_string(), v.clone())).collect()).unwrap()
}

fn patch(entries: &[(&str, AttrChange)]) -> AttrPatch {
    AttrPatch::from_entries(entries.iter().map(|(k, v)| (k.to_string(), v.clone())).collect())
        .unwrap()
}

fn keys(a: &Attrs) -> Vec<&str> {
    a.entries().iter().map(|(k, _)| k.as_str()).collect()
}

#[test]
fn attribute_sets_are_sorted_and_reject_duplicates() {
    let a = attrs(&[("color", AttrValue::string("red")), ("bold", AttrValue::Bool(true))]);
    assert_eq!(keys(&a), vec!["bold", "color"]);
    assert_eq!(a.len(), 2);
    assert!(!a.is_empty());
    assert_eq!(a.get("bold"), Some(&AttrValue::Bool(true)));
    assert_eq!(a.get("size"), None);
    assert!(Attrs::new().is_empty());

    let duplicate = Attrs::from_entries(vec![
        ("a".to_string(), AttrValue::Int(1)),
        ("b".to_string(), AttrValue::Int(2)),
        ("a".to_string(), AttrValue::Int(3)),
    ]);
    assert_eq!(duplicate.unwrap_err(), ValueError::DuplicateKey("a".into()));
}

#[test]
fn attribute_patches_assign_and_remove() {
    let a = attrs(&[("color", AttrValue::string("red"))]);
    let p = patch(&[
        ("color", AttrChange::Remove),
        ("bold", AttrChange::Assign(AttrValue::Bool(true))),
    ]);
    let after = a.apply_patch(&p);
    assert_eq!(after.get("bold"), Some(&AttrValue::Bool(true)));
    assert_eq!(after.get("color"), None);
    assert_eq!(after.len(), 1);
}

#[test]
fn patches_compose_with_the_later_change_winning() {
    let first = patch(&[
        ("bold", AttrChange::Assign(AttrValue::Bool(true))),
        ("color", AttrChange::Assign(AttrValue::string("red"))),
    ]);
    let second = patch(&[("color", AttrChange::Remove), ("size", AttrChange::Assign(AttrValue::Int(3)))]);
    let composed = compose_attr_patch(&first, &second);
    assert_eq!(composed.len(), 3);
    assert_eq!(
        composed.entries().iter().map(|(k, _)| k.as_str()).collect::<Vec<_>>(),
        vec!["bold", "color", "size"]
    );

    let base = attrs(&[("color", AttrValue::string("blue")), ("font", AttrValue::string("serif"))]);
    let stepwise = base.apply_patch(&first).apply_patch(&second);
    let at_once = base.apply_patch(&composed);
    assert_eq!(stepwise, at_once);
    assert_eq!(keys(&at_once), vec!["bold", "font", "size"]);
}

#[test]
fn patches_reject_duplicate_keys() {
    let duplicate = AttrPatch::from_entries(vec![
        ("k".to_string(), AttrChange::Remove),
        ("k".to_string(), AttrChange::Remove),
    ]);
    assert_eq!(duplicate.unwrap_err(), ValueError::DuplicateKey("k".into()));
    assert!(AttrPatch::new().is_empty());
}
