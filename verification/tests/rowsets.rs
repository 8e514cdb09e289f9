use rowtable::selection::Row;
use rowtable::selection::Selection;

fn selection_of(values: &[u32]) -> Selection {
    let mut s = Selection::empty();
    for &v in values {
        s.add(Row::from_u32(v));
    }
    s
}

fn values_of(s: &Selection) -> Vec<u32> {
    s.rows().iter().map(|r| r.as_u32()).collect()
}

#[test]
fn rows_come_back_ascending_and_deduplicated() {
    let s = selection_of(&[8, 3, 5, 3]);
    assert_eq!(values_of(&s), vec![3, 5, 8]);
    assert_eq!(s.len(), 3);
    assert!(!s.is_empty());
}

#[test]
fn empty_and_filled_hold_what_they_promise() {
    assert_eq!(Selection::empty().len(), 0);
    assert!(Selection::empty().is_empty());
    assert!(Selection::default().is_empty());
    assert_eq!(values_of(&Selection::filled(4)), vec![0, 1, 2, 3]);
    assert_eq!(values_of(&Selection::of_row(Row::from_u32(7))), vec![7]);
}

#[test]
fn add_and_remove_are_idempotent() {
    let mut s = selection_of(&[1, 2]);
    s.add(Row::from_u32(2));
    assert_eq!(values_of(&s), vec![1, 2]);
    s.remove(Row::from_u32(1));
    s.remove(Row::from_u32(1));
    assert_eq!(values_of(&s), vec![2]);
}

#[test]
fn intersection_is_commutative() {
    let a = selection_of(&[1, 2, 5, 9]);
    let b = selection_of(&[2, 4, 9]);
    assert_eq!(values_of(&a.intersect(&b)), vec![2, 9]);
    assert_eq!(values_of(&a.intersect(&b)), values_of(&b.intersect(&a)));
}

#[test]
fn union_with_empty_is_identity() {
    let a = selection_of(&[0, 3, 6]);
    assert_eq!(values_of(&a.union(&Selection::empty())), values_of(&a));
}

#[test]
fn intersection_with_a_full_selection_is_identity() {
    let a = selection_of(&[0, 3, 6]);
    let full = Selection::filled(7);
    assert_eq!(values_of(&a.intersect(&full)), values_of(&a));
}

#[test]
fn intersection_is_no_larger_than_either_operand() {
    let a = selection_of(&[1, 2, 5, 9]);
    let b = selection_of(&[2, 4, 9, 11, 20]);
    let both = a.intersect(&b);
    assert!(both.len() <= a.len());
    assert!(both.len() <= b.len());
}

#[test]
fn in_place_forms_match_the_pure_forms() {
    let a = selection_of(&[1, 2, 5]);
    let b = selection_of(&[2, 7]);

    let mut narrowed = selection_of(&[1, 2, 5]);
    narrowed.intersect_with(&b);
    assert_eq!(values_of(&narrowed), values_of(&a.intersect(&b)));

    let mut widened = selection_of(&[1, 2, 5]);
    widened.union_with(&b);
    assert_eq!(values_of(&widened), values_of(&a.union(&b)));
    assert_eq!(values_of(&widened), vec![1, 2, 5, 7]);
}
