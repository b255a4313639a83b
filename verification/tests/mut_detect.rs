use motiongfx::mut_detect::MutDetect;

#[test]
fn reading_does_not_mark_a_mutation() {
    let value = MutDetect::new(5u32);
    assert!(!value.mutated());
    assert_eq!(*value, 5);
    assert_eq!(*value.get(), 5);
    assert!(!value.mutated());
}

#[test]
fn borrowing_mutably_marks_until_reset() {
    let mut value = MutDetect::new(5u32);
    *value.get_mut() += 1;
    assert!(value.mutated());
    assert_eq!(*value, 6);
    value.reset();
    assert!(!value.mutated());
    assert_eq!(value.take(), 6);
}
