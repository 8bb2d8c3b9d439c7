use marki::small_bool::{SmallBoolVec, INLINE};
#[test]
fn inline_push_pop_roundtrips() {
    let mut v = SmallBoolVec::new();
    for i in 0..INLINE {
        v.push(i % 2 == 0);
    }
    assert!(matches!(v, SmallBoolVec::Inline { .. }));
    assert_eq!(v.len(), INLINE);
    assert_eq!(v.last().copied(), Some((INLINE - 1) % 2 == 0));
    assert_eq!(&*v, &[true, false, true, false, true, false, true, false][..]);
}

#[test]
fn spills_past_inline_capacity_and_preserves_order() {
    let mut v = SmallBoolVec::new();
    let pattern: Vec<bool> = (0..INLINE + 5).map(|i| i % 3 == 0).collect();
    for &b in &pattern {
        v.push(b);
    }
    assert!(matches!(v, SmallBoolVec::Spilled(_)));
    assert_eq!(&*v, pattern.as_slice());
}

#[test]
fn pop_drains_in_lifo_order() {
    let mut v = SmallBoolVec::new();
    v.push(true);
    v.push(false);
    assert_eq!(v.pop(), Some(false));
    assert_eq!(v.pop(), Some(true));
    assert_eq!(v.pop(), None);
    assert!(v.is_empty());
}
