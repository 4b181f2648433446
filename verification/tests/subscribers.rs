use reactor::subs::SubscriberSet;

#[test]
fn add_is_idempotent_and_keeps_order() {
    let mut s = SubscriberSet::new();
    assert!(s.is_empty());
    s.add(3);
    s.add(1);
    s.add(3);
    assert_eq!(s.len(), 2);
    assert!(s.contains(3));
    assert!(s.contains(1));
    assert!(!s.contains(2));
    assert_eq!(s.to_vec(), vec![3, 1]);
}

#[test]
fn spill_beyond_inline_capacity() {
    let mut s = SubscriberSet::new();
    for i in 0..6 {
        s.add(i * 10);
    }
    assert_eq!(s.len(), 6);
    for i in 0..6 {
        assert!(s.contains(i * 10));
    }
    assert_eq!(s.to_vec(), vec![0, 10, 20, 30, 40, 50]);
}

#[test]
fn remove_inline_and_spilled() {
    let mut s = SubscriberSet::new();
    s.add(1);
    s.add(2);
    s.add(3);
    s.remove(2);
    assert_eq!(s.to_vec(), vec![1, 3]);
    s.remove(7);
    assert_eq!(s.len(), 2);

    let mut big = SubscriberSet::new();
    for i in 0..5 {
        big.add(i);
    }
    big.remove(0);
    big.remove(4);
    assert_eq!(big.to_vec(), vec![1, 2, 3]);
    assert!(!big.contains(0));
}
