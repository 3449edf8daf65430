use rcu_config_store::spsc;

#[test]
fn full_capacity_is_usable() {
    let (mut tx, mut rx) = spsc::channel::<u32>(4);
    for i in 0..4 {
        assert_eq!(tx.push(i), Ok(()));
    }
    assert_eq!(tx.push(99), Err(99));
    for i in 0..4 {
        assert_eq!(rx.pop(), Some(i));
    }
    assert_eq!(rx.pop(), None);
}

#[test]
fn wraparound_preserves_order() {
    let (mut tx, mut rx) = spsc::channel::<usize>(4);
    for i in 0..32 {
        assert_eq!(tx.push(i), Ok(()));
        assert_eq!(tx.push(i + 100), Ok(()));
        assert_eq!(rx.pop(), Some(i));
        assert_eq!(rx.pop(), Some(i + 100));
    }
}

