use rcu_config_store::spsc::{is_power_of_two, RingBuffer};

#[test]
fn ring_takes_exactly_its_capacity() {
    let mut ring = RingBuffer::with_capacity(8);
    assert_eq!(ring.capacity(), 8);
    for i in 0..8u32 {
        assert_eq!(ring.push(i), Ok(()));
        assert_eq!(ring.len(), (i + 1) as usize);
    }
    assert_eq!(ring.push(42), Err(42));
    assert_eq!(ring.len(), 8);
    for i in 0..8u32 {
        assert_eq!(ring.pop(), Some(i));
    }
    assert_eq!(ring.pop(), None);
    assert_eq!(ring.len(), 0);
}

#[test]
fn ring_of_one_alternates() {
    let mut ring = RingBuffer::with_capacity(1);
    for i in 0..100u64 {
        assert_eq!(ring.push(i), Ok(()));
        assert_eq!(ring.push(i + 1000), Err(i + 1000));
        assert_eq!(ring.pop(), Some(i));
        assert_eq!(ring.pop(), None);
    }
}

#[test]
fn ring_order_survives_many_wraps() {
    let mut ring = RingBuffer::with_capacity(4);
    let mut next_in = 0usize;
    let mut next_out = 0usize;
    for round in 0..500usize {
        let pushes = round % 5;
        for _ in 0..pushes {
            if ring.push(next_in).is_ok() {
                next_in += 1;
            }
        }
        let pops = (round * 7) % 4;
        for _ in 0..pops {
            match ring.pop() {
                Some(v) => {
                    assert_eq!(v, next_out);
                    next_out += 1;
                }
                None => assert_eq!(next_in, next_out),
            }
        }
        assert_eq!(ring.len(), next_in - next_out);
        assert!(ring.len() <= 4);
    }
}

#[test]
fn empty_ring_pops_nothing() {
    let mut ring: RingBuffer<String> = RingBuffer::with_capacity(2);
    assert_eq!(ring.pop(), None);
    assert_eq!(ring.push("a".to_string()), Ok(()));
    assert_eq!(ring.pop(), Some("a".to_string()));
    assert_eq!(ring.pop(), None);
}

#[test]
fn powers_of_two_are_recognised() {
    assert!(!is_power_of_two(0));
    assert!(is_power_of_two(1));
    assert!(is_power_of_two(2));
    assert!(!is_power_of_two(3));
    assert!(is_power_of_two(4));
    assert!(!is_power_of_two(24));
    assert!(is_power_of_two(1024));
    assert!(!is_power_of_two(1023));
    assert!(is_power_of_two(1usize << (usize::BITS - 1)));
    assert!(!is_power_of_two(usize::MAX));
}

#[test]
fn channel_hands_back_a_refused_item() {
    let (mut tx, mut rx) = rcu_config_store::spsc::channel::<u8>(2);
    assert_eq!(tx.push(1), Ok(()));
    assert_eq!(tx.push(2), Ok(()));
    assert_eq!(tx.push(3), Err(3));
    assert_eq!(rx.pop(), Some(1));
    assert_eq!(tx.push(3), Ok(()));
    assert_eq!(rx.pop(), Some(2));
    assert_eq!(rx.pop(), Some(3));
    assert_eq!(rx.pop(), None);
}
