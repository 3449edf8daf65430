use rcu_config_store::{arcswap, RcuCell};

#[test]
fn cell_swap_and_read() {
    let cell = RcuCell::new(1u64);
    assert_eq!(cell.read(), 1);
    let retired = cell.swap(2);
    assert_eq!(cell.read(), 2);
    retired.reclaim();
}

#[test]
fn arcswap_store_matches_semantics() {
    let (mut w, r) = arcswap::store((0usize, 0usize));
    w.update((3, 6));
    assert_eq!(r.read(), (3, 6));
    let r2 = r.clone();
    drop(w);
    assert_eq!(r2.read(), (3, 6));
}

