use std::collections::VecDeque;

use rcu_config_store::{store_parts, RcuCell, ReclaimerAction, Stamped};

#[test]
fn reclaimer_releases_only_aged_entries() {
    let (mut publisher, reader, mut reclaimer) = store_parts(0u64, 10, 4);
    let first = Stamped::new(publisher.publish(1), 100);
    assert!(publisher.offer(first).is_ok());
    let second = Stamped::new(publisher.publish(2), 105);
    assert!(publisher.offer(second).is_ok());
    assert_eq!(reader.read(), 2);

    reclaimer.collect();

    assert_eq!(reclaimer.step(false, 109), ReclaimerAction::Park { timeout: 10 });
    assert_eq!(reclaimer.pending(), 2);
    reclaimer.collect();
    assert_eq!(reclaimer.step(false, 110), ReclaimerAction::Park { timeout: 10 });
    assert_eq!(reclaimer.pending(), 1);
    reclaimer.collect();
    assert_eq!(reclaimer.step(false, 114), ReclaimerAction::Park { timeout: 10 });
    assert_eq!(reclaimer.pending(), 1);
    reclaimer.collect();
    assert_eq!(reclaimer.step(false, 115), ReclaimerAction::Park { timeout: 10 });
    assert_eq!(reclaimer.pending(), 0);
}

#[test]
fn shutdown_waits_out_the_newest_entry() {
    let (mut publisher, _reader, mut reclaimer) = store_parts(0u32, 10, 4);
    let a = Stamped::new(publisher.publish(1), 100);
    assert!(publisher.offer(a).is_ok());
    let b = Stamped::new(publisher.publish(2), 104);
    assert!(publisher.offer(b).is_ok());
    reclaimer.collect();
    assert_eq!(reclaimer.step(true, 106), ReclaimerAction::Finish { wait: 8 });
    assert_eq!(reclaimer.pending(), 2);
    assert_eq!(reclaimer.finish(), 2);
    assert_eq!(reclaimer.pending(), 0);
}

#[test]
fn shutdown_releases_aged_entries_before_waiting() {
    let (mut publisher, _reader, mut reclaimer) = store_parts(0u32, 10, 4);
    let a = Stamped::new(publisher.publish(1), 100);
    assert!(publisher.offer(a).is_ok());
    let b = Stamped::new(publisher.publish(2), 115);
    assert!(publisher.offer(b).is_ok());
    reclaimer.collect();
    assert_eq!(reclaimer.step(true, 120), ReclaimerAction::Finish { wait: 5 });
    assert_eq!(reclaimer.pending(), 1);
    assert_eq!(reclaimer.finish(), 1);
}

#[test]
fn shutdown_with_nothing_pending_does_not_wait() {
    let (_publisher, _reader, mut reclaimer) = store_parts(7i64, 1_000, 8);
    reclaimer.collect();
    assert_eq!(reclaimer.step(true, 5), ReclaimerAction::Finish { wait: 0 });
    assert_eq!(reclaimer.finish(), 0);
}

#[test]
fn a_stamp_after_now_has_not_aged() {
    let (mut publisher, _reader, mut reclaimer) = store_parts(0u8, 3, 2);
    let a = Stamped::new(publisher.publish(1), 200);
    assert!(publisher.offer(a).is_ok());
    reclaimer.collect();
    assert_eq!(reclaimer.step(false, 150), ReclaimerAction::Park { timeout: 3 });
    assert_eq!(reclaimer.pending(), 1);
    reclaimer.collect();
    assert_eq!(reclaimer.step(true, 150), ReclaimerAction::Finish { wait: 3 });
}

#[test]
fn zero_grace_releases_once_the_stamp_is_reached() {
    let (mut publisher, _reader, mut reclaimer) = store_parts(0u8, 0, 2);
    let a = Stamped::new(publisher.publish(1), 200);
    assert!(publisher.offer(a).is_ok());
    reclaimer.collect();
    assert_eq!(reclaimer.step(false, 150), ReclaimerAction::Park { timeout: 0 });
    assert_eq!(reclaimer.pending(), 1);
    reclaimer.collect();
    assert_eq!(reclaimer.step(false, 200), ReclaimerAction::Park { timeout: 0 });
    assert_eq!(reclaimer.pending(), 0);
}

#[test]
fn round_on_given_entries() {
    let (mut publisher, _reader, mut reclaimer) = store_parts(0u16, 10, 4);
    let mut arrived = VecDeque::new();
    arrived.push_back(Stamped::new(publisher.publish(1), 100));
    arrived.push_back(Stamped::new(publisher.publish(2), 103));
    arrived.push_back(Stamped::new(publisher.publish(3), 108));
    assert_eq!(
        reclaimer.round(arrived, VecDeque::new(), false, 113),
        ReclaimerAction::Park { timeout: 10 }
    );
    assert_eq!(reclaimer.pending(), 1);
    let mut late = VecDeque::new();
    late.push_back(Stamped::new(publisher.publish(4), 112));
    assert_eq!(
        reclaimer.round(VecDeque::new(), late, true, 114),
        ReclaimerAction::Finish { wait: 8 }
    );
    assert_eq!(reclaimer.pending(), 2);
    assert_eq!(reclaimer.finish(), 2);
}

#[test]
fn round_ignores_late_entries_while_running() {
    let (mut publisher, _reader, mut reclaimer) = store_parts(0u16, 10, 4);
    let mut late = VecDeque::new();
    late.push_back(Stamped::new(publisher.publish(1), 100));
    assert_eq!(
        reclaimer.round(VecDeque::new(), late, false, 200),
        ReclaimerAction::Park { timeout: 10 }
    );
    assert_eq!(reclaimer.pending(), 0);
}

#[test]
fn full_reclaim_queue_hands_the_entry_back() {
    let (mut publisher, reader, mut reclaimer) = store_parts(0usize, 1, 2);
    for i in 1..=2 {
        let s = Stamped::new(publisher.publish(i), i as u64);
        assert!(publisher.offer(s).is_ok());
    }
    let third = Stamped::new(publisher.publish(3), 3);
    let back = match publisher.offer(third) {
        Ok(()) => panic!("the queue should be full"),
        Err(back) => back,
    };
    reclaimer.collect();
    assert_eq!(reclaimer.step(false, 100), ReclaimerAction::Park { timeout: 1 });
    assert!(publisher.offer(back).is_ok());
    reclaimer.collect();
    assert_eq!(reclaimer.step(false, 100), ReclaimerAction::Park { timeout: 1 });
    assert_eq!(reclaimer.pending(), 0);
    assert_eq!(reader.read(), 3);
}

#[test]
fn readers_share_the_published_snapshot() {
    let (mut publisher, reader, _reclaimer) = store_parts((1usize, 2usize), 10, 4);
    let other = reader.clone();
    assert_eq!(reader.read(), (1, 2));
    let s = Stamped::new(publisher.publish((3, 6)), 1);
    assert!(publisher.offer(s).is_ok());
    assert_eq!(reader.read(), (3, 6));
    assert_eq!(other.read(), (3, 6));
}

#[test]
fn cell_keeps_the_last_swapped_value() {
    let cell = RcuCell::new([0u8; 4]);
    for i in 1..=10u8 {
        let retired = cell.swap([i, i, i, i]);
        retired.reclaim();
        assert_eq!(cell.read(), [i, i, i, i]);
    }
}
