//! The reclaim channel: a bounded single-producer single-consumer queue.
//!
//! Both ends share one [`RingBuffer`] behind vstd's reader-writer lock; the
//! producer only appends and the consumer only takes the oldest item, so
//! items come out in the order they went in. The lock's invariant fixes the
//! buffer's capacity for the life of the channel. Each end keeps, as ghost
//! state, the sequence of items it has put in or taken out.

use std::sync::Arc;
use vstd::prelude::*;
use vstd::rwlock::RwLock;

pub use crate::ring::{is_power_of_two, RingBuffer};
use crate::ring::is_pow2;

verus! {

/// The sending end of a channel.
#[verifier::reject_recursive_types(T)]
pub struct Producer<T> {
    shared: Arc<RwLock<RingBuffer<T>, spec_fn(RingBuffer<T>) -> bool>>,
    capacity: Ghost<nat>,
    sent: Ghost<Seq<T>>,
}

/// The receiving end of a channel.
#[verifier::reject_recursive_types(T)]
pub struct Consumer<T> {
    shared: Arc<RwLock<RingBuffer<T>, spec_fn(RingBuffer<T>) -> bool>>,
    capacity: Ghost<nat>,
    received: Ghost<Seq<T>>,
}

/// The lock invariant of a channel that holds up to `capacity` items.
pub open spec fn holds_up_to<T>(capacity: nat) -> spec_fn(RingBuffer<T>) -> bool {
    |r: RingBuffer<T>| r.max_len() == capacity
}

impl<T> Producer<T> {
    #[verifier::type_invariant]
    closed spec fn inv(&self) -> bool {
        self.shared.pred() == holds_up_to::<T>(self.capacity@)
    }

    /// The number of items the channel holds at most.
    pub closed spec fn capacity(&self) -> nat {
        self.capacity@
    }

    /// Every item this end has put into the channel, in order.
    pub closed spec fn sent(&self) -> Seq<T> {
        self.sent@
    }

    /// The channel this end belongs to, with its capacity.
    pub closed spec fn link(&self) -> (Arc<RwLock<RingBuffer<T>, spec_fn(RingBuffer<T>) -> bool>>, nat) {
        (self.shared, self.capacity@)
    }

    /// Whether `self` and `rx` are the two ends of one channel.
    pub open spec fn pairs_with(&self, rx: &Consumer<T>) -> bool {
        self.link() == rx.link()
    }

    /// Whether `self` and `other` are the sending end of one channel.
    pub open spec fn same_channel(&self, other: &Producer<T>) -> bool {
        self.link() == other.link()
    }

    /// Appends `value` as the newest item, or hands it back when the channel
    /// is full at that moment.
    pub fn push(&mut self, value: T) -> (result: Result<(), T>)
        ensures
            final(self).same_channel(old(self)),
            final(self).capacity() == old(self).capacity(),
            forall|rx: Consumer<T>| #[trigger] final(self).pairs_with(&rx) == old(self).pairs_with(&rx),
            result matches Err(v) ==> v == value && final(self).sent() == old(self).sent(),
            result is Ok ==> final(self).sent() == old(self).sent().push(value),
    {
        proof {
            use_type_invariant(&*self);
        }
        let ghost offered = value;
        let (mut ring, handle) = self.shared.acquire_write();
        let result = ring.push(value);
        handle.release_write(ring);
        if result.is_ok() {
            self.sent = Ghost(self.sent@.push(offered));
        }
        result
    }
}

impl<T> Consumer<T> {
    #[verifier::type_invariant]
    closed spec fn inv(&self) -> bool {
        self.shared.pred() == holds_up_to::<T>(self.capacity@)
    }

    /// The number of items the channel holds at most.
    pub closed spec fn capacity(&self) -> nat {
        self.capacity@
    }

    /// Every item this end has taken out of the channel, in order.
    pub closed spec fn received(&self) -> Seq<T> {
        self.received@
    }

    /// The channel this end belongs to, with its capacity.
    pub closed spec fn link(&self) -> (Arc<RwLock<RingBuffer<T>, spec_fn(RingBuffer<T>) -> bool>>, nat) {
        (self.shared, self.capacity@)
    }

    /// Whether `self` and `other` are the receiving end of one channel.
    pub open spec fn same_channel(&self, other: &Consumer<T>) -> bool {
        self.link() == other.link()
    }

    /// Takes the oldest item out, or `None` when the channel is empty at that
    /// moment.
    pub fn pop(&mut self) -> (result: Option<T>)
        ensures
            final(self).same_channel(old(self)),
            final(self).capacity() == old(self).capacity(),
            forall|tx: Producer<T>| #[trigger] tx.pairs_with(final(self)) == tx.pairs_with(old(self)),
            match result {
                Some(x) => final(self).received() == old(self).received().push(x),
                None => final(self).received() == old(self).received(),
            },
    {
        proof {
            use_type_invariant(&*self);
        }
        let (mut ring, handle) = self.shared.acquire_write();
        let result = ring.pop();
        handle.release_write(ring);
        match &result {
            Some(x) => {
                self.received = Ghost(self.received@.push(*x));
            },
            None => {},
        }
        result
    }
}

/// Makes a channel that holds up to `capacity` items.
pub fn channel<T>(capacity: usize) -> (ends: (Producer<T>, Consumer<T>))
    requires
        is_pow2(capacity as int),
    ensures
        ends.0.capacity() == capacity,
        ends.1.capacity() == capacity,
        ends.0.pairs_with(&ends.1),
        ends.0.sent() == Seq::<T>::empty(),
        ends.1.received() == Seq::<T>::empty(),
{
    let ring = RingBuffer::with_capacity(capacity);
    let ghost cap = capacity as nat;
    let shared = Arc::new(RwLock::new(ring, Ghost(holds_up_to::<T>(cap))));
    let tx = Producer { shared: shared.clone(), capacity: Ghost(cap), sent: Ghost(Seq::empty()) };
    let rx = Consumer { shared, capacity: Ghost(cap), received: Ghost(Seq::empty()) };
    (tx, rx)
}

} // verus!
