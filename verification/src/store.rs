//! The reclamation policy: retired snapshots wait out a grace period.
//!
//! Each update retires the previous snapshot with the tick at which it left
//! the cell and queues it on the reclaim channel. The reclaimer collects
//! queued snapshots into an oldest-first pending list and releases one only
//! once it is at least a grace period old; at shutdown it waits out the
//! newest entry's remaining time and then releases everything.
//!
//! Times are ticks (nanoseconds) on one monotonic clock shared by the writer
//! and the reclaimer.

use std::collections::VecDeque;
use std::sync::Arc;
use vstd::prelude::*;

use crate::cell::{RcuCell, Retired};
use crate::ring::is_pow2;
use crate::spsc::{channel, Consumer, Producer};

verus! {

/// Grace period used by the default store: 100 ms, in ticks.
pub const DEFAULT_GRACE_PERIOD_TICKS: u64 = 100_000_000;

/// Number of slots in the default store's reclaim channel.
pub const DEFAULT_QUEUE_CAPACITY: usize = 1024;

/// A retired snapshot and the tick at which it left the cell.
pub struct Stamped<T> {
    retired: Retired<T>,
    retired_at: u64,
}

impl<T> Stamped<T> {
    /// The tick at which the snapshot left the cell.
    pub closed spec fn stamp(&self) -> u64 {
        self.retired_at
    }

    /// The retired snapshot.
    pub closed spec fn snapshot(&self) -> T {
        self.retired@
    }

    /// Stamps `retired` with the tick `retired_at` at which it left the cell.
    pub fn new(retired: Retired<T>, retired_at: u64) -> (stamped: Self)
        ensures
            stamped.stamp() == retired_at,
            stamped.snapshot() == retired@,
    {
        Stamped { retired, retired_at }
    }
}

/// How long ago `stamp` was at tick `now`; a stamp from the future is zero
/// ticks old.
pub open spec fn age(stamp: u64, now: u64) -> int {
    if now >= stamp {
        now - stamp
    } else {
        0
    }
}

/// At tick `now` the entry has been out of the cell for at least the grace
/// period; a stamp after `now` has not aged, whatever the grace period.
pub open spec fn aged<T>(entry: Stamped<T>, now: u64, grace: u64) -> bool {
    now >= entry.stamp() && now - entry.stamp() >= grace
}

/// How many entries at the front of `pending` have aged at `now`.
pub open spec fn aged_prefix_len<T>(pending: Seq<Stamped<T>>, now: u64, grace: u64) -> nat
    decreases pending.len(),
{
    if pending.len() == 0 || !aged(pending[0], now, grace) {
        0
    } else {
        1 + aged_prefix_len(pending.drop_first(), now, grace)
    }
}

/// What the reclaimer waits at shutdown so that the newest entry of
/// `pending` has aged: the rest of its grace period, or nothing when
/// `pending` is empty.
pub open spec fn shutdown_wait<T>(pending: Seq<Stamped<T>>, now: u64, grace: u64) -> u64 {
    if pending.len() == 0 {
        0
    } else if age(pending.last().stamp(), now) >= grace {
        0
    } else {
        (grace - age(pending.last().stamp(), now)) as u64
    }
}

/// The pending list and the action after one reclaimer round at `now`
/// that started from `pending`, collected `arrived` before releasing the
/// aged entries and, when `stopping`, collected `late` after.
pub open spec fn step_outcome<T>(
    pending: Seq<Stamped<T>>,
    arrived: Seq<Stamped<T>>,
    late: Seq<Stamped<T>>,
    stopping: bool,
    now: u64,
    grace: u64,
) -> (Seq<Stamped<T>>, ReclaimerAction) {
    let all = pending + arrived;
    let kept = all.skip(aged_prefix_len(all, now, grace) as int);
    if stopping {
        let last = kept + late;
        (last, ReclaimerAction::Finish { wait: shutdown_wait(last, now, grace) })
    } else {
        (kept, ReclaimerAction::Park { timeout: grace })
    }
}

/// `pending` is oldest-first: stamps never decrease towards the back.
pub open spec fn oldest_first<T>(pending: Seq<Stamped<T>>) -> bool {
    forall|i: int, j: int|
        0 <= i <= j < pending.len() ==> #[trigger] pending[i].stamp() <= #[trigger] pending[j].stamp()
}

/// What the reclaimer thread does after a step.
#[derive(Clone, Copy, Debug, PartialEq, Eq)]
pub enum ReclaimerAction {
    /// Sleep until woken, or for at most `timeout` ticks, then step again.
    Park { timeout: u64 },
    /// Sleep `wait` ticks, then call [`Reclaimer::finish`] and stop.
    Finish { wait: u64 },
}

/// The write side's part of the store: publishes snapshots and queues the
/// retired ones for reclamation.
#[verifier::reject_recursive_types(T)]
pub struct Publisher<T> {
    cell: Arc<RcuCell<T>>,
    tx: Producer<Stamped<T>>,
}

/// The read end. Clonable; `read` takes `&self`.
#[verifier::reject_recursive_types(T)]
pub struct Reader<T> {
    cell: Arc<RcuCell<T>>,
}

/// The reclaimer's state: the channel it drains, the entries waiting out
/// their grace period (oldest first), and the grace period.
#[verifier::reject_recursive_types(T)]
pub struct Reclaimer<T> {
    rx: Consumer<Stamped<T>>,
    pending: VecDeque<Stamped<T>>,
    grace: u64,
    admitted: Ghost<Seq<Stamped<T>>>,
    released: Ghost<Seq<Stamped<T>>>,
}

impl<T> Publisher<T> {
    /// Whether the cell this publisher writes may hold `value`.
    pub closed spec fn admits(&self, value: T) -> bool {
        self.cell.admits(value)
    }

    /// The number of retired snapshots the reclaim channel holds at most.
    pub closed spec fn queue_capacity(&self) -> nat {
        self.tx.capacity()
    }

    /// Whether `self` publishes into the cell that `reader` reads.
    pub closed spec fn pairs_with(&self, reader: &Reader<T>) -> bool {
        self.cell == reader.cell
    }

    /// Whether `self` queues retired snapshots to `reclaimer`.
    pub closed spec fn feeds(&self, reclaimer: &Reclaimer<T>) -> bool {
        self.tx.pairs_with(&reclaimer.rx)
    }

    /// Every entry this publisher has queued for reclamation, in order.
    pub closed spec fn queued(&self) -> Seq<Stamped<T>> {
        self.tx.sent()
    }
}

impl<T: Copy> Publisher<T> {
    /// Publishes `value` as the new snapshot and returns the one it
    /// replaced, which the cell admits as well.
    pub fn publish(&mut self, value: T) -> (retired: Retired<T>)
        requires
            old(self).admits(value),
        ensures
            *final(self) == *old(self),
            final(self).admits(retired@),
    {
        self.cell.swap(value)
    }

    /// Queues `stamped` for reclamation, or hands it back when the channel is
    /// full at that moment.
    pub fn offer(&mut self, stamped: Stamped<T>) -> (result: Result<(), Stamped<T>>)
        ensures
            forall|v: T| #[trigger] final(self).admits(v) == old(self).admits(v),
            forall|r: Reader<T>| #[trigger] final(self).pairs_with(&r) == old(self).pairs_with(&r),
            forall|c: Reclaimer<T>| #[trigger] final(self).feeds(&c) == old(self).feeds(&c),
            final(self).queue_capacity() == old(self).queue_capacity(),
            result matches Err(back) ==> back == stamped && final(self).queued() == old(
                self,
            ).queued(),
            result is Ok ==> final(self).queued() == old(self).queued().push(stamped),
    {
        self.tx.push(stamped)
    }
}

impl<T> Reader<T> {
    /// Whether the cell this reader reads may hold `value`.
    pub closed spec fn admits(&self, value: T) -> bool {
        self.cell.admits(value)
    }

    /// Whether `self` and `other` read the same cell.
    pub closed spec fn same_cell(&self, other: &Reader<T>) -> bool {
        self.cell == other.cell
    }

    /// Copies the current snapshot out.
    pub fn read(&self) -> (value: T)
        where
            T: Copy,
        ensures
            self.admits(value),
    {
        self.cell.read()
    }
}

impl<T> Clone for Reader<T> {
    fn clone(&self) -> (other: Self)
        ensures
            other.same_cell(self),
            forall|v: T| #[trigger] other.admits(v) == self.admits(v),
    {
        Reader { cell: self.cell.clone() }
    }
}

impl<T> Reclaimer<T> {
    /// The entries waiting out their grace period, oldest first.
    pub closed spec fn pending_view(&self) -> Seq<Stamped<T>> {
        self.pending@
    }

    /// The grace period, in ticks.
    pub closed spec fn grace(&self) -> u64 {
        self.grace
    }

    /// The number of retired snapshots the reclaim channel holds at most.
    pub closed spec fn queue_capacity(&self) -> nat {
        self.rx.capacity()
    }

    /// Whether `self` drains the same channel as `other`.
    pub closed spec fn same_channel(&self, other: &Reclaimer<T>) -> bool {
        self.rx.same_channel(&other.rx)
    }

    /// Every entry taken off the reclaim channel so far, in queue order.
    pub closed spec fn taken(&self) -> Seq<Stamped<T>> {
        self.rx.received()
    }

    /// Every entry that has joined the pending list so far, in order.
    pub closed spec fn admitted_view(&self) -> Seq<Stamped<T>> {
        self.admitted@
    }

    /// Every entry released so far, in order of release.
    pub closed spec fn released_view(&self) -> Seq<Stamped<T>> {
        self.released@
    }

    /// Nothing admitted is lost or duplicated: the entries admitted so far
    /// are exactly the released ones followed by the pending ones.
    pub open spec fn accounted(&self) -> bool {
        self.admitted_view() == self.released_view() + self.pending_view()
    }

    /// How many entries are waiting out their grace period.
    pub fn pending(&self) -> (n: usize)
        ensures
            n == self.pending_view().len(),
    {
        self.pending.len()
    }

    /// Takes everything queued on the channel, in queue order.
    fn drain(&mut self) -> (arrived: VecDeque<Stamped<T>>)
        ensures
            final(self).rx.same_channel(&old(self).rx),
            forall|p: Producer<Stamped<T>>| #[trigger] p.pairs_with(&final(self).rx) == p.pairs_with(
                &old(self).rx,
            ),
            final(self).rx.capacity() == old(self).rx.capacity(),
            final(self).rx.received() == old(self).rx.received() + arrived@,
            final(self).grace == old(self).grace,
            final(self).pending@ == old(self).pending@,
            final(self).admitted == old(self).admitted,
            final(self).released == old(self).released,
    {
        let mut arrived: VecDeque<Stamped<T>> = VecDeque::new();
        proof {
            assert(self.rx.received() + arrived@ =~= self.rx.received());
        }
        loop
            invariant
                self.rx.same_channel(&old(self).rx),
                forall|p: Producer<Stamped<T>>| #[trigger] p.pairs_with(&self.rx) == p.pairs_with(
                    &old(self).rx,
                ),
                self.rx.capacity() == old(self).rx.capacity(),
                self.rx.received() == old(self).rx.received() + arrived@,
                self.grace == old(self).grace,
                self.pending@ == old(self).pending@,
                self.admitted == old(self).admitted,
                self.released == old(self).released,
            decreases usize::MAX - arrived.len(),
        {
            if arrived.len() == usize::MAX {
                break;
            }
            let ghost before = arrived@;
            match self.rx.pop() {
                Some(stamped) => {
                    arrived.push_back(stamped);
                    proof {
                        assert(old(self).rx.received() + before.push(stamped) =~= (old(
                            self,
                        ).rx.received() + before).push(stamped));
                    }
                },
                None => break,
            }
        }
        arrived
    }
}

impl<T> Stamped<T> {
    /// Whether this entry has been out of the cell for at least `grace` ticks
    /// at tick `now`.
    fn has_aged(&self, now: u64, grace: u64) -> (r: bool)
        ensures
            r == aged(*self, now, grace),
    {
        now >= self.retired_at && now - self.retired_at >= grace
    }
}

impl<T> Reclaimer<T> {
    /// Releases the entries at the front of the pending list that have aged
    /// at `now`, oldest first, and stops at the first that has not.
    fn reclaim_aged(&mut self, now: u64)
        ensures
            final(self).rx == old(self).rx,
            final(self).grace == old(self).grace,
            final(self).admitted == old(self).admitted,
            final(self).pending@ == old(self).pending@.skip(
                aged_prefix_len(old(self).pending@, now, old(self).grace) as int,
            ),
            final(self).released@ == old(self).released@ + old(self).pending@.take(
                aged_prefix_len(old(self).pending@, now, old(self).grace) as int,
            ),
    {
        let ghost start = self.pending@;
        let ghost mut k: int = 0;
        proof {
            law_releases_only_aged(start, now, self.grace);
            assert(self.released@ + start.take(0) =~= self.released@);
            assert(start.skip(0) =~= start);
        }
        while self.pending.len() > 0 && self.pending[0].has_aged(now, self.grace)
            invariant
                self.rx == old(self).rx,
                self.grace == old(self).grace,
                self.admitted == old(self).admitted,
                start == old(self).pending@,
                0 <= k <= start.len(),
                self.pending@ == start.skip(k),
                self.released@ == old(self).released@ + start.take(k),
                aged_prefix_len(start, now, self.grace) == k + aged_prefix_len(
                    self.pending@,
                    now,
                    self.grace,
                ),
            decreases self.pending.len(),
        {
            let front = self.pending.pop_front();
            match front {
                Some(stamped) => {
                    let ghost entry = stamped;
                    self.released = Ghost(self.released@.push(entry));
                    let Stamped { retired, retired_at } = stamped;
                    retired.reclaim();
                },
                None => {},
            }
            proof {
                assert(start.skip(k).drop_first() =~= start.skip(k + 1));
                assert(start.take(k).push(start[k]) =~= start.take(k + 1));
                assert(old(self).released@ + start.take(k + 1) =~= (old(self).released@
                    + start.take(k)).push(start[k]));
                k = k + 1;
            }
        }
    }

    /// The rest of the newest entry's grace period at `now`.
    fn remaining_wait(&self, now: u64) -> (wait: u64)
        ensures
            wait == shutdown_wait(self.pending@, now, self.grace),
    {
        let n = self.pending.len();
        if n == 0 {
            return 0;
        }
        let newest = &self.pending[n - 1];
        let age = if now >= newest.retired_at {
            now - newest.retired_at
        } else {
            0
        };
        if age >= self.grace {
            0
        } else {
            self.grace - age
        }
    }

    /// Moves everything the writer has queued to the back of the pending
    /// list, in queue order: the entries that join are exactly those taken
    /// off the channel, and nothing is released. The round's clock reading
    /// is taken after this, so no collected stamp lies after it.
    pub fn collect(&mut self)
        ensures
            final(self).same_channel(old(self)),
            forall|p: Publisher<T>| #[trigger] p.feeds(final(self)) == p.feeds(old(self)),
            final(self).queue_capacity() == old(self).queue_capacity(),
            final(self).grace() == old(self).grace(),
            final(self).released_view() == old(self).released_view(),
            exists|arrived: Seq<Stamped<T>>|
                {
                    &&& #[trigger] (old(self).taken() + arrived) == final(self).taken()
                    &&& final(self).pending_view() == old(self).pending_view() + arrived
                    &&& final(self).admitted_view() == old(self).admitted_view() + arrived
                },
            old(self).accounted() ==> final(self).accounted(),
    {
        let mut arrived = self.drain();
        let ghost first = arrived@;
        self.pending.append(&mut arrived);
        self.admitted = Ghost(self.admitted@ + first);
        proof {
            assert(old(self).taken() + first == self.taken());
            assert(old(self).released@ + (old(self).pending@ + first) =~= (old(self).released@
                + old(self).pending@) + first);
        }
    }

    /// One round of the reclaimer at tick `now`, after [`collect`](Self::collect):
    /// releases the aged entries at the front of the pending list, oldest
    /// first, and then either parks for one grace period, taking nothing off
    /// the channel, or, once the writer is gone (`stopping`), moves the last
    /// queued entries behind the kept ones and asks to wait out the newest.
    pub fn step(&mut self, stopping: bool, now: u64) -> (action: ReclaimerAction)
        ensures
            final(self).same_channel(old(self)),
            forall|p: Publisher<T>| #[trigger] p.feeds(final(self)) == p.feeds(old(self)),
            final(self).queue_capacity() == old(self).queue_capacity(),
            final(self).grace() == old(self).grace(),
            final(self).released_view() == old(self).released_view() + old(
                self,
            ).pending_view().take(aged_prefix_len(old(self).pending_view(), now, old(self).grace()) as int),
            exists|late: Seq<Stamped<T>>|
                {
                    &&& #[trigger] (old(self).taken() + late) == final(self).taken()
                    &&& !stopping ==> late == Seq::<Stamped<T>>::empty()
                    &&& final(self).admitted_view() == old(self).admitted_view() + late
                    &&& step_outcome(
                        old(self).pending_view(),
                        Seq::empty(),
                        late,
                        stopping,
                        now,
                        old(self).grace(),
                    ) == (final(self).pending_view(), action)
                },
            old(self).accounted() ==> final(self).accounted(),
    {
        let ghost p0 = self.pending@;
        let ghost r0 = self.released@;
        let ghost k = aged_prefix_len(p0, now, self.grace) as int;
        proof {
            assert(p0 + Seq::<Stamped<T>>::empty() =~= p0);
            law_releases_only_aged(p0, now, self.grace);
        }
        self.reclaim_aged(now);
        if stopping {
            let mut late = self.drain();
            let ghost last = late@;
            self.pending.append(&mut late);
            self.admitted = Ghost(self.admitted@ + last);
            let wait = self.remaining_wait(now);
            let action = ReclaimerAction::Finish { wait };
            proof {
                assert(old(self).taken() + last == self.taken());
                assert(step_outcome(
                    old(self).pending_view(),
                    Seq::empty(),
                    last,
                    stopping,
                    now,
                    old(self).grace(),
                ) == (self.pending_view(), action));
                assert(p0.take(k) + p0.skip(k) =~= p0);
                assert(r0 + p0 + last =~= (r0 + p0.take(k)) + (p0.skip(k) + last));
            }
            action
        } else {
            let action = ReclaimerAction::Park { timeout: self.grace };
            proof {
                assert(old(self).taken() + Seq::<Stamped<T>>::empty() =~= self.taken());
                assert(old(self).admitted_view() + Seq::<Stamped<T>>::empty() =~= self.admitted_view());
                assert(step_outcome(
                    old(self).pending_view(),
                    Seq::empty(),
                    Seq::empty(),
                    stopping,
                    now,
                    old(self).grace(),
                ) == (self.pending_view(), action));
                assert(p0.take(k) + p0.skip(k) =~= p0);
                assert(r0 + p0 =~= (r0 + p0.take(k)) + p0.skip(k));
            }
            action
        }
    }

    /// One reclaimer round at tick `now` on entries already collected:
    /// `arrived` joins the back of the pending list before the aged entries
    /// are released, and, when `stopping`, `late` joins after, and the round
    /// asks to wait out the newest entry. Nothing is taken off the channel.
    pub fn round(
        &mut self,
        arrived: VecDeque<Stamped<T>>,
        late: VecDeque<Stamped<T>>,
        stopping: bool,
        now: u64,
    ) -> (action: ReclaimerAction)
        ensures
            final(self).same_channel(old(self)),
            forall|p: Publisher<T>| #[trigger] p.feeds(final(self)) == p.feeds(old(self)),
            final(self).queue_capacity() == old(self).queue_capacity(),
            final(self).grace() == old(self).grace(),
            final(self).taken() == old(self).taken(),
            final(self).released_view() == old(self).released_view() + (old(self).pending_view()
                + arrived@).take(
                aged_prefix_len(old(self).pending_view() + arrived@, now, old(self).grace()) as int,
            ),
            final(self).admitted_view() == old(self).admitted_view() + arrived@ + if stopping {
                late@
            } else {
                Seq::empty()
            },
            (final(self).pending_view(), action) == step_outcome(
                old(self).pending_view(),
                arrived@,
                if stopping {
                    late@
                } else {
                    Seq::empty()
                },
                stopping,
                now,
                old(self).grace(),
            ),
            old(self).accounted() ==> final(self).accounted(),
    {
        let ghost p0 = self.pending@;
        let ghost r0 = self.released@;
        let ghost a0 = arrived@;
        let ghost l0 = late@;
        let mut arrived = arrived;
        let mut late = late;
        self.pending.append(&mut arrived);
        self.admitted = Ghost(self.admitted@ + a0);
        let ghost all = self.pending@;
        let ghost k = aged_prefix_len(all, now, self.grace) as int;
        proof {
            law_releases_only_aged(all, now, self.grace);
            assert(all.take(k) + all.skip(k) =~= all);
        }
        self.reclaim_aged(now);
        if stopping {
            self.pending.append(&mut late);
            self.admitted = Ghost(self.admitted@ + l0);
            let wait = self.remaining_wait(now);
            proof {
                assert(all == p0 + a0);
                if old(self).accounted() {
                    assert(old(self).admitted@ + a0 + l0 =~= (r0 + all.take(k)) + (all.skip(k)
                        + l0));
                }
            }
            ReclaimerAction::Finish { wait }
        } else {
            proof {
                assert(self.admitted@ + Seq::<Stamped<T>>::empty() =~= self.admitted@);
                assert(all == p0 + a0);
                if old(self).accounted() {
                    assert(old(self).admitted@ + a0 + Seq::<Stamped<T>>::empty() =~= (r0
                        + all.take(k)) + all.skip(k));
                }
            }
            ReclaimerAction::Park { timeout: self.grace }
        }
    }

    /// Releases every pending entry, oldest first; returns how many there
    /// were.
    pub fn finish(&mut self) -> (released: usize)
        ensures
            final(self).same_channel(old(self)),
            forall|p: Publisher<T>| #[trigger] p.feeds(final(self)) == p.feeds(old(self)),
            final(self).queue_capacity() == old(self).queue_capacity(),
            final(self).grace() == old(self).grace(),
            final(self).taken() == old(self).taken(),
            final(self).admitted_view() == old(self).admitted_view(),
            final(self).pending_view() == Seq::<Stamped<T>>::empty(),
            final(self).released_view() == old(self).released_view() + old(self).pending_view(),
            released == old(self).pending_view().len(),
            old(self).accounted() ==> final(self).accounted(),
    {
        let mut released: usize = 0;
        let total = self.pending.len();
        let ghost start = self.pending@;
        proof {
            assert(self.released@ + start.take(0) =~= self.released@);
            assert(start.skip(0) =~= start);
        }
        while self.pending.len() > 0
            invariant
                total == old(self).pending@.len(),
                start == old(self).pending@,
                self.rx == old(self).rx,
                self.grace == old(self).grace,
                self.admitted == old(self).admitted,
                0 <= released <= start.len(),
                self.pending@ == start.skip(released as int),
                self.released@ == old(self).released@ + start.take(released as int),
            decreases self.pending.len(),
        {
            let front = self.pending.pop_front();
            match front {
                Some(stamped) => {
                    let ghost entry = stamped;
                    self.released = Ghost(self.released@.push(entry));
                    let Stamped { retired, retired_at } = stamped;
                    retired.reclaim();
                },
                None => {},
            }
            proof {
                let k = released as int;
                assert(start.skip(k).drop_first() =~= start.skip(k + 1));
                assert(start.take(k).push(start[k]) =~= start.take(k + 1));
                assert(old(self).released@ + start.take(k + 1) =~= (old(self).released@
                    + start.take(k)).push(start[k]));
            }
            released = released + 1;
        }
        proof {
            assert(start.take(start.len() as int) =~= start);
            assert(self.pending@ =~= Seq::<Stamped<T>>::empty());
            assert(old(self).released@ + start + Seq::<Stamped<T>>::empty() =~= old(self).released@ + start);
        }
        released
    }
}

/// Puts a store together around `cell`.
fn assemble<T: Copy>(cell: RcuCell<T>, grace_period: u64, queue_capacity: usize) -> (parts: (
    Publisher<T>,
    Reader<T>,
    Reclaimer<T>,
))
    requires
        is_pow2(queue_capacity as int),
    ensures
        forall|v: T| #[trigger] parts.0.admits(v) == cell.admits(v),
        forall|v: T| #[trigger] parts.1.admits(v) == cell.admits(v),
        parts.0.pairs_with(&parts.1),
        parts.0.feeds(&parts.2),
        parts.0.queue_capacity() == queue_capacity,
        parts.2.queue_capacity() == queue_capacity,
        parts.2.grace() == grace_period,
        parts.2.pending_view() == Seq::<Stamped<T>>::empty(),
        parts.0.queued() == Seq::<Stamped<T>>::empty(),
        parts.2.taken() == Seq::<Stamped<T>>::empty(),
        parts.2.released_view() == Seq::<Stamped<T>>::empty(),
        parts.2.accounted(),
{
    let cell = Arc::new(cell);
    let (tx, rx) = channel::<Stamped<T>>(queue_capacity);
    let publisher = Publisher { cell: cell.clone(), tx };
    let reader = Reader { cell };
    let reclaimer = Reclaimer {
        rx,
        pending: VecDeque::new(),
        grace: grace_period,
        admitted: Ghost(Seq::empty()),
        released: Ghost(Seq::empty()),
    };
    proof {
        assert(reclaimer.released@ + reclaimer.pending@ =~= Seq::<Stamped<T>>::empty());
    }
    (publisher, reader, reclaimer)
}

/// Creates the parts of a store holding `initial`: the publisher, a reader
/// of the same cell, and the reclaimer that drains the publisher's reclaim
/// channel of `queue_capacity` slots with a grace period of `grace_period`
/// ticks. The cell takes any snapshot.
pub fn store_parts<T: Copy>(initial: T, grace_period: u64, queue_capacity: usize) -> (parts: (
    Publisher<T>,
    Reader<T>,
    Reclaimer<T>,
))
    requires
        is_pow2(queue_capacity as int),
    ensures
        forall|v: T| #[trigger] parts.0.admits(v),
        forall|v: T| #[trigger] parts.1.admits(v),
        parts.0.pairs_with(&parts.1),
        parts.0.feeds(&parts.2),
        parts.0.queue_capacity() == queue_capacity,
        parts.2.queue_capacity() == queue_capacity,
        parts.2.grace() == grace_period,
        parts.2.pending_view() == Seq::<Stamped<T>>::empty(),
        parts.0.queued() == Seq::<Stamped<T>>::empty(),
        parts.2.taken() == Seq::<Stamped<T>>::empty(),
        parts.2.released_view() == Seq::<Stamped<T>>::empty(),
        parts.2.accounted(),
{
    assemble(RcuCell::new(initial), grace_period, queue_capacity)
}

/// Like [`store_parts`], for a store whose snapshots all satisfy `inv`: the
/// publisher takes only such values, so every read of every reader returns
/// one of them, never a mix of two.
pub fn store_parts_with_invariant<T: Copy>(
    initial: T,
    Ghost(inv): Ghost<spec_fn(T) -> bool>,
    grace_period: u64,
    queue_capacity: usize,
) -> (parts: (Publisher<T>, Reader<T>, Reclaimer<T>))
    requires
        inv(initial),
        is_pow2(queue_capacity as int),
    ensures
        forall|v: T| #[trigger] parts.0.admits(v) == inv(v),
        forall|v: T| #[trigger] parts.1.admits(v) == inv(v),
        parts.0.pairs_with(&parts.1),
        parts.0.feeds(&parts.2),
        parts.0.queue_capacity() == queue_capacity,
        parts.2.queue_capacity() == queue_capacity,
        parts.2.grace() == grace_period,
        parts.2.pending_view() == Seq::<Stamped<T>>::empty(),
        parts.0.queued() == Seq::<Stamped<T>>::empty(),
        parts.2.taken() == Seq::<Stamped<T>>::empty(),
        parts.2.released_view() == Seq::<Stamped<T>>::empty(),
        parts.2.accounted(),
{
    assemble(RcuCell::with_invariant(initial, Ghost(inv)), grace_period, queue_capacity)
}

/// The grace period is a minimum per snapshot: every entry a round releases
/// has been out of the cell for at least the grace period, the released
/// entries are the oldest ones, and the first entry kept has not aged.
pub proof fn law_releases_only_aged<T>(pending: Seq<Stamped<T>>, now: u64, grace: u64)
    ensures
        aged_prefix_len(pending, now, grace) <= pending.len(),
        forall|i: int|
            0 <= i < aged_prefix_len(pending, now, grace) ==> aged(#[trigger] pending[i], now, grace),
        aged_prefix_len(pending, now, grace) < pending.len() ==> !aged(
            pending[aged_prefix_len(pending, now, grace) as int],
            now,
            grace,
        ),
    decreases pending.len(),
{
    if pending.len() > 0 && aged(pending[0], now, grace) {
        let rest = pending.drop_first();
        law_releases_only_aged(rest, now, grace);
        assert forall|i: int|
            0 <= i < aged_prefix_len(pending, now, grace) implies aged(
            #[trigger] pending[i],
            now,
            grace,
        ) by {
            if i > 0 {
                assert(pending[i] == rest[i - 1]);
            }
        }
        if aged_prefix_len(pending, now, grace) < pending.len() {
            assert(pending[aged_prefix_len(pending, now, grace) as int] == rest[aged_prefix_len(
                rest,
                now,
                grace,
            ) as int]);
        }
    }
}

/// Waiting out the newest entry is enough: when the pending list is
/// oldest-first and no stamp lies after `now`, every entry has aged at least
/// the grace period once the shutdown wait has passed, and that wait is never
/// more than one grace period.
pub proof fn law_shutdown_wait_ages_everything<T>(pending: Seq<Stamped<T>>, now: u64, grace: u64)
    requires
        oldest_first(pending),
        forall|i: int| 0 <= i < pending.len() ==> #[trigger] pending[i].stamp() <= now,
    ensures
        shutdown_wait(pending, now, grace) <= grace,
        forall|i: int|
            0 <= i < pending.len() ==> now + shutdown_wait(pending, now, grace) - (
            #[trigger] pending[i]).stamp() >= grace,
{
    if pending.len() > 0 {
        let last = pending.len() - 1;
        assert(pending[last].stamp() <= now);
        assert forall|i: int| 0 <= i < pending.len() implies now + shutdown_wait(
            pending,
            now,
            grace,
        ) - (#[trigger] pending[i]).stamp() >= grace by {
            assert(pending[i].stamp() <= pending[last].stamp());
        }
    }
}

/// A round keeps the pending list oldest-first: what it keeps is a suffix of
/// everything it started with and collected, in collection order, so if that
/// whole sequence was oldest-first, so is the new pending list.
pub proof fn law_round_keeps_oldest_first<T>(
    pending: Seq<Stamped<T>>,
    arrived: Seq<Stamped<T>>,
    late: Seq<Stamped<T>>,
    stopping: bool,
    now: u64,
    grace: u64,
)
    requires
        oldest_first(pending + arrived + late),
    ensures
        oldest_first(step_outcome(pending, arrived, late, stopping, now, grace).0),
{
    let all = pending + arrived;
    let k = aged_prefix_len(all, now, grace) as int;
    law_releases_only_aged(all, now, grace);
    let whole = pending + arrived + late;
    let kept = step_outcome(pending, arrived, late, stopping, now, grace).0;
    if stopping {
        assert(kept =~= whole.skip(k));
    } else {
        assert(kept =~= whole.skip(k).take(all.len() - k));
    }
    assert forall|i: int, j: int|
        0 <= i <= j < kept.len() implies #[trigger] kept[i].stamp() <= #[trigger] kept[j].stamp() by {
        assert(kept[i] == whole[i + k]);
        assert(kept[j] == whole[j + k]);
    }
}

/// The stopping round: when everything the round starts with and collects
/// is oldest-first and stamped no later than the round's reading `now`, then
/// once the wait it asks for has passed, every entry left for
/// [`Reclaimer::finish`] has been out of the cell for at least the grace
/// period; and every entry the round itself released had aged at `now`.
pub proof fn law_stopping_round_ages_everything<T>(
    pending: Seq<Stamped<T>>,
    arrived: Seq<Stamped<T>>,
    late: Seq<Stamped<T>>,
    now: u64,
    grace: u64,
)
    requires
        oldest_first(pending + arrived + late),
        forall|i: int|
            0 <= i < (pending + arrived + late).len() ==> #[trigger] (pending + arrived
                + late)[i].stamp() <= now,
    ensures
        ({
            let (kept, action) = step_outcome(pending, arrived, late, true, now, grace);
            let all = pending + arrived;
            &&& forall|i: int|
                0 <= i < aged_prefix_len(all, now, grace) ==> aged(#[trigger] all[i], now, grace)
            &&& action matches ReclaimerAction::Finish { wait } && forall|i: int|
                0 <= i < kept.len() ==> now + wait - (#[trigger] kept[i]).stamp() >= grace
        }),
{
    let all = pending + arrived;
    let whole = pending + arrived + late;
    let k = aged_prefix_len(all, now, grace) as int;
    law_releases_only_aged(all, now, grace);
    law_round_keeps_oldest_first(pending, arrived, late, true, now, grace);
    let kept = step_outcome(pending, arrived, late, true, now, grace).0;
    assert(kept =~= whole.skip(k));
    assert forall|i: int| 0 <= i < kept.len() implies #[trigger] kept[i].stamp() <= now by {
        assert(kept[i] == whole[i + k]);
    }
    law_shutdown_wait_ages_everything(kept, now, grace);
}

/// Nothing is lost, duplicated or reordered by a round: when every entry
/// admitted so far is either released or pending, then after a round that
/// takes in `arrived` (and, stopping, `late`) the admitted entries are again
/// exactly the released ones, now followed by the aged front of the pending
/// list, and then the kept ones; and every newly released entry had aged at
/// `now`.
pub proof fn law_round_conserves<T>(
    admitted: Seq<Stamped<T>>,
    released: Seq<Stamped<T>>,
    pending: Seq<Stamped<T>>,
    arrived: Seq<Stamped<T>>,
    late: Seq<Stamped<T>>,
    stopping: bool,
    now: u64,
    grace: u64,
)
    requires
        admitted == released + pending,
    ensures
        ({
            let all = pending + arrived;
            let k = aged_prefix_len(all, now, grace) as int;
            let extra = if stopping {
                late
            } else {
                Seq::<Stamped<T>>::empty()
            };
            &&& admitted + arrived + extra == (released + all.take(k)) + step_outcome(
                pending,
                arrived,
                late,
                stopping,
                now,
                grace,
            ).0
            &&& forall|i: int| 0 <= i < k ==> aged(#[trigger] all.take(k)[i], now, grace)
        }),
{
    let all = pending + arrived;
    let k = aged_prefix_len(all, now, grace) as int;
    law_releases_only_aged(all, now, grace);
    assert(all.take(k) + all.skip(k) =~= all);
    if stopping {
        assert(admitted + arrived + late =~= (released + all.take(k)) + (all.skip(k) + late));
    } else {
        assert(admitted + arrived + Seq::<Stamped<T>>::empty() =~= (released + all.take(k))
            + all.skip(k));
    }
    assert forall|i: int| 0 <= i < k implies aged(#[trigger] all.take(k)[i], now, grace) by {
        assert(all.take(k)[i] == all[i]);
    }
}

} // verus!
