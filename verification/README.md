# rcu_config_store

A configuration store with snapshot reads: readers copy out the whole
current value, the single writer replaces it whole, and the snapshots that
updates retire are released by a background reclaimer once they have aged a
grace period.

## Layout

- `src/` is the verified library (Verus).
  - `cell.rs`: `RcuCell`, the published snapshot behind a reader-writer lock
    from vstd. A read never sees a mix of two snapshots: every value read
    satisfies the invariant every published value satisfies
    (`RcuCell::with_invariant`, and `store_parts_with_invariant` for a whole
    store).
  - `ring.rs`: `RingBuffer`, a bounded FIFO queue over a power-of-two number
    of slots with wrapping head and tail counters, proved against a sequence
    model; the FIFO and capacity laws (`law_fifo`, `law_full_capacity_usable`).
  - `spsc.rs`: the reclaim channel, a producer and a consumer end sharing one
    ring buffer behind vstd's reader-writer lock, whose invariant fixes the
    channel's capacity.
  - `store.rs`: the grace-period policy. `Publisher` swaps in snapshots and
    queues the retired ones with their retirement tick; `Reclaimer::step` is
    one round of the reclaimer (collect, release what has aged, and at
    shutdown say how long to wait before releasing the rest), with the laws
    `law_releases_only_aged` and `law_shutdown_wait_ages_everything`.
  - `arcswap.rs`: the same handle API over the `arc-swap` crate.
- `app/` holds what runs around the library: the reclaimer thread, the
  shutdown flag, the monotonic clock, and the `store`, `store_with` and
  `Writer` handles built from the verified parts.
- `tests/` runs the library on concrete values.

## The grace period

The grace period is a heuristic, not a proof that no reader still holds a
retired snapshot. Here every snapshot is copied out under the cell's lock,
so releasing one early cannot corrupt a read; the policy still decides when
retired snapshots are released.

## What is not stated

The cell, the channel ends and the `arc-swap` slot are shared between
threads through `&self`. Their contracts state what holds of every outcome
(a read returns an admitted snapshot, a refused item comes back unchanged),
not which value another thread's operation produced last.

## Locks, not wait-free reads

Both the cell and the channel are protected by vstd's verified
reader-writer lock. Reads are no longer wait-free: a read can wait while a
swap exchanges the snapshot, and the two ends of the channel take turns on
the ring buffer. The lock does not drop what it holds when it is dropped, so
items still queued when both ends of a channel are gone, and the ring's slot
storage, are not released. The store's reclaimer collects every queued
snapshot before it stops, so only the slot storage stays allocated.

## Clock readings

The writer reads the clock after the swap, so a stamp is never earlier than
the moment its snapshot left the cell. Each reclaimer round reads the
shutdown flag, collects the channel (`Reclaimer::collect`), and only then
reads the clock and runs `Reclaimer::step`, so every collected stamp is no
later than the round's reading. One reading serves the whole round; it is
never later than the moments at which the round checks each entry, so a
round may keep an entry a little longer, and the shutdown wait may be a
little longer, than per-entry readings would give; it never releases
earlier. An entry counts as aged only at a reading no earlier than its stamp
(`aged`); `law_releases_only_aged` covers running rounds and
`law_stopping_round_ages_everything` the stopping round.
