//! A bounded FIFO ring buffer: the queue behind the reclaim channel.
//!
//! The buffer keeps two free-running counters, `head` (items taken so far)
//! and `tail` (items stored so far), both wrapping at the word size. A
//! counter names the slot `counter & mask`; because the capacity is a power of
//! two it divides the word size, so the slot sequence stays continuous across
//! the wrap, and `tail - head` (wrapping) is the number of stored items.

use vstd::prelude::*;
use vstd::arithmetic::div_mod::{
    lemma_mod_bound,
    lemma_mod_equivalence,
    lemma_mod_mod,
    lemma_mod_twice,
    lemma_small_mod,
    lemma_sub_mod_noop,
    lemma_add_mod_noop,
    lemma_mod_add_multiples_vanish,
    lemma_mod_sub_multiples_vanish,
};
use vstd::arithmetic::power2::{
    pow2,
    lemma2_to64,
    lemma_pow2_adds,
    lemma_pow2_pos,
    lemma_pow2_strictly_increases,
    lemma_pow2_unfold,
};
use vstd::bits::{low_bits_mask, lemma_usize_low_bits_mask_is_mod};

verus! {

/// The number of values a `usize` counter takes before it wraps.
pub open spec fn word() -> int {
    usize::MAX as int + 1
}

/// `n` is a power of two.
pub open spec fn is_pow2(n: int) -> bool {
    exists|k: nat| pow2(k) == n
}

/// The slot that holds the item `j` places after counter `h`, over `m` slots.
pub open spec fn slot_at(h: int, j: int, m: int) -> int {
    (h + j) % m
}

/// `pow2(usize::BITS)` is the counter modulus.
proof fn lemma_word_is_pow2()
    ensures
        pow2(usize::BITS as nat) == word(),
{
    lemma2_to64();
}

/// A power of two that fits in a `usize` has an exponent below the word size.
proof fn lemma_pow2_fits(k: nat)
    requires
        pow2(k) <= usize::MAX,
    ensures
        k < usize::BITS,
{
    lemma_word_is_pow2();
    if k >= usize::BITS {
        if k > usize::BITS {
            lemma_pow2_strictly_increases(usize::BITS as nat, k);
        }
    }
}

/// Reducing a counter modulo the word size does not change its slot.
proof fn lemma_wrap_keeps_slot(x: int, k: nat)
    requires
        k < usize::BITS,
    ensures
        (x % word()) % (pow2(k) as int) == x % (pow2(k) as int),
        pow2(k) * 2 <= word(),
{
    lemma_word_is_pow2();
    lemma_pow2_pos(k);
    lemma_pow2_pos((usize::BITS - k) as nat);
    lemma_pow2_adds(k, (usize::BITS - k) as nat);
    lemma_mod_mod(x, pow2(k) as int, pow2((usize::BITS - k) as nat) as int);
    lemma_pow2_adds(k, 1);
    assert(pow2(1) == 2) by {
        lemma2_to64();
    }
    if k + 1 < usize::BITS {
        lemma_pow2_strictly_increases(k + 1, usize::BITS as nat);
    }
}

/// Counters one word apart name the same slot.
proof fn lemma_congruent(a: int, b: int, k: nat)
    requires
        k < usize::BITS,
        a == b || a == b + word(),
    ensures
        a % (pow2(k) as int) == b % (pow2(k) as int),
{
    if a != b {
        lemma_mod_add_multiples_vanish(b, word());
    }
    lemma_wrap_keeps_slot(a, k);
    lemma_wrap_keeps_slot(b, k);
}

/// The offset of a reduced counter from `b` is the offset of the counter.
proof fn lemma_offset_of_reduced(a: int, b: int, m: int)
    requires
        m > 0,
    ensures
        ((a % m) - b) % m == (a - b) % m,
{
    lemma_sub_mod_noop(a, b, m);
    lemma_sub_mod_noop(a % m, b, m);
    lemma_mod_twice(a, m);
}

/// The slot at offset `c` from `h` is the only slot with that offset.
proof fn lemma_offset_unique(i: int, h: int, c: int, m: int)
    requires
        m > 0,
        0 <= i < m,
        0 <= c < m,
        (i - h) % m == c,
    ensures
        i == (h + c) % m,
{
    lemma_sub_mod_noop(i - h, c, m);
    lemma_small_mod(c as nat, m as nat);
    lemma_small_mod(0, m as nat);
    assert((c - c) % m == 0);
    lemma_mod_equivalence(i, h + c, m);
    lemma_small_mod(i as nat, m as nat);
}

/// The slot at offset `c` from `h` has offset `c`.
proof fn lemma_offset_of_slot(h: int, c: int, m: int)
    requires
        m > 0,
        0 <= c < m,
    ensures
        (((h + c) % m) - h) % m == c,
{
    lemma_offset_of_reduced(h + c, h, m);
    lemma_small_mod(c as nat, m as nat);
}

/// Offering `v` to a queue `q` that holds at most `cap` items: the queue
/// afterwards, and `Ok` when `v` was taken or `Err(v)` when the queue was full.
pub open spec fn push_step<T>(q: Seq<T>, cap: nat, v: T) -> (Seq<T>, Result<(), T>) {
    if q.len() < cap {
        (q.push(v), Ok(()))
    } else {
        (q, Err(v))
    }
}

/// Taking from a queue `q`: the queue afterwards, and its oldest item, or
/// `None` when it was empty.
pub open spec fn pop_step<T>(q: Seq<T>) -> (Seq<T>, Option<T>) {
    if q.len() > 0 {
        (q.drop_first(), Some(q[0]))
    } else {
        (q, None)
    }
}

/// Whether `n` is a power of two (zero is not).
pub fn is_power_of_two(n: usize) -> (r: bool)
    ensures
        r == is_pow2(n as int),
{
    let mut p: usize = 1;
    let ghost mut k: nat = 0;
    proof {
        lemma2_to64();
    }
    while p < n
        invariant
            p == pow2(k),
            p > 0,
            forall|j: nat| j < k ==> #[trigger] pow2(j) < n,
        decreases usize::MAX - p,
    {
        if p > usize::MAX / 2 {
            proof {
                lemma_pow2_unfold(k + 1);
                assert forall|j: nat| pow2(j) != n by {
                    if j > k + 1 {
                        lemma_pow2_strictly_increases(k + 1, j);
                    }
                }
            }
            return false;
        }
        p = p * 2;
        proof {
            lemma_pow2_unfold(k + 1);
            k = k + 1;
        }
    }
    proof {
        if p != n {
            assert forall|j: nat| pow2(j) != n by {
                if j > k {
                    lemma_pow2_strictly_increases(k, j);
                }
            }
        }
    }
    p == n
}

/// The slots and counters of a ring buffer.
struct RingState<T> {
    slots: Vec<Option<T>>,
    mask: usize,
    head: usize,
    tail: usize,
    log_len: Ghost<nat>,
}

impl<T> View for RingState<T> {
    type V = Seq<T>;

    /// The stored items, oldest first.
    closed spec fn view(&self) -> Seq<T> {
        Seq::new(
            self.count() as nat,
            |j: int| self.slots@[slot_at(self.head as int, j, self.cap())]->0,
        )
    }
}

impl<T> RingState<T> {
    /// How many items the buffer holds at most.
    closed spec fn max_len(&self) -> nat {
        self.slots@.len()
    }

    closed spec fn cap(&self) -> int {
        self.slots@.len() as int
    }

    closed spec fn count(&self) -> int {
        (self.tail - self.head) % word()
    }

    closed spec fn offset(&self, i: int) -> int {
        (i - self.head) % self.cap()
    }

    /// The counters, mask and slots agree.
    closed spec fn wf(&self) -> bool {
        &&& pow2(self.log_len@) == self.cap()
        &&& self.log_len@ < usize::BITS
        &&& self.mask == self.cap() - 1
        &&& self.count() <= self.cap()
        &&& forall|i: int|
            0 <= i < self.cap() ==> (#[trigger] self.slots@[i]).is_some() == (self.offset(i)
                < self.count())
    }

    proof fn lemma_slot_index(&self, counter: usize)
        requires
            self.wf(),
        ensures
            counter & self.mask == (counter as int) % self.cap(),
            0 <= (counter as int) % self.cap() < self.cap(),
    {
        lemma_usize_low_bits_mask_is_mod(counter, self.log_len@);
        lemma_wrap_keeps_slot(0, self.log_len@);
        lemma_pow2_pos(self.log_len@);
        assert(low_bits_mask(self.log_len@) == self.cap() - 1);
        assert((low_bits_mask(self.log_len@) as usize) == self.mask);
        assert((pow2(self.log_len@) as usize) as int == self.cap());
        lemma_mod_bound(counter as int, self.cap());
    }
}

impl<T> RingState<T> {
    /// The stored item count, read from the counters.
    proof fn lemma_count(&self)
        requires
            self.wf(),
        ensures
            self.count() == vstd::wrapping::usize_specs::wrapping_sub(self.tail, self.head),
            self.count() == 0 <==> self.tail == self.head,
            2 * self.cap() <= word(),
            self.count() < self.cap() ==> self.count() == (self.tail - self.head) % self.cap(),
    {
        let d = self.tail - self.head;
        if d >= 0 {
            lemma_small_mod(d as nat, word() as nat);
        } else {
            lemma_mod_add_multiples_vanish(d, word());
            lemma_small_mod((d + word()) as nat, word() as nat);
        }
        lemma_wrap_keeps_slot(d, self.log_len@);
        lemma_pow2_pos(self.log_len@);
        if self.count() < self.cap() {
            lemma_small_mod(self.count() as nat, self.cap() as nat);
        }
    }

    /// Makes an empty buffer with room for `capacity` items.
    fn with_capacity(capacity: usize) -> (ring: Self)
        requires
            is_pow2(capacity as int),
        ensures
            ring.wf(),
            ring@ == Seq::<T>::empty(),
            ring.max_len() == capacity,
    {
        let ghost k = choose|k: nat| pow2(k) == capacity;
        proof {
            lemma_pow2_fits(k);
            lemma_pow2_pos(k);
        }
        let mut slots: Vec<Option<T>> = Vec::new();
        while slots.len() < capacity
            invariant
                slots.len() <= capacity,
                forall|i: int| 0 <= i < slots.len() ==> (#[trigger] slots@[i]).is_none(),
            decreases capacity - slots.len(),
        {
            slots.push(None);
        }
        let ring = RingState { slots, mask: capacity - 1, head: 0, tail: 0, log_len: Ghost(k) };
        assert(ring.count() == 0) by {
            lemma_small_mod(0, word() as nat);
        }
        assert(ring@ =~= Seq::<T>::empty());
        ring
    }

    /// How many items the buffer holds at most.
    fn capacity(&self) -> (n: usize)
        requires
            self.wf(),
        ensures
            n == self.max_len(),
    {
        proof {
            self.lemma_count();
        }
        self.mask + 1
    }

    /// How many items are stored.
    fn len(&self) -> (n: usize)
        requires
            self.wf(),
        ensures
            n == self@.len(),
    {
        proof {
            self.lemma_count();
        }
        self.tail.wrapping_sub(self.head)
    }

    /// Appends `value` as the newest item; hands it back when the buffer is full.
    fn push(&mut self, value: T) -> (result: Result<(), T>)
        requires
            old(self).wf(),
        ensures
            final(self).wf(),
            final(self).max_len() == old(self).max_len(),
            (final(self)@, result) == push_step(old(self)@, old(self).max_len(), value),
        no_unwind
    {
        proof {
            self.lemma_count();
        }
        let len = if self.tail >= self.head {
            self.tail - self.head
        } else {
            usize::MAX - self.head + self.tail + 1
        };
        if len > self.mask {
            return Err(value);
        }
        let pos = self.tail & self.mask;
        let ghost cap = self.cap();
        let ghost h = self.head as int;
        let ghost t = self.tail as int;
        let ghost c = self.count();
        proof {
            self.lemma_slot_index(self.tail);
            lemma_offset_of_reduced(t, h, cap);
            lemma_offset_unique(pos as int, h, c, cap);
        }
        self.slots[pos] = Some(value);
        self.tail = if self.tail == usize::MAX {
            0
        } else {
            self.tail + 1
        };
        proof {
            if t + 1 <= usize::MAX {
                lemma_add_mod_noop(t - h, 1, word());
            } else {
                lemma_mod_sub_multiples_vanish(t + 1 - h, word());
                lemma_add_mod_noop(t - h, 1, word());
            }
            lemma_small_mod(1, word() as nat);
            lemma_small_mod((c + 1) as nat, word() as nat);
            assert(self.count() == c + 1);
            assert forall|i: int| 0 <= i < cap implies (#[trigger] self.slots@[i]).is_some() == (
            self.offset(i) < self.count()) by {
                if i != pos {
                    if self.offset(i) == c {
                        lemma_offset_unique(i, h, c, cap);
                    }
                }
            }
            assert forall|j: int| 0 <= j < c implies #[trigger] slot_at(h, j, cap) != pos as int by {
                lemma_offset_of_slot(h, j, cap);
            }
            assert(self@ =~= old(self)@.push(value));
        }
        Ok(())
    }

    /// Takes the oldest item out; `None` when the buffer is empty.
    fn pop(&mut self) -> (result: Option<T>)
        requires
            old(self).wf(),
        ensures
            final(self).wf(),
            final(self).max_len() == old(self).max_len(),
            (final(self)@, result) == pop_step(old(self)@),
        no_unwind
    {
        proof {
            self.lemma_count();
        }
        if self.tail == self.head {
            return None;
        }
        let pos = self.head & self.mask;
        let ghost cap = self.cap();
        let ghost h = self.head as int;
        let ghost t = self.tail as int;
        let ghost c = self.count();
        proof {
            self.lemma_slot_index(self.head);
            lemma_offset_of_reduced(h, h, cap);
            lemma_small_mod(0, cap as nat);
            assert(self.offset(pos as int) == 0);
        }
        let mut item: Option<T> = None;
        std::mem::swap(&mut self.slots[pos], &mut item);
        self.head = if self.head == usize::MAX {
            0
        } else {
            self.head + 1
        };
        proof {
            let h2 = self.head as int;
            let k = self.log_len@;
            assert(h2 == h + 1 || h2 == h + 1 - word());
            if h2 != h + 1 {
                lemma_mod_add_multiples_vanish(t - h - 1, word());
            }
            lemma_sub_mod_noop(t - h, 1, word());
            lemma_small_mod(1, word() as nat);
            lemma_small_mod((c - 1) as nat, word() as nat);
            assert(self.count() == c - 1);
            assert forall|i: int| 0 <= i < cap implies (#[trigger] self.slots@[i]).is_some() == (
            self.offset(i) < self.count()) by {
                let o = old(self).offset(i);
                lemma_congruent(i - h2, i - (h + 1), k);
                lemma_offset_of_reduced(i - h, 1, cap);
                lemma_mod_bound(i - h, cap);
                if i == pos {
                    lemma_mod_add_multiples_vanish(-1, cap);
                    lemma_small_mod((cap - 1) as nat, cap as nat);
                } else {
                    if o == 0 {
                        lemma_offset_unique(i, h, 0, cap);
                    }
                    lemma_small_mod((o - 1) as nat, cap as nat);
                }
            }
            assert forall|j: int| 0 <= j < c - 1 implies #[trigger] slot_at(h2, j, cap) == slot_at(
                h,
                j + 1,
                cap,
            ) && slot_at(h, j + 1, cap) != pos as int by {
                lemma_congruent(h + 1 + j, h2 + j, k);
                lemma_offset_of_slot(h, j + 1, cap);
            }
            assert(self@ =~= old(self)@.drop_first());
        }
        item
    }
}

/// Bounded first-in first-out queue over a power-of-two number of slots.
pub struct RingBuffer<T> {
    state: RingState<T>,
}

impl<T> View for RingBuffer<T> {
    type V = Seq<T>;

    /// The stored items, oldest first.
    closed spec fn view(&self) -> Seq<T> {
        self.state@
    }
}

impl<T> RingBuffer<T> {
    #[verifier::type_invariant]
    closed spec fn inv(&self) -> bool {
        self.state.wf()
    }

    /// How many items the buffer holds at most.
    pub closed spec fn max_len(&self) -> nat {
        self.state.max_len()
    }

    /// Makes an empty buffer with room for `capacity` items.
    pub fn with_capacity(capacity: usize) -> (ring: Self)
        requires
            is_pow2(capacity as int),
        ensures
            ring@ == Seq::<T>::empty(),
            ring.max_len() == capacity,
    {
        RingBuffer { state: RingState::with_capacity(capacity) }
    }

    /// How many items the buffer holds at most.
    pub fn capacity(&self) -> (n: usize)
        ensures
            n == self.max_len(),
    {
        proof {
            use_type_invariant(self);
        }
        self.state.capacity()
    }

    /// How many items are stored.
    pub fn len(&self) -> (n: usize)
        ensures
            n == self@.len(),
            n <= self.max_len(),
    {
        proof {
            use_type_invariant(self);
        }
        self.state.len()
    }

    /// Appends `value` as the newest item; hands it back when the buffer is
    /// full.
    pub fn push(&mut self, value: T) -> (result: Result<(), T>)
        ensures
            final(self).max_len() == old(self).max_len(),
            (final(self)@, result) == push_step(old(self)@, old(self).max_len(), value),
    {
        proof {
            use_type_invariant(&*self);
        }
        self.state.push(value)
    }

    /// Takes the oldest item out; `None` when the buffer is empty.
    pub fn pop(&mut self) -> (result: Option<T>)
        ensures
            final(self).max_len() == old(self).max_len(),
            (final(self)@, result) == pop_step(old(self)@),
    {
        proof {
            use_type_invariant(&*self);
        }
        self.state.pop()
    }
}

/// Runs `ops` against a queue `q` that holds at most `cap` items, where
/// `Some(v)` offers `v` and `None` takes the oldest item. Returns the queue
/// afterwards, the items that were taken in, and the items that came out.
pub open spec fn run_ops<T>(q: Seq<T>, cap: nat, ops: Seq<Option<T>>) -> (Seq<T>, Seq<T>, Seq<T>)
    decreases ops.len(),
{
    if ops.len() == 0 {
        (q, Seq::empty(), Seq::empty())
    } else {
        let (q1, taken, given) = match ops[0] {
            Some(v) => {
                let (q1, r) = push_step(q, cap, v);
                (q1, if r is Ok { seq![v] } else { Seq::empty() }, Seq::empty())
            },
            None => {
                let (q1, r) = pop_step(q);
                (q1, Seq::empty(), match r {
                    Some(x) => seq![x],
                    None => Seq::empty(),
                })
            },
        };
        let rest = run_ops(q1, cap, ops.drop_first());
        (rest.0, taken + rest.1, given + rest.2)
    }
}

/// First in, first out: over any sequence of offers and takes, the items
/// that come out, followed by those still queued, are exactly the items that
/// were queued at the start followed by those taken in, in order; nothing is
/// lost, duplicated or reordered, and the queue never exceeds its capacity.
pub proof fn law_fifo<T>(q: Seq<T>, cap: nat, ops: Seq<Option<T>>)
    requires
        q.len() <= cap,
    ensures
        ({
            let (end, taken, given) = run_ops(q, cap, ops);
            &&& q + taken == given + end
            &&& end.len() <= cap
        }),
    decreases ops.len(),
{
    if ops.len() > 0 {
        let rest = ops.drop_first();
        match ops[0] {
            Some(v) => {
                let (q1, r) = push_step(q, cap, v);
                law_fifo(q1, cap, rest);
                let (end, taken, given) = run_ops(q1, cap, rest);
                if r is Ok {
                    assert(q + (seq![v] + taken) =~= q1 + taken);
                } else {
                    assert(q + (Seq::<T>::empty() + taken) =~= q1 + taken);
                }
                assert(Seq::<T>::empty() + given =~= given);
            },
            None => {
                let (q1, r) = pop_step(q);
                law_fifo(q1, cap, rest);
                let (end, taken, given) = run_ops(q1, cap, rest);
                assert(Seq::<T>::empty() + taken =~= taken);
                if q.len() > 0 {
                    assert(q =~= seq![q[0]] + q1);
                    assert(seq![q[0]] + given + end =~= seq![q[0]] + (given + end));
                    assert(q + taken =~= seq![q[0]] + (q1 + taken));
                } else {
                    assert(Seq::<T>::empty() + given =~= given);
                }
            },
        }
    } else {
        assert(q + Seq::<T>::empty() =~= q);
        assert(Seq::<T>::empty() + q =~= q);
    }
}

/// Offers every item of `xs` in turn.
pub open spec fn offers<T>(xs: Seq<T>) -> Seq<Option<T>> {
    xs.map_values(|x: T| Some(x))
}

/// A queue with room for `xs` takes every item of `xs`, appends them in
/// order, and gives nothing out.
pub proof fn law_offers_fit<T>(q: Seq<T>, cap: nat, xs: Seq<T>)
    requires
        q.len() + xs.len() <= cap,
    ensures
        run_ops(q, cap, offers(xs)) == (q + xs, xs, Seq::<T>::empty()),
    decreases xs.len(),
{
    if xs.len() > 0 {
        let rest = xs.drop_first();
        assert(offers(xs).drop_first() =~= offers(rest));
        law_offers_fit(q.push(xs[0]), cap, rest);
        assert(q.push(xs[0]) + rest =~= q + xs);
        assert(seq![xs[0]] + rest =~= xs);
        assert(Seq::<T>::empty() + Seq::<T>::empty() =~= Seq::<T>::empty());
    } else {
        assert(q + xs =~= q);
    }
}

/// Every slot is usable: an empty queue of capacity `cap` takes `cap` items,
/// and the next offer is refused and hands its item back unchanged.
pub proof fn law_full_capacity_usable<T>(cap: nat, xs: Seq<T>, v: T)
    requires
        xs.len() == cap,
    ensures
        run_ops(Seq::<T>::empty(), cap, offers(xs)).1 == xs,
        run_ops(Seq::<T>::empty(), cap, offers(xs)).0 == xs,
        push_step(xs, cap, v) == (xs, Err::<(), T>(v)),
{
    law_offers_fit(Seq::<T>::empty(), cap, xs);
    assert(Seq::<T>::empty() + xs =~= xs);
}

} // verus!
