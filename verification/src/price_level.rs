//! A price level: the queue of orders resting at one price, in time priority.

use vstd::prelude::*;
use vstd::std_specs::cmp::{PartialEqSpecImpl, PartialOrdSpecImpl};
use std::cmp::Ordering;
use crate::external::{now_nanos, fnv_insert, fnv_get, fnv_remove};
use crate::order::{
    Order, OrderId, Price, Quantity, total_remaining, ids_unique, contains_id, position_of_id,
    lemma_position_of_id, lemma_total_remaining_push, lemma_total_remaining_remove,
    lemma_total_remaining_bound, lemma_total_remaining_concat, lemma_total_remaining_update,
    lemma_total_remaining_single,
};
use crate::ring_buffer::{
    OrderRingBuffer, present_in, slot_of, lemma_present_in_source, lemma_present_in_at,
    lemma_present_in_len, lemma_distinct_slots, lemma_slot_in_range, lemma_first_present,
    lemma_present_in_holes, lemma_present_in_split,
};

verus! {

broadcast use vstd::std_specs::hash::group_hash_axioms;

/// Price level in the order book
pub struct PriceLevel {
    /// Price of this level
    price: Price,
    /// Total quantity at this price level
    total_quantity: Quantity,
    /// Number of orders at this price level
    order_count: usize,
    /// Queue of orders at this price level
    order_queue: OrderRingBuffer<Order>,
    /// Last update timestamp
    last_updated: u64,
    /// Map of sequence to order ID for fast lookup
    sequence_to_id: fnv::FnvHashMap<usize, OrderId>,
    /// Map of order ID (its 128-bit value) to sequence for fast lookup
    id_to_sequence: fnv::FnvHashMap<u128, usize>,
}

/// Price level data for serialization
#[derive(Debug, Clone, Copy, PartialEq, Eq, Structural)]
pub struct PriceLevelData {
    /// Price of this level
    pub price: Price,
    /// Total quantity at this price level
    pub total_quantity: Quantity,
    /// Number of orders at this price level
    pub order_count: usize,
    /// Last update timestamp
    pub last_updated: u64,
}

impl PriceLevel {
    /// The orders resting at this level, oldest first.
    pub closed spec fn queued(&self) -> Seq<Order> {
        self.order_queue.items()
    }

    /// The level's price.
    pub closed spec fn level_price(&self) -> Price {
        self.price
    }

    /// When the level last changed.
    pub closed spec fn updated_at(&self) -> u64 {
        self.last_updated
    }

    /// The order published at `sequence`, if it is still queued here.
    pub closed spec fn order_at(&self, sequence: int) -> Option<Order> {
        if self.order_queue.read_seq() <= sequence < self.order_queue.commit_seq() {
            self.order_queue.slot(sequence)
        } else {
            None
        }
    }

    /// The position in `orders()` of the order published at `sequence`.
    pub closed spec fn position_of_sequence(&self, sequence: int) -> int {
        present_in(self.order_queue.slots(), self.order_queue.read_seq(), sequence).len() as int
    }

    /// The number of slots in the level's queue.
    pub closed spec fn queue_capacity(&self) -> nat {
        self.order_queue.cap()
    }

    /// Sequences handed out and not yet read.
    pub closed spec fn sequences_used(&self) -> int {
        self.order_queue.write_seq() - self.order_queue.read_seq()
    }

    /// Nothing has been read from the queue yet.
    pub closed spec fn queued_from_zero(&self) -> bool {
        self.order_queue.read_seq() == 0
    }

    /// Another order can join the queue.
    pub closed spec fn has_room(&self) -> bool {
        &&& self.order_queue.write_seq() - self.order_queue.read_seq() < self.order_queue.cap()
        &&& self.order_queue.write_seq() < usize::MAX
    }

    closed spec fn live(&self, s: usize) -> bool {
        &&& self.order_queue.read_seq() <= s < self.order_queue.commit_seq()
        &&& self.order_queue.slot(s as int) is Some
    }

    /// Internal consistency: the counters match the queue and the two maps
    /// index exactly the queued orders.
    pub closed spec fn wf(&self) -> bool {
        let q = self.order_queue;
        &&& q.wf()
        &&& q.unwrapped()
        &&& q.settled()
        &&& self.total_quantity == total_remaining(q.items())
        &&& self.order_count == q.items().len()
        &&& forall|s: usize| #[trigger] self.live(s) ==> {
            let o = q.slot(s as int)->0;
            &&& self.id_to_sequence@.contains_key(o.id.0)
            &&& self.id_to_sequence@[o.id.0] == s
            &&& self.sequence_to_id@.contains_key(s)
            &&& self.sequence_to_id@[s] == o.id
        }
        &&& forall|id: u128| #[trigger] self.id_to_sequence@.contains_key(id) ==> {
            &&& self.live(self.id_to_sequence@[id])
            &&& q.slot(self.id_to_sequence@[id] as int)->0.id.0 == id
        }
        &&& forall|s: usize| #[trigger] self.sequence_to_id@.contains_key(s) ==> self.live(s)
    }

    /// A well-formed level counts its orders in a `usize`.
    pub proof fn lemma_count(&self)
        requires
            self.wf(),
        ensures
            self.queued().len() <= usize::MAX,
    {
    }

    /// In a well-formed level ids are unique, and an id is indexed exactly
    /// when an order with it is queued, at its sequence.
    pub proof fn lemma_ids(&self)
        requires
            self.wf(),
        ensures
            ids_unique(self.queued()),
    {
        let q = self.order_queue;
        let lo = q.read_seq();
        let hi = q.commit_seq();
        assert forall|i: int, j: int|
            0 <= i < self.queued().len() && 0 <= j < self.queued().len() && i != j
            implies #[trigger] self.queued()[i].id != #[trigger] self.queued()[j].id by {
            let si = lemma_present_in_source(q.slots(), lo, hi, i);
            let sj = lemma_present_in_source(q.slots(), lo, hi, j);
            assert(self.live(si as usize));
            assert(self.live(sj as usize));
        }
    }

    proof fn lemma_lookup(&self, id: OrderId)
        requires
            self.wf(),
        ensures
            self.id_to_sequence@.contains_key(id.0) <==> contains_id(self.queued(), id),
            self.id_to_sequence@.contains_key(id.0) ==> {
                let s = self.id_to_sequence@[id.0] as int;
                &&& position_of_id(self.queued(), id) == self.position_of_sequence(s)
                &&& self.order_at(s) == Some(self.queued()[position_of_id(self.queued(), id)])
            },
    {
        let q = self.order_queue;
        let lo = q.read_seq();
        let hi = q.commit_seq();
        self.lemma_ids();
        if self.id_to_sequence@.contains_key(id.0) {
            let s = self.id_to_sequence@[id.0];
            lemma_present_in_at(q.slots(), lo, hi, s as int);
            let k = self.position_of_sequence(s as int);
            lemma_position_of_id(self.queued(), id, k);
        }
        if contains_id(self.queued(), id) {
            let k = choose|k: int| 0 <= k < self.queued().len() && #[trigger] self.queued()[k].id == id;
            let s = lemma_present_in_source(q.slots(), lo, hi, k);
            assert(self.live(s as usize));
        }
    }

    /// Create a new, empty price level whose queue holds `buffer_size` orders
    /// (rounded up to a power of two).
    pub fn new(price: Price, buffer_size: usize) -> (level: Self)
        requires
            buffer_size <= usize::MAX / 2 + 1,
        ensures
            level.wf(),
            level.level_price() == price,
            level.queued() == Seq::<Order>::empty(),
            level.has_room(),
            level.queue_capacity() >= buffer_size,
            level.sequences_used() == 0,
            level.queued_from_zero(),
    {
        let order_queue = OrderRingBuffer::new(buffer_size);
        let level = PriceLevel {
            price,
            total_quantity: 0,
            order_count: 0,
            order_queue,
            last_updated: now_nanos(),
            sequence_to_id: fnv::FnvHashMap::default(),
            id_to_sequence: fnv::FnvHashMap::default(),
        };
        proof {
            assert(level.queued() =~= Seq::<Order>::empty());
            assert forall|s: usize| !#[trigger] level.live(s) by {}
        }
        level
    }

    /// Get the price of this level
    pub fn price(&self) -> (p: Price)
        ensures
            p == self.level_price(),
    {
        self.price
    }

    /// Get the total quantity at this price level
    pub fn total_quantity(&self) -> (q: Quantity)
        requires
            self.wf(),
        ensures
            q == total_remaining(self.queued()),
    {
        self.total_quantity
    }

    /// Get the number of orders at this price level
    pub fn order_count(&self) -> (n: usize)
        requires
            self.wf(),
        ensures
            n == self.queued().len(),
    {
        self.order_count
    }

    /// Get the last update timestamp
    pub fn last_updated(&self) -> (t: u64)
        ensures
            t == self.updated_at(),
    {
        self.last_updated
    }

    /// Is this price level empty
    pub fn is_empty(&self) -> (b: bool)
        requires
            self.wf(),
        ensures
            b == (self.queued().len() == 0),
    {
        self.order_count == 0
    }

    /// Add an order to the back of this level's queue; returns its id.
    pub fn add_order(&mut self, order: Order) -> (id: OrderId)
        requires
            old(self).wf(),
            old(self).queued().len() <= usize::MAX / 2,
            !contains_id(old(self).queued(), order.id),
            total_remaining(old(self).queued()) + order.remaining_quantity <= u64::MAX,
        ensures
            final(self).wf(),
            id == order.id,
            final(self).queued() == old(self).queued().push(order),
            final(self).level_price() == old(self).level_price(),
    {
        if !self.order_queue.has_room() {
            self.regrow();
        }
        self.append_order(order)
    }

    /// Move the queued orders, in order, into a fresh queue with room for at
    /// least one more.
    fn regrow(&mut self)
        requires
            old(self).wf(),
            old(self).queued().len() <= usize::MAX / 2,
        ensures
            final(self).wf(),
            final(self).has_room(),
            final(self).queued() == old(self).queued(),
            final(self).level_price() == old(self).level_price(),
    {
        let ghost orig = self.queued();
        let ghost price0 = self.level_price();
        let count = self.order_count;
        let cap = self.order_queue.capacity();
        let size = if count < cap { cap } else { count + 1 };
        proof {
            lemma_present_in_len(self.order_queue.slots(), self.order_queue.read_seq(), self.order_queue.commit_seq());
            self.lemma_ids();
            if count < cap {
                self.order_queue.lemma_cap_bound();
            }
        }
        let mut fresh = PriceLevel::new(self.price, size);
        while self.order_count > 0
            invariant
                self.wf(),
                fresh.wf(),
                fresh.level_price() == price0,
                self.level_price() == price0,
                fresh.queued() + self.queued() == orig,
                ids_unique(orig),
                total_remaining(orig) <= u64::MAX,
                orig.len() < fresh.order_queue.cap(),
                fresh.order_queue.read_seq() == 0,
                fresh.order_queue.write_seq() == fresh.queued().len(),
                fresh.order_queue.settled(),
            decreases self.queued().len(),
        {
            let ghost before = self.queued();
            let next = self.next_order();
            match next {
                Some((_, o)) => {
                    proof {
                        assert(before =~= seq![o] + self.queued());
                        assert(fresh.queued().push(o) + self.queued() =~= orig);
                        let k = fresh.queued().len() as int;
                        assert(orig[k] == o);
                        assert forall|i: int| 0 <= i < fresh.queued().len() implies #[trigger] fresh.queued()[i].id != o.id by {
                            assert(orig[i] == fresh.queued()[i]);
                        }
                        lemma_total_remaining_concat(fresh.queued().push(o), self.queued());
                        lemma_total_remaining_push(fresh.queued(), o);
                    }
                    fresh.append_order(o);
                },
                None => {},
            }
        }
        proof {
            assert(self.queued().len() == 0);
            assert(fresh.queued() =~= orig);
        }
        *self = fresh;
    }

    /// Append an order to a queue with room for it.
    fn append_order(&mut self, order: Order) -> (id: OrderId)
        requires
            old(self).wf(),
            old(self).has_room(),
            !contains_id(old(self).queued(), order.id),
            total_remaining(old(self).queued()) + order.remaining_quantity <= u64::MAX,
        ensures
            final(self).wf(),
            id == order.id,
            final(self).queued() == old(self).queued().push(order),
            final(self).level_price() == old(self).level_price(),
            final(self).order_queue.cap() == old(self).order_queue.cap(),
            final(self).order_queue.read_seq() == old(self).order_queue.read_seq(),
            final(self).order_queue.write_seq() == old(self).order_queue.write_seq() + 1,
    {
        let id = order.id;
        let quantity = order.remaining_quantity;
        let ghost pre = *self;
        proof {
            lemma_present_in_len(pre.order_queue.slots(), pre.order_queue.read_seq(), pre.order_queue.commit_seq());
            lemma_total_remaining_push(pre.queued(), order);
        }
        let sequence = self.order_queue.publish_direct(order);
        fnv_insert(&mut self.sequence_to_id, sequence, id);
        fnv_insert(&mut self.id_to_sequence, id.0, sequence);
        self.total_quantity = self.total_quantity + quantity;
        self.order_count = self.order_count + 1;
        self.last_updated = now_nanos();
        proof {
            let q0 = pre.order_queue;
            let q = self.order_queue;
            let c = q0.cap();
            assert forall|s: usize| #[trigger] self.live(s) implies {
                let o = q.slot(s as int)->0;
                &&& self.id_to_sequence@.contains_key(o.id.0)
                &&& self.id_to_sequence@[o.id.0] == s
                &&& self.sequence_to_id@.contains_key(s)
                &&& self.sequence_to_id@[s] == o.id
            } by {
                if s != sequence {
                    lemma_distinct_slots(s as int, sequence as int, c);
                    lemma_slot_in_range(s as int, c);
                    lemma_slot_in_range(sequence as int, c);
                    assert(pre.live(s));
                    lemma_present_in_at(q0.slots(), q0.read_seq(), q0.commit_seq(), s as int);
                }
            }
            assert forall|i: u128| #[trigger] self.id_to_sequence@.contains_key(i) implies {
                &&& self.live(self.id_to_sequence@[i])
                &&& q.slot(self.id_to_sequence@[i] as int)->0.id.0 == i
            } by {
                if i != id.0 {
                    let s = pre.id_to_sequence@[i];
                    assert(pre.live(s));
                    lemma_distinct_slots(s as int, sequence as int, c);
                    lemma_slot_in_range(s as int, c);
                    lemma_slot_in_range(sequence as int, c);
                }
            }
            assert forall|s: usize| #[trigger] self.sequence_to_id@.contains_key(s) implies self.live(s) by {
                if s != sequence {
                    assert(pre.live(s));
                    lemma_distinct_slots(s as int, sequence as int, c);
                    lemma_slot_in_range(s as int, c);
                    lemma_slot_in_range(sequence as int, c);
                }
            }
        }
        id
    }

    /// The state left after the order of a live sequence left the queue keeps
    /// the maps and counters consistent.
    proof fn lemma_removed(self, pre: Self, sequence: usize, removed: Order)
        requires
            pre.wf(),
            pre.live(sequence),
            pre.order_queue.slot(sequence as int) == Some(removed),
            self.order_queue.wf(),
            self.order_queue.cap() == pre.order_queue.cap(),
            self.order_queue.read_seq() <= sequence + 1,
            pre.order_queue.read_seq() <= self.order_queue.read_seq(),
            forall|t: int| pre.order_queue.read_seq() <= t < self.order_queue.read_seq() ==>
                #[trigger] pre.order_queue.slot(t) is None || t == sequence,
            self.order_queue.commit_seq() == pre.order_queue.commit_seq(),
            self.order_queue.write_seq() == pre.order_queue.write_seq(),
            self.order_queue.slots() == pre.order_queue.slots().update(
                slot_of(sequence as int, pre.order_queue.cap()),
                None,
            ),
            self.order_queue.items() == pre.queued().remove(pre.position_of_sequence(sequence as int)),
            0 <= pre.position_of_sequence(sequence as int) < pre.queued().len(),
            pre.queued()[pre.position_of_sequence(sequence as int)] == removed,
            self.sequence_to_id@ == pre.sequence_to_id@.remove(sequence),
            self.id_to_sequence@ == pre.id_to_sequence@.remove(removed.id.0),
            self.total_quantity == pre.total_quantity - removed.remaining_quantity,
            self.order_count == pre.order_count - 1,
        ensures
            self.wf(),
    {
        let q0 = pre.order_queue;
        let q = self.order_queue;
        let c = q0.cap();
        lemma_total_remaining_remove(pre.queued(), pre.position_of_sequence(sequence as int));
        lemma_slot_in_range(sequence as int, c);
        assert(self.total_quantity == total_remaining(q.items()));
        assert forall|s: usize| #[trigger] self.live(s) implies {
            let o = q.slot(s as int)->0;
            &&& self.id_to_sequence@.contains_key(o.id.0)
            &&& self.id_to_sequence@[o.id.0] == s
            &&& self.sequence_to_id@.contains_key(s)
            &&& self.sequence_to_id@[s] == o.id
        } by {
            assert(s != sequence);
            if s < sequence {
                lemma_distinct_slots(s as int, sequence as int, c);
            } else {
                lemma_distinct_slots(sequence as int, s as int, c);
            }
            lemma_slot_in_range(s as int, c);
            assert(pre.live(s));
        }
        assert forall|i: u128| #[trigger] self.id_to_sequence@.contains_key(i) implies {
            &&& self.live(self.id_to_sequence@[i])
            &&& q.slot(self.id_to_sequence@[i] as int)->0.id.0 == i
        } by {
            let s = pre.id_to_sequence@[i];
            assert(pre.live(s));
            assert(s != sequence);
            if s < sequence {
                lemma_distinct_slots(s as int, sequence as int, c);
            } else {
                lemma_distinct_slots(sequence as int, s as int, c);
            }
            lemma_slot_in_range(s as int, c);
            assert(!(q0.read_seq() <= s < q.read_seq()));
        }
        assert forall|s: usize| #[trigger] self.sequence_to_id@.contains_key(s) implies self.live(s) by {
            assert(pre.live(s));
            if s < sequence {
                lemma_distinct_slots(s as int, sequence as int, c);
            } else {
                lemma_distinct_slots(sequence as int, s as int, c);
            }
            lemma_slot_in_range(s as int, c);
            assert(!(q0.read_seq() <= s < q.read_seq()));
        }
    }

    /// Remove the order with the given ID from this price level, if it is here.
    pub fn remove_order_by_id(&mut self, order_id: &OrderId) -> (r: Option<Order>)
        requires
            old(self).wf(),
        ensures
            final(self).wf(),
            final(self).level_price() == old(self).level_price(),
            if contains_id(old(self).queued(), *order_id) {
                let k = position_of_id(old(self).queued(), *order_id);
                &&& r == Some(old(self).queued()[k])
                &&& final(self).queued() == old(self).queued().remove(k)
            } else {
                &&& r is None
                &&& *final(self) == *old(self)
            },
    {
        proof { self.lemma_lookup(*order_id); }
        let sequence = match fnv_get(&self.id_to_sequence, &order_id.0) {
            Some(s) => s,
            None => return None,
        };
        let ghost pre = *self;
        proof { assert(pre.live(sequence)); }
        let order = match self.order_queue.remove(sequence) {
            Some(o) => o,
            None => return None,
        };
        fnv_remove(&mut self.sequence_to_id, &sequence);
        fnv_remove(&mut self.id_to_sequence, &order_id.0);
        proof {
            lemma_total_remaining_bound(pre.queued(), pre.position_of_sequence(sequence as int));
        }
        self.total_quantity = self.total_quantity - order.remaining_quantity;
        self.order_count = self.order_count - 1;
        self.last_updated = now_nanos();
        proof {
            self.lemma_removed(pre, sequence, order);
        }
        Some(order)
    }

    /// Remove the order published at `sequence` from this price level, if it is still here.
    pub fn remove_order(&mut self, sequence: usize) -> (r: Option<Order>)
        requires
            old(self).wf(),
        ensures
            final(self).wf(),
            final(self).level_price() == old(self).level_price(),
            match old(self).order_at(sequence as int) {
                Some(o) => {
                    let k = old(self).position_of_sequence(sequence as int);
                    &&& r == Some(o)
                    &&& 0 <= k < old(self).queued().len()
                    &&& old(self).queued()[k] == o
                    &&& final(self).queued() == old(self).queued().remove(k)
                },
                None => {
                    &&& r is None
                    &&& *final(self) == *old(self)
                },
            },
    {
        proof {
            if self.order_at(sequence as int) is Some {
                assert(self.live(sequence));
            }
        }
        let order_id = match fnv_get(&self.sequence_to_id, &sequence) {
            Some(id) => id,
            None => return None,
        };
        let ghost pre = *self;
        proof { assert(pre.live(sequence)); }
        let order = match self.order_queue.remove(sequence) {
            Some(o) => o,
            None => return None,
        };
        fnv_remove(&mut self.sequence_to_id, &sequence);
        fnv_remove(&mut self.id_to_sequence, &order_id.0);
        proof {
            lemma_total_remaining_bound(pre.queued(), pre.position_of_sequence(sequence as int));
        }
        self.total_quantity = self.total_quantity - order.remaining_quantity;
        self.order_count = self.order_count - 1;
        self.last_updated = now_nanos();
        proof {
            self.lemma_removed(pre, sequence, order);
        }
        Some(order)
    }

    /// Take the next order in time priority (for matching); returns it with
    /// its sequence. The level's counters and maps drop it too.
    pub fn next_order(&mut self) -> (r: Option<(usize, Order)>)
        requires
            old(self).wf(),
        ensures
            final(self).wf(),
            final(self).level_price() == old(self).level_price(),
            if old(self).queued().len() > 0 {
                &&& r matches Some((s, o)) && o == old(self).queued()[0]
                &&& final(self).queued() == old(self).queued().drop_first()
            } else {
                &&& r is None
                &&& final(self).queued() == old(self).queued()
            },
    {
        let ghost pre = *self;
        let next = self.order_queue.try_next();
        match next {
            Some((sequence, order)) => {
                proof {
                    let q0 = pre.order_queue;
                    lemma_first_present(q0.slots(), q0.read_seq(), q0.commit_seq());
                    assert(pre.live(sequence));
                    lemma_present_in_holes(q0.slots(), q0.read_seq(), sequence as int);
                    assert(pre.position_of_sequence(sequence as int) == 0);
                    assert(pre.queued().remove(0) =~= pre.queued().drop_first());
                    lemma_total_remaining_bound(pre.queued(), 0);
                }
                fnv_remove(&mut self.sequence_to_id, &sequence);
                fnv_remove(&mut self.id_to_sequence, &order.id.0);
                self.total_quantity = self.total_quantity - order.remaining_quantity;
                self.order_count = self.order_count - 1;
                proof {
                    self.lemma_removed(pre, sequence, order);
                }
                Some((sequence, order))
            },
            None => {
                proof {
                    let q0 = pre.order_queue;
                    lemma_first_present(q0.slots(), q0.read_seq(), q0.commit_seq());
                    lemma_present_in_holes(q0.slots(), q0.read_seq(), q0.commit_seq());
                    assert forall|s: usize| !#[trigger] self.live(s) by {
                        if pre.live(s) {
                            assert(false);
                        }
                    }
                    assert forall|i: u128| !#[trigger] self.id_to_sequence@.contains_key(i) by {
                        if self.id_to_sequence@.contains_key(i) {
                            assert(pre.live(self.id_to_sequence@[i]));
                        }
                    }
                    assert forall|s: usize| !#[trigger] self.sequence_to_id@.contains_key(s) by {
                        if self.sequence_to_id@.contains_key(s) {
                            assert(pre.live(s));
                        }
                    }
                    assert(self.queued() =~= Seq::<Order>::empty());
                }
                None
            },
        }
    }

    /// Get a copy of the order with the given ID, if it is here.
    pub fn get_order_by_id(&self, order_id: &OrderId) -> (r: Option<Order>)
        requires
            self.wf(),
        ensures
            if contains_id(self.queued(), *order_id) {
                r matches Some(o) && o@ == self.queued()[position_of_id(self.queued(), *order_id)]@
            } else {
                r is None
            },
    {
        proof { self.lemma_lookup(*order_id); }
        let sequence = match fnv_get(&self.id_to_sequence, &order_id.0) {
            Some(s) => s,
            None => return None,
        };
        self.order_queue.get(sequence)
    }

    /// Get a copy of the order published at `sequence`, if it is still here.
    pub fn get_order(&self, sequence: usize) -> (r: Option<Order>)
        requires
            self.wf(),
        ensures
            match self.order_at(sequence as int) {
                Some(o) => r matches Some(c) && c@ == o@,
                None => r is None,
            },
    {
        self.order_queue.get(sequence)
    }

    /// Copies of all orders at this price level, oldest first.
    pub fn orders(&self) -> (v: Vec<Order>)
        requires
            self.wf(),
        ensures
            v@.len() == self.queued().len(),
            forall|i: int| 0 <= i < v@.len() ==> (#[trigger] v@[i])@ == self.queued()[i]@,
    {
        let ghost slots = self.order_queue.slots();
        let ghost lo = self.order_queue.read_seq();
        let ghost hi = self.order_queue.commit_seq();
        let mut it = self.order_queue.iter();
        let mut v: Vec<Order> = Vec::new();
        loop
            invariant
                self.wf(),
                it.source() == self.order_queue,
                lo == it.source().read_seq(),
                hi == it.end(),
                hi == it.source().commit_seq(),
                slots == it.source().slots(),
                lo <= it.position() <= hi,
                v@.len() == present_in(slots, lo, it.position()).len(),
                forall|i: int| 0 <= i < v@.len() ==> (#[trigger] v@[i])@ == present_in(slots, lo, it.position())[i]@,
            ensures
                v@.len() == present_in(slots, lo, hi).len(),
                forall|i: int| 0 <= i < v@.len() ==> (#[trigger] v@[i])@ == present_in(slots, lo, hi)[i]@,
            decreases hi - it.position(),
        {
            let ghost pos = it.position();
            let next = it.next();
            proof {
                lemma_present_in_split(slots, lo, pos, it.position());
                lemma_present_in_split(slots, pos, it.position(), hi);
            }
            match next {
                Some(o) => {
                    v.push(o);
                },
                None => {
                    proof {
                        lemma_present_in_split(slots, lo, it.position(), hi);
                        assert(present_in(slots, it.position(), hi) =~= Seq::<Order>::empty());
                        assert(present_in(slots, lo, it.position()) + Seq::<Order>::empty()
                            =~= present_in(slots, lo, it.position()));
                    }
                    break;
                },
            }
        }
        v
    }

    /// Recompute the total quantity from the queued orders.
    fn recalculate_total_quantity(&mut self)
        requires
            old(self).order_queue.wf(),
            total_remaining(old(self).order_queue.items()) <= u64::MAX,
        ensures
            final(self).total_quantity == total_remaining(old(self).order_queue.items()),
            final(self).order_queue == old(self).order_queue,
            final(self).order_count == old(self).order_count,
            final(self).price == old(self).price,
            final(self).last_updated == old(self).last_updated,
            final(self).sequence_to_id == old(self).sequence_to_id,
            final(self).id_to_sequence == old(self).id_to_sequence,
    {
        let ghost slots = self.order_queue.slots();
        let ghost lo = self.order_queue.read_seq();
        let ghost hi = self.order_queue.commit_seq();
        let mut total: u64 = 0;
        let mut it = self.order_queue.iter();
        loop
            invariant
                it.source() == old(self).order_queue,
                it.source().wf(),
                lo == it.source().read_seq(),
                hi == it.end(),
                hi == it.source().commit_seq(),
                slots == it.source().slots(),
                lo <= it.position() <= hi,
                total == total_remaining(present_in(slots, lo, it.position())),
                total_remaining(present_in(slots, lo, hi)) <= u64::MAX,
            ensures
                total == total_remaining(present_in(slots, lo, hi)),
            decreases hi - it.position(),
        {
            let ghost pos = it.position();
            let next = it.next();
            proof {
                lemma_present_in_split(slots, lo, pos, it.position());
                lemma_present_in_split(slots, lo, it.position(), hi);
                lemma_total_remaining_concat(present_in(slots, lo, pos), present_in(slots, pos, it.position()));
                lemma_total_remaining_concat(present_in(slots, lo, it.position()), present_in(slots, it.position(), hi));
            }
            match next {
                Some(o) => {
                    proof {
                        let x = present_in(slots, pos, it.position())[0];
                        assert(present_in(slots, pos, it.position()) == seq![x]);
                        lemma_total_remaining_single(x);
                    }
                    total = total + o.remaining_quantity;
                },
                None => {
                    proof {
                        assert(present_in(slots, pos, it.position()) =~= Seq::<Order>::empty());
                        assert(present_in(slots, lo, pos) + Seq::<Order>::empty() =~= present_in(slots, lo, pos));
                        assert(present_in(slots, it.position(), hi) =~= Seq::<Order>::empty());
                        assert(present_in(slots, lo, it.position()) + Seq::<Order>::empty()
                            =~= present_in(slots, lo, it.position()));
                    }
                    break;
                },
            }
        }
        self.total_quantity = total;
    }

    /// Replace the order with the given ID by `updater` applied to it, if it
    /// is here; the total quantity is recomputed. The updater must keep the
    /// order's id.
    pub fn update_order_by_id<F: FnOnce(Order) -> Order>(&mut self, order_id: &OrderId, updater: F) -> (r: bool)
        requires
            old(self).wf(),
            forall|o: Order| updater.requires((o,)),
            forall|o: Order, p: Order| updater.ensures((o,), p) ==> p.id == o.id,
            contains_id(old(self).queued(), *order_id) ==> forall|p: Order|
                updater.ensures((old(self).queued()[position_of_id(old(self).queued(), *order_id)],), p) ==>
                    total_remaining(old(self).queued())
                        - old(self).queued()[position_of_id(old(self).queued(), *order_id)].remaining_quantity
                        + p.remaining_quantity <= u64::MAX,
        ensures
            final(self).wf(),
            final(self).level_price() == old(self).level_price(),
            r == contains_id(old(self).queued(), *order_id),
            r ==> {
                let k = position_of_id(old(self).queued(), *order_id);
                &&& final(self).queued().len() == old(self).queued().len()
                &&& updater.ensures((old(self).queued()[k],), final(self).queued()[k])
                &&& final(self).queued() == old(self).queued().update(k, final(self).queued()[k])
            },
            !r ==> *final(self) == *old(self),
    {
        proof { self.lemma_lookup(*order_id); }
        match fnv_get(&self.id_to_sequence, &order_id.0) {
            Some(sequence) => {
                let ghost pre = *self;
                proof { assert(pre.live(sequence)); }
                let result = self.order_queue.update(sequence, updater);
                proof {
                    let k = pre.position_of_sequence(sequence as int);
                    let p = self.order_queue.slot(sequence as int)->0;
                    lemma_total_remaining_update(pre.queued(), k, p);
                }
                self.recalculate_total_quantity();
                self.last_updated = now_nanos();
                proof { self.lemma_updated(pre, sequence); }
                result
            },
            None => false,
        }
    }

    /// Replace the order published at `sequence` by `updater` applied to it,
    /// if it is still here; the total quantity is recomputed. The updater
    /// must keep the order's id.
    pub fn update_order<F: FnOnce(Order) -> Order>(&mut self, sequence: usize, updater: F) -> (r: bool)
        requires
            old(self).wf(),
            forall|o: Order| updater.requires((o,)),
            forall|o: Order, p: Order| updater.ensures((o,), p) ==> p.id == o.id,
            old(self).order_at(sequence as int) matches Some(o) ==> forall|p: Order|
                updater.ensures((o,), p) ==>
                    total_remaining(old(self).queued()) - o.remaining_quantity + p.remaining_quantity <= u64::MAX,
        ensures
            final(self).wf(),
            final(self).level_price() == old(self).level_price(),
            r == old(self).order_at(sequence as int) is Some,
            r ==> {
                let k = old(self).position_of_sequence(sequence as int);
                &&& 0 <= k < old(self).queued().len()
                &&& old(self).order_at(sequence as int) == Some(old(self).queued()[k])
                &&& final(self).queued().len() == old(self).queued().len()
                &&& updater.ensures((old(self).queued()[k],), final(self).queued()[k])
                &&& final(self).queued() == old(self).queued().update(k, final(self).queued()[k])
            },
            !r ==> *final(self) == *old(self),
    {
        let ghost pre = *self;
        let result = self.order_queue.update(sequence, updater);
        if result {
            proof {
                assert(pre.live(sequence));
                let k = pre.position_of_sequence(sequence as int);
                let p = self.order_queue.slot(sequence as int)->0;
                lemma_total_remaining_update(pre.queued(), k, p);
            }
            self.recalculate_total_quantity();
            self.last_updated = now_nanos();
            proof { self.lemma_updated(pre, sequence); }
        }
        result
    }

    proof fn lemma_updated(self, pre: Self, sequence: usize)
        requires
            pre.wf(),
            pre.live(sequence),
            self.price == pre.price,
            self.sequence_to_id == pre.sequence_to_id,
            self.id_to_sequence == pre.id_to_sequence,
            self.order_count == pre.order_count,
            self.order_queue.wf(),
            self.order_queue.cap() == pre.order_queue.cap(),
            self.order_queue.read_seq() == pre.order_queue.read_seq(),
            self.order_queue.commit_seq() == pre.order_queue.commit_seq(),
            self.order_queue.write_seq() == pre.order_queue.write_seq(),
            self.order_queue.slot(sequence as int) matches Some(p) && p.id == pre.order_queue.slot(sequence as int)->0.id,
            self.order_queue.slots() == pre.order_queue.slots().update(
                slot_of(sequence as int, pre.order_queue.cap()),
                self.order_queue.slot(sequence as int),
            ),
            ({
                let k = pre.position_of_sequence(sequence as int);
                &&& 0 <= k < pre.queued().len()
                &&& pre.queued()[k] == pre.order_queue.slot(sequence as int)->0
                &&& self.order_queue.items() == pre.queued().update(k, self.order_queue.slot(sequence as int)->0)
            }),
            self.total_quantity == total_remaining(self.order_queue.items()),
        ensures
            self.wf(),
            forall|s: usize| #[trigger] self.live(s) ==> {
                let o = self.order_queue.slot(s as int)->0;
                &&& self.id_to_sequence@.contains_key(o.id.0)
                &&& self.id_to_sequence@[o.id.0] == s
                &&& self.sequence_to_id@.contains_key(s)
                &&& self.sequence_to_id@[s] == o.id
            },
            forall|id: u128| #[trigger] self.id_to_sequence@.contains_key(id) ==> {
                &&& self.live(self.id_to_sequence@[id])
                &&& self.order_queue.slot(self.id_to_sequence@[id] as int)->0.id.0 == id
            },
            forall|s: usize| #[trigger] self.sequence_to_id@.contains_key(s) ==> self.live(s),
            self.order_queue.unwrapped(),
            self.order_queue.settled(),
            self.order_queue.items().len() == self.order_count,
    {
        let c = pre.order_queue.cap();
        lemma_slot_in_range(sequence as int, c);
        assert forall|s: usize| #[trigger] self.live(s) implies {
            let o = self.order_queue.slot(s as int)->0;
            &&& self.id_to_sequence@.contains_key(o.id.0)
            &&& self.id_to_sequence@[o.id.0] == s
            &&& self.sequence_to_id@.contains_key(s)
            &&& self.sequence_to_id@[s] == o.id
        } by {
            if s != sequence {
                if s < sequence {
                    lemma_distinct_slots(s as int, sequence as int, c);
                } else {
                    lemma_distinct_slots(sequence as int, s as int, c);
                }
                lemma_slot_in_range(s as int, c);
            }
            assert(pre.live(s));
        }
        assert forall|i: u128| #[trigger] self.id_to_sequence@.contains_key(i) implies {
            &&& self.live(self.id_to_sequence@[i])
            &&& self.order_queue.slot(self.id_to_sequence@[i] as int)->0.id.0 == i
        } by {
            let s = pre.id_to_sequence@[i];
            assert(pre.live(s));
            if s != sequence {
                if s < sequence {
                    lemma_distinct_slots(s as int, sequence as int, c);
                } else {
                    lemma_distinct_slots(sequence as int, s as int, c);
                }
                lemma_slot_in_range(s as int, c);
            }
        }
        assert forall|s: usize| #[trigger] self.sequence_to_id@.contains_key(s) implies self.live(s) by {
            assert(pre.live(s));
            if s != sequence {
                if s < sequence {
                    lemma_distinct_slots(s as int, sequence as int, c);
                } else {
                    lemma_distinct_slots(sequence as int, s as int, c);
                }
                lemma_slot_in_range(s as int, c);
            }
        }
        let k = pre.position_of_sequence(sequence as int);
        lemma_total_remaining_update(pre.queued(), k, self.order_queue.slot(sequence as int)->0);
    }

    /// Get a serializable representation of this price level
    pub fn to_data(&self) -> (d: PriceLevelData)
        requires
            self.wf(),
        ensures
            d.price == self.level_price(),
            d.total_quantity == total_remaining(self.queued()),
            d.order_count == self.queued().len(),
            d.last_updated == self.updated_at(),
    {
        PriceLevelData {
            price: self.price,
            total_quantity: self.total_quantity,
            order_count: self.order_count,
            last_updated: self.last_updated,
        }
    }
}

/// Price levels are equal when their prices are.
impl PartialEq for PriceLevel {
    fn eq(&self, other: &Self) -> (r: bool) {
        self.price == other.price
    }
}

impl PartialEqSpecImpl for PriceLevel {
    open spec fn obeys_eq_spec() -> bool {
        true
    }

    open spec fn eq_spec(&self, other: &Self) -> bool {
        self.level_price() == other.level_price()
    }
}

impl Eq for PriceLevel {}

/// How two prices compare.
pub open spec fn price_order(a: Price, b: Price) -> Ordering {
    if a < b {
        Ordering::Less
    } else if a == b {
        Ordering::Equal
    } else {
        Ordering::Greater
    }
}

/// Price levels are ordered by price.
impl PartialOrd for PriceLevel {
    fn partial_cmp(&self, other: &Self) -> (r: Option<Ordering>) {
        if self.price < other.price {
            Some(Ordering::Less)
        } else if self.price == other.price {
            Some(Ordering::Equal)
        } else {
            Some(Ordering::Greater)
        }
    }
}

impl PartialOrdSpecImpl for PriceLevel {
    open spec fn obeys_partial_cmp_spec() -> bool {
        true
    }

    open spec fn partial_cmp_spec(&self, other: &Self) -> Option<Ordering> {
        Some(price_order(self.level_price(), other.level_price()))
    }
}

} // verus!
