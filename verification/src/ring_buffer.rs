//! A ring buffer of order slots in the style of the LMAX Disruptor: writers
//! claim and publish sequence numbers, readers consume them in order, and each
//! sequence lives in the slot `sequence & mask` of a power-of-two buffer.

use vstd::prelude::*;
use vstd::arithmetic::power2::{pow2, lemma_pow2_unfold, lemma2_to64, lemma2_to64_rest};
use vstd::bits::{low_bits_mask, lemma_usize_low_bits_mask_is_mod};

verus! {

/// Cache line size in bytes.
pub const CACHE_LINE_SIZE: usize = 64;

/// Padding that keeps hot counters on cache lines of their own.
#[derive(Debug)]
pub struct CachePadding {
    _data: [u8; 64],
}

impl CachePadding {
    /// The padding's bytes.
    pub closed spec fn bytes(&self) -> Seq<u8> {
        self._data@
    }

    /// Zero-filled padding.
    pub fn new() -> (p: Self)
        ensures
            p.bytes().len() == CACHE_LINE_SIZE,
            forall|i: int| 0 <= i < CACHE_LINE_SIZE ==> p.bytes()[i] == 0,
    {
        let p = CachePadding { _data: [0u8; 64] };
        proof {
            broadcast use vstd::array::group_array_axioms;
            assert(p._data == vstd::array::spec_array_fill_for_copy_type::<u8, 64>(0u8));
            assert(p.bytes().len() == 64);
        }
        p
    }
}

/// A sequence counter surrounded by cache-line padding.
#[derive(Debug)]
pub struct PaddedSequence {
    _pad1: CachePadding,
    sequence: usize,
    _pad2: CachePadding,
}

impl PaddedSequence {
    /// The counter's current value.
    pub closed spec fn value(&self) -> usize {
        self.sequence
    }

    /// A counter starting at `value`.
    pub fn new(value: usize) -> (s: Self)
        ensures
            s.value() == value,
    {
        PaddedSequence { _pad1: CachePadding::new(), sequence: value, _pad2: CachePadding::new() }
    }

    /// Read the counter.
    pub fn get(&self) -> (v: usize)
        ensures
            v == self.value(),
    {
        self.sequence
    }

    /// Overwrite the counter.
    pub fn set(&mut self, value: usize)
        ensures
            final(self).value() == value,
    {
        self.sequence = value;
    }

    /// Add `increment` to the counter and return the new value.
    pub fn increment_and_get(&mut self, increment: usize) -> (v: usize)
        requires
            old(self).value() + increment <= usize::MAX,
        ensures
            v == old(self).value() + increment,
            final(self).value() == v,
    {
        self.sequence = self.sequence + increment;
        self.sequence
    }
}

/// `cap` is the smallest power of two that is at least `n` (and at least 1).
pub open spec fn is_next_power_of_two(cap: nat, n: nat) -> bool {
    exists|k: nat|
        #![trigger pow2(k)]
        cap == pow2(k) && n <= cap && (k == 0 || pow2((k - 1) as nat) < n)
}

/// The slot index of sequence `s` in a buffer of `len` slots.
pub open spec fn slot_of(s: int, len: nat) -> int {
    s % (len as int)
}

/// The items present in the slots of sequences `lo..hi`, in sequence order.
pub open spec fn present_in<T>(slots: Seq<Option<T>>, lo: int, hi: int) -> Seq<T>
    decreases hi - lo,
{
    if hi <= lo {
        Seq::empty()
    } else {
        let prev = present_in(slots, lo, hi - 1);
        match slots[slot_of(hi - 1, slots.len())] {
            Some(x) => prev.push(x),
            None => prev,
        }
    }
}

/// The first sequence in `lo..hi` whose slot holds an item, or `hi` if none does.
pub open spec fn first_present<T>(slots: Seq<Option<T>>, lo: int, hi: int) -> int
    decreases hi - lo,
{
    if hi <= lo {
        hi
    } else if slots[slot_of(lo, slots.len())] is Some {
        lo
    } else {
        first_present(slots, lo + 1, hi)
    }
}

/// Two sequences less than `len` apart (and distinct) live in different slots.
pub proof fn lemma_distinct_slots(a: int, b: int, len: nat)
    requires
        len > 0,
        a < b < a + len,
    ensures
        slot_of(a, len) != slot_of(b, len),
{
    let c = len as int;
    vstd::arithmetic::div_mod::lemma_fundamental_div_mod(a, c);
    vstd::arithmetic::div_mod::lemma_fundamental_div_mod(b, c);
    vstd::arithmetic::div_mod::lemma_mod_bound(a, c);
    vstd::arithmetic::div_mod::lemma_mod_bound(b, c);
    if a % c == b % c {
        let qa = a / c;
        let qb = b / c;
        assert(b - a == c * (qb - qa)) by (nonlinear_arith)
            requires a == c * qa + a % c, b == c * qb + b % c, a % c == b % c;
        assert(false) by (nonlinear_arith)
            requires b - a == c * (qb - qa), 0 < b - a < c, c > 0;
    }
}

/// The slot of a sequence is in range.
pub proof fn lemma_slot_in_range(s: int, len: nat)
    requires
        len > 0,
    ensures
        0 <= slot_of(s, len) < len,
{
    vstd::arithmetic::div_mod::lemma_mod_bound(s, len as int);
}

/// `present_in` only looks at the slots of `lo..hi`.
pub proof fn lemma_present_in_agree<T>(s1: Seq<Option<T>>, s2: Seq<Option<T>>, lo: int, hi: int)
    requires
        s1.len() == s2.len(),
        s1.len() > 0,
        forall|s: int| lo <= s < hi ==> s1[slot_of(s, s1.len())] == s2[slot_of(s, s2.len())],
    ensures
        present_in(s1, lo, hi) == present_in(s2, lo, hi),
    decreases hi - lo,
{
    if hi > lo {
        lemma_present_in_agree(s1, s2, lo, hi - 1);
    }
}

/// `present_in` over `lo..hi` is `present_in` over `lo..mid` followed by `mid..hi`.
pub proof fn lemma_present_in_split<T>(slots: Seq<Option<T>>, lo: int, mid: int, hi: int)
    requires
        lo <= mid <= hi,
    ensures
        present_in(slots, lo, hi) == present_in(slots, lo, mid) + present_in(slots, mid, hi),
    decreases hi - mid,
{
    if hi == mid {
        assert(present_in(slots, mid, hi) =~= Seq::<T>::empty());
        assert(present_in(slots, lo, mid) + present_in(slots, mid, hi) =~= present_in(slots, lo, mid));
    } else {
        lemma_present_in_split(slots, lo, mid, hi - 1);
        let a = present_in(slots, lo, mid);
        let b = present_in(slots, mid, hi - 1);
        match slots[slot_of(hi - 1, slots.len())] {
            Some(x) => {
                assert((a + b).push(x) =~= a + b.push(x));
            },
            None => {},
        }
    }
}

/// The items of `lo..hi` are those of the slot of `lo` followed by those of `lo + 1..hi`.
pub proof fn lemma_present_in_front<T>(slots: Seq<Option<T>>, lo: int, hi: int)
    requires
        lo < hi,
    ensures
        present_in(slots, lo, hi) == match slots[slot_of(lo, slots.len())] {
            Some(x) => seq![x] + present_in(slots, lo + 1, hi),
            None => present_in(slots, lo + 1, hi),
        },
{
    lemma_present_in_split(slots, lo, lo + 1, hi);
    assert(present_in(slots, lo, lo) =~= Seq::<T>::empty());
    match slots[slot_of(lo, slots.len())] {
        Some(x) => {
            assert(present_in(slots, lo, lo + 1) =~= seq![x]);
        },
        None => {
            assert(present_in(slots, lo, lo + 1) =~= Seq::<T>::empty());
            assert(Seq::<T>::empty() + present_in(slots, lo + 1, hi) =~= present_in(slots, lo + 1, hi));
        },
    }
}

/// What `first_present` finds: holes before it, an item at it (unless it is
/// `hi`), and the same items from it as from `lo`.
pub proof fn lemma_first_present<T>(slots: Seq<Option<T>>, lo: int, hi: int)
    requires
        lo <= hi,
    ensures
        lo <= first_present(slots, lo, hi) <= hi,
        forall|s: int| lo <= s < first_present(slots, lo, hi) ==> slots[slot_of(s, slots.len())] is None,
        first_present(slots, lo, hi) < hi ==> slots[slot_of(first_present(slots, lo, hi), slots.len())] is Some,
        present_in(slots, lo, hi) == present_in(slots, first_present(slots, lo, hi), hi),
    decreases hi - lo,
{
    if lo < hi {
        if slots[slot_of(lo, slots.len())] is None {
            lemma_first_present(slots, lo + 1, hi);
            lemma_present_in_front(slots, lo, hi);
        }
    }
}

/// Items present in a window no wider than the buffer number one per present slot.
pub proof fn lemma_present_in_len<T>(slots: Seq<Option<T>>, lo: int, hi: int)
    ensures
        present_in(slots, lo, hi).len() <= if hi <= lo { 0 } else { hi - lo },
    decreases hi - lo,
{
    if hi > lo {
        lemma_present_in_len(slots, lo, hi - 1);
    }
}

/// A window of empty slots holds no items.
pub proof fn lemma_present_in_holes<T>(slots: Seq<Option<T>>, lo: int, hi: int)
    requires
        forall|s: int| lo <= s < hi ==> slots[slot_of(s, slots.len())] is None,
    ensures
        present_in(slots, lo, hi) == Seq::<T>::empty(),
    decreases hi - lo,
{
    if hi > lo {
        lemma_present_in_holes(slots, lo, hi - 1);
    }
}

/// The slots after emptying those of the sequences `lo..hi`, one after the other.
pub open spec fn cleared<T>(slots: Seq<Option<T>>, lo: int, hi: int) -> Seq<Option<T>>
    decreases hi - lo,
{
    if hi <= lo {
        slots
    } else {
        cleared(slots, lo, hi - 1).update(slot_of(hi - 1, slots.len()), None)
    }
}

/// The items taken, each with its sequence, when the slots of the sequences
/// `lo..hi` are emptied one after the other.
pub open spec fn taken_pairs<T>(slots: Seq<Option<T>>, lo: int, hi: int) -> Seq<(usize, T)>
    decreases hi - lo,
{
    if hi <= lo {
        Seq::empty()
    } else {
        let prev = taken_pairs(slots, lo, hi - 1);
        match cleared(slots, lo, hi - 1)[slot_of(hi - 1, slots.len())] {
            Some(x) => prev.push(((hi - 1) as usize, x)),
            None => prev,
        }
    }
}

/// Emptying the slots of `lo..m` leaves the slot of a later sequence `t`
/// less than a buffer's length past `lo` as it was.
proof fn lemma_cleared_untouched<T>(slots: Seq<Option<T>>, lo: int, m: int, t: int)
    requires
        slots.len() > 0,
        lo <= m <= t,
        t < lo + slots.len(),
    ensures
        cleared(slots, lo, m)[slot_of(t, slots.len())] == slots[slot_of(t, slots.len())],
    decreases m - lo,
{
    if m > lo {
        lemma_cleared_untouched(slots, lo, m - 1, t);
        lemma_cleared_len(slots, lo, m - 1);
        lemma_distinct_slots(m - 1, t, slots.len());
    }
}

/// A batch read of the sequences `lo..hi` (no more than the buffer holds)
/// hands out each item with the sequence it was published at: the sequences
/// lie in `lo..hi`, strictly increase, and the slot of each held its item.
/// Where no slot of the window is empty, the `k`-th item carries sequence
/// `lo + k`.
pub proof fn lemma_taken_pairs_sequences<T>(slots: Seq<Option<T>>, lo: int, hi: int)
    requires
        slots.len() > 0,
        0 <= lo <= hi,
        hi - lo <= slots.len(),
        hi <= usize::MAX + 1,
    ensures
        forall|k: int| 0 <= k < taken_pairs(slots, lo, hi).len() ==> {
            let (s, x) = #[trigger] taken_pairs(slots, lo, hi)[k];
            &&& lo <= s < hi
            &&& slots[slot_of(s as int, slots.len())] == Some(x)
        },
        forall|a: int, b: int| 0 <= a < b < taken_pairs(slots, lo, hi).len() ==>
            (#[trigger] taken_pairs(slots, lo, hi)[a]).0 < (#[trigger] taken_pairs(slots, lo, hi)[b]).0,
        taken_pairs(slots, lo, hi).len() <= hi - lo,
        (forall|s: int| lo <= s < hi ==> (#[trigger] slots[slot_of(s, slots.len())]) is Some) ==> {
            &&& taken_pairs(slots, lo, hi).len() == hi - lo
            &&& forall|k: int| 0 <= k < hi - lo ==> (#[trigger] taken_pairs(slots, lo, hi)[k]).0 == lo + k
        },
    decreases hi - lo,
{
    if hi > lo {
        let prev = taken_pairs(slots, lo, hi - 1);
        lemma_taken_pairs_sequences(slots, lo, hi - 1);
        lemma_cleared_untouched(slots, lo, hi - 1, hi - 1);
        let cur = taken_pairs(slots, lo, hi);
        match slots[slot_of(hi - 1, slots.len())] {
            Some(x) => {
                assert(cur == prev.push(((hi - 1) as usize, x)));
                assert forall|k: int| 0 <= k < cur.len() implies {
                    let (s, y) = #[trigger] cur[k];
                    &&& lo <= s < hi
                    &&& slots[slot_of(s as int, slots.len())] == Some(y)
                } by {
                    if k < prev.len() {
                        assert(cur[k] == prev[k]);
                    }
                }
                assert forall|a: int, b: int| 0 <= a < b < cur.len() implies
                    (#[trigger] cur[a]).0 < (#[trigger] cur[b]).0 by {
                    assert(cur[a] == prev[a]);
                    if b < prev.len() {
                        assert(cur[b] == prev[b]);
                    }
                }
                if forall|s: int| lo <= s < hi ==> (#[trigger] slots[slot_of(s, slots.len())]) is Some {
                    assert forall|s: int| lo <= s < hi - 1 implies (#[trigger] slots[slot_of(s, slots.len())]) is Some by {
                    }
                    assert forall|k: int| 0 <= k < hi - lo implies (#[trigger] cur[k]).0 == lo + k by {
                        if k < prev.len() {
                            assert(cur[k] == prev[k]);
                        }
                    }
                }
            },
            None => {
                assert(cur == prev);
                if forall|s: int| lo <= s < hi ==> (#[trigger] slots[slot_of(s, slots.len())]) is Some {
                    assert(slots[slot_of(hi - 1, slots.len())] is Some);
                }
            },
        }
    }
}

/// Emptying slots keeps the number of slots.
pub proof fn lemma_cleared_len<T>(slots: Seq<Option<T>>, lo: int, hi: int)
    requires
        slots.len() > 0,
    ensures
        cleared(slots, lo, hi).len() == slots.len(),
    decreases hi - lo,
{
    if hi > lo {
        lemma_cleared_len(slots, lo, hi - 1);
        lemma_slot_in_range(hi - 1, slots.len());
    }
}

/// Emptying slots that are already empty changes nothing.
pub proof fn lemma_cleared_holes<T>(slots: Seq<Option<T>>, lo: int, hi: int)
    requires
        slots.len() > 0,
        forall|s: int| lo <= s < hi ==> slots[slot_of(s, slots.len())] is None,
    ensures
        cleared(slots, lo, hi) == slots,
    decreases hi - lo,
{
    if hi > lo {
        lemma_cleared_holes(slots, lo, hi - 1);
        lemma_slot_in_range(hi - 1, slots.len());
        assert(slots.update(slot_of(hi - 1, slots.len()), None) =~= slots);
    }
}

/// Emptying `lo..hi` is emptying `lo..mid` and then `mid..hi`.
pub proof fn lemma_cleared_split<T>(slots: Seq<Option<T>>, lo: int, mid: int, hi: int)
    requires
        slots.len() > 0,
        lo <= mid <= hi,
    ensures
        cleared(slots, lo, hi) == cleared(cleared(slots, lo, mid), mid, hi),
    decreases hi - mid,
{
    if hi > mid {
        lemma_cleared_split(slots, lo, mid, hi - 1);
        lemma_cleared_len(slots, lo, mid);
    }
}

/// A window whose every slot holds an item holds exactly those items, in order.
pub proof fn lemma_present_in_full<T>(slots: Seq<Option<T>>, lo: int, hi: int)
    requires
        lo <= hi,
        forall|s: int| lo <= s < hi ==> slots[slot_of(s, slots.len())] is Some,
    ensures
        present_in(slots, lo, hi).len() == hi - lo,
        forall|i: int| 0 <= i < hi - lo ==> present_in(slots, lo, hi)[i] == slots[slot_of(lo + i, slots.len())]->0,
    decreases hi - lo,
{
    if hi > lo {
        lemma_present_in_full(slots, lo, hi - 1);
    }
}

/// The item of a sequence whose slot holds one sits in the window's items at
/// the count of items before that sequence.
pub proof fn lemma_present_in_at<T>(slots: Seq<Option<T>>, lo: int, hi: int, s: int)
    requires
        lo <= s < hi,
        slots[slot_of(s, slots.len())] is Some,
    ensures
        present_in(slots, lo, s).len() < present_in(slots, lo, hi).len(),
        present_in(slots, lo, hi)[present_in(slots, lo, s).len() as int] == slots[slot_of(s, slots.len())]->0,
{
    lemma_present_in_split(slots, lo, s, hi);
    lemma_present_in_front(slots, s, hi);
}

/// Every item of a window comes from the slot of some sequence of the window,
/// the one with as many items before it as the item's position.
pub proof fn lemma_present_in_source<T>(slots: Seq<Option<T>>, lo: int, hi: int, k: int) -> (s: int)
    requires
        0 <= k < present_in(slots, lo, hi).len(),
    ensures
        lo <= s < hi,
        slots[slot_of(s, slots.len())] == Some(present_in(slots, lo, hi)[k]),
        present_in(slots, lo, s).len() == k,
    decreases hi - lo,
{
    let prev = present_in(slots, lo, hi - 1);
    if k < prev.len() {
        let s = lemma_present_in_source(slots, lo, hi - 1, k);
        s
    } else {
        hi - 1
    }
}

/// Among the first `k` writes of a batch starting at sequence `start`, the
/// index of the last one that went to slot `j` of a buffer of `len` slots.
pub open spec fn last_writer(start: int, k: int, len: nat, j: int) -> Option<int>
    decreases k,
{
    if k <= 0 {
        None
    } else if slot_of(start + k - 1, len) == j {
        Some(k - 1)
    } else {
        last_writer(start, k - 1, len, j)
    }
}

/// In a batch no longer than the buffer, each write is the last to its slot.
pub proof fn lemma_last_writer_own(start: int, k: int, len: nat, i: int)
    requires
        len > 0,
        0 <= i < k <= len,
    ensures
        last_writer(start, k, len, slot_of(start + i, len)) == Some(i),
    decreases k,
{
    if slot_of(start + k - 1, len) != slot_of(start + i, len) {
        if i == k - 1 {
        } else {
            lemma_last_writer_own(start, k - 1, len, i);
        }
    } else if i != k - 1 {
        lemma_distinct_slots(start + i, start + k - 1, len);
    }
}

/// A slot that no write of the batch goes to keeps no writer.
pub proof fn lemma_last_writer_none(start: int, k: int, len: nat, j: int)
    requires
        forall|s: int| start <= s < start + k ==> #[trigger] slot_of(s, len) != j,
    ensures
        last_writer(start, k, len, j) is None,
    decreases k,
{
    if k > 0 {
        assert(slot_of(start + k - 1, len) != j);
        lemma_last_writer_none(start, k - 1, len, j);
    }
}

/// Ring buffer of slots addressed by ever-growing sequence numbers.
pub struct OrderRingBuffer<T> {
    /// The slots; an empty slot holds `None`.
    buffer: Vec<Option<T>>,
    /// `capacity - 1`, for the fast modulo of a power-of-two capacity.
    mask: usize,
    /// log2 of the capacity.
    log_capacity: Ghost<nat>,
    /// Next sequence to hand out to a writer.
    next_write: PaddedSequence,
    /// Sequences below this one have been published.
    committed: PaddedSequence,
    /// Next sequence to read.
    next_read: PaddedSequence,
}

impl<T> OrderRingBuffer<T> {
    /// The slots, indexed by `sequence % capacity`.
    pub closed spec fn slots(&self) -> Seq<Option<T>> {
        self.buffer@
    }

    /// Next sequence a writer will claim.
    pub closed spec fn write_seq(&self) -> int {
        self.next_write.value() as int
    }

    /// One past the last published sequence.
    pub closed spec fn commit_seq(&self) -> int {
        self.committed.value() as int
    }

    /// Next sequence a reader will look at.
    pub closed spec fn read_seq(&self) -> int {
        self.next_read.value() as int
    }

    pub closed spec fn layout_ok(&self) -> bool {
        &&& self.buffer@.len() == pow2(self.log_capacity@)
        &&& self.log_capacity@ < usize::BITS
        &&& self.mask as int == low_bits_mask(self.log_capacity@)
    }

    /// Well-formedness: a power-of-two number of slots and ordered cursors.
    pub open spec fn wf(&self) -> bool {
        &&& self.layout_ok()
        &&& 1 <= self.slots().len() <= usize::MAX
        &&& 0 <= self.read_seq() <= self.commit_seq() <= self.write_seq() <= usize::MAX
    }

    /// Number of slots.
    pub open spec fn cap(&self) -> nat {
        self.slots().len()
    }

    /// The items waiting to be read, in sequence order.
    pub open spec fn items(&self) -> Seq<T> {
        present_in(self.slots(), self.read_seq(), self.commit_seq())
    }

    /// The slot that holds sequence `s`.
    pub open spec fn slot(&self, s: int) -> Option<T> {
        self.slots()[slot_of(s, self.cap())]
    }

    proof fn lemma_index(&self, s: usize)
        requires
            self.layout_ok(),
        ensures
            (s & self.mask) as int == slot_of(s as int, self.buffer@.len()),
            0 <= slot_of(s as int, self.buffer@.len()) < self.buffer@.len(),
    {
        lemma_usize_low_bits_mask_is_mod(s, self.log_capacity@);
        vstd::arithmetic::power2::lemma_pow2_pos(self.log_capacity@);
        vstd::bits::lemma_usize_pow2_no_overflow(self.log_capacity@);
    }

    /// Slot index of sequence `s`.
    fn index_of(&self, s: usize) -> (i: usize)
        requires
            self.wf(),
        ensures
            i as int == slot_of(s as int, self.cap()),
            i < self.cap(),
    {
        proof { self.lemma_index(s); }
        s & self.mask
    }

    /// Create a ring buffer whose capacity is `capacity` rounded up to a power of two.
    pub fn new(capacity: usize) -> (rb: Self)
        requires
            capacity <= usize::MAX / 2 + 1,
        ensures
            rb.wf(),
            is_next_power_of_two(rb.cap(), capacity as nat),
            forall|j: int| 0 <= j < rb.cap() ==> rb.slots()[j] is None,
            rb.write_seq() == 0,
            rb.commit_seq() == 0,
            rb.read_seq() == 0,
    {
        let mut cap: usize = 1;
        let ghost mut k: nat = 0;
        proof {
            lemma2_to64();
        }
        while cap < capacity
            invariant
                cap as nat == pow2(k),
                k < usize::BITS,
                1 <= cap,
                capacity <= usize::MAX / 2 + 1,
                k == 0 || pow2((k - 1) as nat) < capacity,
            decreases usize::MAX - cap,
        {
            proof {
                lemma_pow2_unfold(k + 1);
                lemma2_to64();
                lemma2_to64_rest();
                if k + 1 >= usize::BITS {
                    assert(k + 1 == usize::BITS);
                    assert(pow2(32) == 0x1_0000_0000);
                    assert(pow2(64) == 0x1_0000_0000_0000_0000);
                }
            }
            cap = cap * 2;
            proof {
                k = k + 1;
            }
        }
        let mut buffer: Vec<Option<T>> = Vec::with_capacity(cap);
        let mut i: usize = 0;
        while i < cap
            invariant
                i <= cap,
                buffer@.len() == i,
                forall|j: int| 0 <= j < i ==> buffer@[j] is None,
            decreases cap - i,
        {
            buffer.push(None);
            i = i + 1;
        }
        proof {
            assert(low_bits_mask(k) == pow2(k) - 1);
        }
        OrderRingBuffer {
            buffer,
            mask: cap - 1,
            log_capacity: Ghost(k),
            next_write: PaddedSequence::new(0),
            committed: PaddedSequence::new(0),
            next_read: PaddedSequence::new(0),
        }
    }

    /// The number of slots is at most half the machine's address range.
    pub proof fn lemma_cap_bound(&self)
        requires
            self.wf(),
        ensures
            self.cap() <= usize::MAX / 2 + 1,
    {
        let k = self.log_capacity@;
        lemma2_to64();
        lemma2_to64_rest();
        if k < usize::BITS - 1 {
            vstd::arithmetic::power2::lemma_pow2_strictly_increases(k, (usize::BITS - 1) as nat);
        }
        assert(pow2(31) == 0x8000_0000);
        assert(pow2(63) == 0x8000_0000_0000_0000);
    }

    /// No two sequences waiting to be read share a slot.
    pub open spec fn unwrapped(&self) -> bool {
        self.commit_seq() - self.read_seq() <= self.cap()
    }

    /// Nothing has been claimed without being published.
    pub open spec fn settled(&self) -> bool {
        self.commit_seq() == self.write_seq()
    }

    /// Number of slots.
    pub fn capacity(&self) -> (c: usize)
        requires
            self.wf(),
        ensures
            c == self.cap(),
    {
        self.buffer.len()
    }

    /// Claim the next sequence for writing: returns it with its slot index.
    pub fn claim(&mut self) -> (r: (usize, usize))
        requires
            old(self).wf(),
            old(self).write_seq() < usize::MAX,
        ensures
            final(self).wf(),
            r.0 == old(self).write_seq(),
            r.1 as int == slot_of(old(self).write_seq(), old(self).cap()),
            final(self).write_seq() == old(self).write_seq() + 1,
            final(self).commit_seq() == old(self).commit_seq(),
            final(self).read_seq() == old(self).read_seq(),
            final(self).slots() == old(self).slots(),
    {
        let sequence = self.next_write.increment_and_get(1);
        let index = self.index_of(sequence - 1);
        (sequence - 1, index)
    }

    /// Claim `n` consecutive sequences for writing: returns the first with its slot index.
    pub fn claim_batch(&mut self, n: usize) -> (r: (usize, usize))
        requires
            old(self).wf(),
            old(self).write_seq() + n <= usize::MAX,
        ensures
            final(self).wf(),
            r.0 == old(self).write_seq(),
            r.1 as int == slot_of(old(self).write_seq(), old(self).cap()),
            final(self).write_seq() == old(self).write_seq() + n,
            final(self).commit_seq() == old(self).commit_seq(),
            final(self).read_seq() == old(self).read_seq(),
            final(self).slots() == old(self).slots(),
    {
        let sequence = self.next_write.increment_and_get(n);
        let start_index = self.index_of(sequence - n);
        (sequence - n, start_index)
    }

    /// Publish `value` at a claimed `sequence`, once every earlier sequence is
    /// published (`sequence` must be the next one to commit).
    pub fn publish(&mut self, sequence: usize, value: T)
        requires
            old(self).wf(),
            old(self).commit_seq() == sequence,
            sequence < old(self).write_seq(),
        ensures
            final(self).wf(),
            final(self).slots() == old(self).slots().update(slot_of(sequence as int, old(self).cap()), Some(value)),
            final(self).commit_seq() == sequence + 1,
            final(self).write_seq() == old(self).write_seq(),
            final(self).read_seq() == old(self).read_seq(),
            old(self).commit_seq() - old(self).read_seq() < old(self).cap() ==>
                final(self).items() == old(self).items().push(value),
    {
        let index = self.index_of(sequence);
        self.buffer.set(index, Some(value));
        self.committed.set(sequence + 1);
        proof {
            self.lemma_publish_appends(*old(self), sequence as int, value);
        }
    }

    proof fn lemma_publish_appends(self, pre: Self, s: int, value: T)
        requires
            pre.wf(),
            self.cap() == pre.cap(),
            self.slots() == pre.slots().update(slot_of(s, pre.cap()), Some(value)),
            self.read_seq() == pre.read_seq(),
            pre.commit_seq() == s,
            self.commit_seq() == s + 1,
        ensures
            s - pre.read_seq() < pre.cap() ==> self.items() == pre.items().push(value),
    {
        if s - pre.read_seq() < pre.cap() {
            lemma_slot_in_range(s, pre.cap());
            assert forall|t: int| pre.read_seq() <= t < s implies
                self.slots()[slot_of(t, self.slots().len())] == pre.slots()[slot_of(t, pre.slots().len())] by {
                lemma_distinct_slots(t, s, pre.cap());
                lemma_slot_in_range(t, pre.cap());
            }
            lemma_present_in_agree(self.slots(), pre.slots(), pre.read_seq(), s);
        }
    }

    /// Claim the next sequence and publish `value` there at once (single
    /// producer); returns the sequence.
    pub fn publish_direct(&mut self, value: T) -> (sequence: usize)
        requires
            old(self).wf(),
            old(self).write_seq() < usize::MAX,
        ensures
            final(self).wf(),
            sequence == old(self).write_seq(),
            final(self).slots() == old(self).slots().update(slot_of(sequence as int, old(self).cap()), Some(value)),
            final(self).write_seq() == sequence + 1,
            final(self).commit_seq() == sequence + 1,
            final(self).read_seq() == old(self).read_seq(),
            old(self).settled() && old(self).write_seq() - old(self).read_seq() < old(self).cap() ==>
                final(self).items() == old(self).items().push(value),
    {
        let sequence = self.next_write.increment_and_get(1) - 1;
        let index = self.index_of(sequence);
        self.buffer.set(index, Some(value));
        self.committed.set(sequence + 1);
        proof {
            if old(self).settled() {
                self.lemma_publish_appends(*old(self), sequence as int, value);
            }
        }
        sequence
    }

    /// The first sequence at or after the read cursor whose slot holds an item.
    fn first_filled(&self) -> (f: usize)
        requires
            self.wf(),
        ensures
            f as int == first_present(self.slots(), self.read_seq(), self.commit_seq()),
    {
        let end = self.committed.get();
        let mut current = self.next_read.get();
        while current < end && self.buffer[self.index_of(current)].is_none()
            invariant
                self.wf(),
                end as int == self.commit_seq(),
                self.read_seq() <= current <= end,
                first_present(self.slots(), self.read_seq(), self.commit_seq())
                    == first_present(self.slots(), current as int, self.commit_seq()),
            decreases end - current,
        {
            current = current + 1;
        }
        current
    }

    /// Take the next item waiting to be read, skipping slots whose item was
    /// removed; returns it with its sequence.
    pub fn try_next(&mut self) -> (r: Option<(usize, T)>)
        requires
            old(self).wf(),
        ensures
            final(self).wf(),
            ({
                let f = first_present(old(self).slots(), old(self).read_seq(), old(self).commit_seq());
                if f < old(self).commit_seq() {
                    &&& r matches Some((s, x)) && s == f && old(self).slot(f) == Some(x)
                    &&& final(self).slots() == old(self).slots().update(slot_of(f, old(self).cap()), None)
                    &&& final(self).read_seq() == f + 1
                } else {
                    &&& r is None
                    &&& final(self).slots() == old(self).slots()
                    &&& final(self).read_seq() == old(self).commit_seq()
                }
            }),
            final(self).commit_seq() == old(self).commit_seq(),
            final(self).write_seq() == old(self).write_seq(),
            r is Some <==> old(self).items().len() > 0,
            r matches Some((s, x)) ==> x == old(self).items()[0],
            old(self).unwrapped() ==> final(self).items() == if r is Some {
                old(self).items().drop_first()
            } else {
                old(self).items()
            },
    {
        let current = self.first_filled();
        let end = self.committed.get();
        proof {
            lemma_first_present(self.slots(), self.read_seq(), self.commit_seq());
        }
        if current < end {
            let index = self.index_of(current);
            let taken = self.buffer[index].take();
            self.next_read.set(current + 1);
            proof {
                lemma_present_in_front(old(self).slots(), current as int, end as int);
                self.lemma_take_front(*old(self), current as int);
            }
            match taken {
                Some(value) => Some((current, value)),
                None => None,
            }
        } else {
            self.next_read.set(current);
            None
        }
    }

    /// Remove the item of `sequence`, if the sequence is waiting to be read.
    pub fn remove(&mut self, sequence: usize) -> (r: Option<T>)
        requires
            old(self).wf(),
        ensures
            final(self).wf(),
            final(self).commit_seq() == old(self).commit_seq(),
            final(self).write_seq() == old(self).write_seq(),
            final(self).read_seq() == old(self).read_seq(),
            if sequence < old(self).read_seq() || sequence >= old(self).commit_seq() {
                &&& r is None
                &&& final(self).slots() == old(self).slots()
            } else {
                &&& r == old(self).slot(sequence as int)
                &&& final(self).slots() == old(self).slots().update(slot_of(sequence as int, old(self).cap()), None)
            },
            old(self).unwrapped() && r is Some ==> {
                let k = present_in(old(self).slots(), old(self).read_seq(), sequence as int).len() as int;
                &&& 0 <= k < old(self).items().len()
                &&& r == Some(old(self).items()[k])
                &&& final(self).items() == old(self).items().remove(k)
            },
    {
        if sequence < self.next_read.get() || sequence >= self.committed.get() {
            return None;
        }
        let index = self.index_of(sequence);
        let taken = self.buffer[index].take();
        proof {
            if old(self).unwrapped() && taken is Some {
                self.lemma_remove_middle(*old(self), sequence as int);
            }
        }
        taken
    }

    proof fn lemma_remove_middle(self, pre: Self, s: int)
        requires
            pre.wf(),
            pre.unwrapped(),
            pre.read_seq() <= s < pre.commit_seq(),
            pre.slot(s) is Some,
            self.cap() == pre.cap(),
            self.slots() == pre.slots().update(slot_of(s, pre.cap()), None),
            self.read_seq() == pre.read_seq(),
            self.commit_seq() == pre.commit_seq(),
        ensures
            ({
                let k = present_in(pre.slots(), pre.read_seq(), s).len() as int;
                &&& 0 <= k < pre.items().len()
                &&& pre.slot(s) == Some(pre.items()[k])
                &&& self.items() == pre.items().remove(k)
            }),
    {
        let lo = pre.read_seq();
        let hi = pre.commit_seq();
        let x = pre.slot(s)->0;
        lemma_slot_in_range(s, pre.cap());
        assert forall|t: int| lo <= t < hi && t != s implies
            self.slots()[slot_of(t, self.slots().len())] == pre.slots()[slot_of(t, pre.slots().len())] by {
            if t < s {
                lemma_distinct_slots(t, s, pre.cap());
            } else {
                lemma_distinct_slots(s, t, pre.cap());
            }
            lemma_slot_in_range(t, pre.cap());
        }
        lemma_present_in_agree(self.slots(), pre.slots(), lo, s);
        lemma_present_in_agree(self.slots(), pre.slots(), s + 1, hi);
        lemma_present_in_split(pre.slots(), lo, s, hi);
        lemma_present_in_split(self.slots(), lo, s, hi);
        lemma_present_in_front(pre.slots(), s, hi);
        lemma_present_in_front(self.slots(), s, hi);
        let a = present_in(pre.slots(), lo, s);
        let b = present_in(pre.slots(), s + 1, hi);
        assert(pre.items() == a + (seq![x] + b));
        assert(self.items() == a + b);
        assert((a + (seq![x] + b))[a.len() as int] == x);
        assert((a + (seq![x] + b)).remove(a.len() as int) =~= a + b);
    }

    proof fn lemma_replace_middle(self, pre: Self, s: int)
        requires
            pre.wf(),
            pre.unwrapped(),
            pre.read_seq() <= s < pre.commit_seq(),
            pre.slot(s) is Some,
            self.cap() == pre.cap(),
            self.slot(s) is Some,
            self.slots() == pre.slots().update(slot_of(s, pre.cap()), self.slot(s)),
            self.read_seq() == pre.read_seq(),
            self.commit_seq() == pre.commit_seq(),
        ensures
            ({
                let k = present_in(pre.slots(), pre.read_seq(), s).len() as int;
                &&& 0 <= k < pre.items().len()
                &&& pre.items()[k] == pre.slot(s)->0
                &&& self.items() == pre.items().update(k, self.slot(s)->0)
            }),
    {
        let lo = pre.read_seq();
        let hi = pre.commit_seq();
        let x = pre.slot(s)->0;
        let y = self.slot(s)->0;
        lemma_slot_in_range(s, pre.cap());
        assert forall|t: int| lo <= t < hi && t != s implies
            self.slots()[slot_of(t, self.slots().len())] == pre.slots()[slot_of(t, pre.slots().len())] by {
            if t < s {
                lemma_distinct_slots(t, s, pre.cap());
            } else {
                lemma_distinct_slots(s, t, pre.cap());
            }
            lemma_slot_in_range(t, pre.cap());
        }
        lemma_present_in_agree(self.slots(), pre.slots(), lo, s);
        lemma_present_in_agree(self.slots(), pre.slots(), s + 1, hi);
        lemma_present_in_split(pre.slots(), lo, s, hi);
        lemma_present_in_split(self.slots(), lo, s, hi);
        lemma_present_in_front(pre.slots(), s, hi);
        lemma_present_in_front(self.slots(), s, hi);
        let a = present_in(pre.slots(), lo, s);
        let b = present_in(pre.slots(), s + 1, hi);
        assert(pre.items() == a + (seq![x] + b));
        assert(self.items() == a + (seq![y] + b));
        assert((a + (seq![x] + b))[a.len() as int] == x);
        assert((a + (seq![x] + b)).update(a.len() as int, y) =~= a + (seq![y] + b));
    }

    /// Is nothing waiting to be read?
    pub fn is_empty(&self) -> (b: bool)
        requires
            self.wf(),
        ensures
            b == (self.read_seq() == self.commit_seq()),
            b ==> self.items().len() == 0,
    {
        self.next_read.get() == self.committed.get()
    }

    /// Are as many sequences claimed but not yet read as there are slots?
    pub fn is_full(&self) -> (b: bool)
        requires
            self.wf(),
        ensures
            b == (self.write_seq() - self.read_seq() >= self.cap()),
    {
        self.next_write.get() - self.next_read.get() >= self.buffer.len()
    }

    /// Number of published sequences not yet read.
    pub fn len(&self) -> (n: usize)
        requires
            self.wf(),
        ensures
            n == self.items().len(),
            n <= self.commit_seq() - self.read_seq(),
    {
        let start = self.next_read.get();
        let end = self.committed.get();
        let mut current = start;
        let mut count: usize = 0;
        while current < end
            invariant
                self.wf(),
                start as int == self.read_seq(),
                end as int == self.commit_seq(),
                start <= current <= end,
                count == present_in(self.slots(), start as int, current as int).len(),
                count <= current - start,
            decreases end - current,
        {
            proof { lemma_present_in_len(self.slots(), start as int, current as int); }
            if self.buffer[self.index_of(current)].is_some() {
                count = count + 1;
            }
            current = current + 1;
        }
        count
    }

    /// Take the next item waiting to be read (single consumer).
    pub fn pop(&mut self) -> (r: Option<T>)
        requires
            old(self).wf(),
        ensures
            final(self).wf(),
            final(self).commit_seq() == old(self).commit_seq(),
            final(self).write_seq() == old(self).write_seq(),
            r is Some <==> old(self).items().len() > 0,
            r matches Some(x) ==> x == old(self).items()[0],
            ({
                let f = first_present(old(self).slots(), old(self).read_seq(), old(self).commit_seq());
                if f < old(self).commit_seq() {
                    &&& final(self).slots() == old(self).slots().update(slot_of(f, old(self).cap()), None)
                    &&& final(self).read_seq() == f + 1
                } else {
                    &&& final(self).slots() == old(self).slots()
                    &&& final(self).read_seq() == old(self).commit_seq()
                }
            }),
            old(self).unwrapped() ==> final(self).items() == if r is Some {
                old(self).items().drop_first()
            } else {
                old(self).items()
            },
    {
        match self.try_next() {
            Some((_, value)) => Some(value),
            None => None,
        }
    }

    /// Append `value` unless as many sequences are outstanding as there are
    /// slots, in which case it is handed back.
    pub fn push(&mut self, value: T) -> (r: Result<(), T>)
        requires
            old(self).wf(),
            old(self).write_seq() - old(self).read_seq() < old(self).cap() ==> old(self).write_seq() < usize::MAX,
        ensures
            final(self).wf(),
            if old(self).write_seq() - old(self).read_seq() >= old(self).cap() {
                &&& r == Err::<(), T>(value)
                &&& *final(self) == *old(self)
            } else {
                &&& r is Ok
                &&& final(self).slots() == old(self).slots().update(slot_of(old(self).write_seq(), old(self).cap()), Some(value))
                &&& final(self).write_seq() == old(self).write_seq() + 1
                &&& final(self).commit_seq() == old(self).write_seq() + 1
                &&& final(self).read_seq() == old(self).read_seq()
                &&& old(self).settled() ==> final(self).items() == old(self).items().push(value)
            },
    {
        if self.is_full() {
            return Err(value);
        }
        self.publish_direct(value);
        Ok(())
    }

    /// Append `value`, spinning up to `spin_limit` times while the buffer is
    /// full; hand it back if it stays full.
    pub fn push_blocking(&mut self, value: T, spin_limit: usize) -> (r: Result<(), T>)
        requires
            old(self).wf(),
            old(self).write_seq() - old(self).read_seq() < old(self).cap() ==> old(self).write_seq() < usize::MAX,
            old(self).write_seq() - old(self).read_seq() >= old(self).cap() ==> spin_limit < usize::MAX,
        ensures
            final(self).wf(),
            if old(self).write_seq() - old(self).read_seq() >= old(self).cap() {
                &&& r == Err::<(), T>(value)
                &&& *final(self) == *old(self)
            } else {
                &&& r is Ok
                &&& final(self).slots() == old(self).slots().update(slot_of(old(self).write_seq(), old(self).cap()), Some(value))
                &&& final(self).write_seq() == old(self).write_seq() + 1
                &&& final(self).commit_seq() == old(self).write_seq() + 1
                &&& final(self).read_seq() == old(self).read_seq()
                &&& old(self).settled() ==> final(self).items() == old(self).items().push(value)
            },
    {
        let mut spins: usize = 0;
        while self.is_full()
            invariant
                self.wf(),
                *self == *old(self),
                spins <= spin_limit,
                self.write_seq() - self.read_seq() >= self.cap() ==> spin_limit < usize::MAX,
            decreases spin_limit - spins,
        {
            spins = spins + 1;
            if spins > spin_limit {
                return Err(value);
            }
        }
        self.publish_direct(value);
        Ok(())
    }

    /// Take the next item, spinning up to `spin_limit` times while nothing is
    /// waiting to be read; `None` if nothing comes.
    pub fn pop_blocking(&mut self, spin_limit: usize) -> (r: Option<T>)
        requires
            old(self).wf(),
            old(self).read_seq() == old(self).commit_seq() ==> spin_limit < usize::MAX,
        ensures
            final(self).wf(),
            final(self).commit_seq() == old(self).commit_seq(),
            final(self).write_seq() == old(self).write_seq(),
            old(self).read_seq() == old(self).commit_seq() ==> r is None && *final(self) == *old(self),
            r is Some <==> old(self).items().len() > 0,
            r matches Some(x) ==> x == old(self).items()[0],
            old(self).unwrapped() ==> final(self).items() == if r is Some {
                old(self).items().drop_first()
            } else {
                old(self).items()
            },
    {
        let mut spins: usize = 0;
        while self.is_empty()
            invariant
                self.wf(),
                *self == *old(self),
                spins <= spin_limit,
                self.read_seq() == self.commit_seq() ==> spin_limit < usize::MAX,
            decreases spin_limit - spins,
        {
            spins = spins + 1;
            if spins > spin_limit {
                return None;
            }
        }
        self.pop()
    }

    /// Can one more sequence be claimed without outstanding sequences
    /// outnumbering the slots, and without the write cursor running out?
    pub fn has_room(&self) -> (b: bool)
        requires
            self.wf(),
        ensures
            b == (self.write_seq() - self.read_seq() < self.cap() && self.write_seq() < usize::MAX),
    {
        !self.is_full() && self.next_write.get() < usize::MAX
    }

    /// Take every item waiting to be read.
    pub fn clear(&mut self)
        requires
            old(self).wf(),
        ensures
            final(self).wf(),
            final(self).read_seq() == old(self).commit_seq(),
            final(self).commit_seq() == old(self).commit_seq(),
            final(self).write_seq() == old(self).write_seq(),
            final(self).slots() == cleared(old(self).slots(), old(self).read_seq(), old(self).commit_seq()),
            final(self).items().len() == 0,
    {
        let ghost s0 = self.slots();
        let ghost r0 = self.read_seq();
        loop
            invariant
                self.wf(),
                self.cap() == s0.len(),
                r0 <= self.read_seq() <= self.commit_seq(),
                self.commit_seq() == old(self).commit_seq(),
                self.write_seq() == old(self).write_seq(),
                self.slots() == cleared(s0, r0, self.read_seq()),
                s0 == old(self).slots(),
                r0 == old(self).read_seq(),
            ensures
                self.wf(),
                self.read_seq() == self.commit_seq(),
                self.commit_seq() == old(self).commit_seq(),
                self.write_seq() == old(self).write_seq(),
                self.slots() == cleared(s0, r0, self.commit_seq()),
            decreases self.commit_seq() - self.read_seq(),
        {
            let ghost before = self.slots();
            let ghost rd = self.read_seq();
            proof {
                lemma_first_present(before, rd, self.commit_seq());
            }
            let r = self.try_next();
            proof {
                let f = first_present(before, rd, self.commit_seq());
                lemma_cleared_split(s0, r0, rd, f);
                lemma_cleared_holes(before, rd, f);
                if f < self.commit_seq() {
                    lemma_cleared_split(s0, r0, rd, f + 1);
                    lemma_cleared_split(s0, r0, f, f + 1);
                } else {
                    lemma_cleared_split(s0, r0, rd, self.commit_seq());
                }
            }
            if r.is_none() {
                break;
            }
        }
        proof {
            assert(self.items() =~= Seq::<T>::empty());
        }
    }

    proof fn lemma_take_front(self, pre: Self, f: int)
        requires
            pre.wf(),
            pre.read_seq() <= f < pre.commit_seq(),
            self.cap() == pre.cap(),
            self.slots() == pre.slots().update(slot_of(f, pre.cap()), None),
            self.read_seq() == f + 1,
            self.commit_seq() == pre.commit_seq(),
        ensures
            pre.unwrapped() ==> present_in(self.slots(), f + 1, self.commit_seq())
                == present_in(pre.slots(), f + 1, pre.commit_seq()),
    {
        if pre.unwrapped() {
            lemma_slot_in_range(f, pre.cap());
            assert forall|t: int| f + 1 <= t < pre.commit_seq() implies
                self.slots()[slot_of(t, self.slots().len())] == pre.slots()[slot_of(t, pre.slots().len())] by {
                lemma_distinct_slots(f, t, pre.cap());
                lemma_slot_in_range(t, pre.cap());
            }
            lemma_present_in_agree(self.slots(), pre.slots(), f + 1, pre.commit_seq());
        }
    }
}

impl<T: Clone> OrderRingBuffer<T> {
    /// Write copies of `values` into the slots of the claimed sequences
    /// `start_sequence..start_sequence + values.len()` and publish them, once
    /// every earlier sequence is published (`start_sequence` must be the next
    /// one to commit).
    pub fn publish_batch(&mut self, start_sequence: usize, values: &[T])
        requires
            old(self).wf(),
            old(self).commit_seq() == start_sequence,
            start_sequence + values@.len() <= old(self).write_seq(),
        ensures
            final(self).wf(),
            final(self).commit_seq() == start_sequence + values@.len(),
            final(self).write_seq() == old(self).write_seq(),
            final(self).read_seq() == old(self).read_seq(),
            final(self).cap() == old(self).cap(),
            forall|j: int| #![trigger final(self).slots()[j]] 0 <= j < old(self).cap() ==>
                match last_writer(start_sequence as int, values@.len() as int, old(self).cap(), j) {
                    Some(i) => final(self).slots()[j] matches Some(y) && cloned(values@[i], y),
                    None => final(self).slots()[j] == old(self).slots()[j],
                },
    {
        let n = values.len();
        let mut i: usize = 0;
        while i < n
            invariant
                self.wf(),
                i <= n,
                n == values@.len(),
                self.cap() == old(self).cap(),
                self.commit_seq() == old(self).commit_seq(),
                self.write_seq() == old(self).write_seq(),
                self.read_seq() == old(self).read_seq(),
                start_sequence + n <= self.write_seq(),
                forall|j: int| #![trigger self.slots()[j]] 0 <= j < old(self).cap() ==>
                    match last_writer(start_sequence as int, i as int, old(self).cap(), j) {
                        Some(w) => self.slots()[j] matches Some(y) && cloned(values@[w], y),
                        None => self.slots()[j] == old(self).slots()[j],
                    },
            decreases n - i,
        {
            let sequence = start_sequence + i;
            let index = self.index_of(sequence);
            let copy = values[i].clone();
            self.buffer.set(index, Some(copy));
            i = i + 1;
        }
        self.committed.set(start_sequence + n);
    }

    /// Append copies of `values`, in order, if they fit beside the sequences
    /// claimed and not yet read; otherwise change nothing and fail.
    pub fn push_batch(&mut self, values: &[T]) -> (r: Result<(), ()>)
        requires
            old(self).wf(),
            old(self).write_seq() - old(self).read_seq() + values@.len() <= usize::MAX,
            values@.len() > 0 && old(self).write_seq() - old(self).read_seq() + values@.len() <= old(self).cap() ==> {
                &&& old(self).settled()
                &&& old(self).write_seq() + values@.len() <= usize::MAX
            },
        ensures
            final(self).wf(),
            values@.len() == 0 ==> r is Ok && *final(self) == *old(self),
            values@.len() > 0 && old(self).write_seq() - old(self).read_seq() + values@.len() > old(self).cap() ==>
                r is Err && *final(self) == *old(self),
            values@.len() > 0 && old(self).write_seq() - old(self).read_seq() + values@.len() <= old(self).cap() ==> {
                &&& r is Ok
                &&& final(self).write_seq() == old(self).write_seq() + values@.len()
                &&& final(self).commit_seq() == old(self).write_seq() + values@.len()
                &&& final(self).read_seq() == old(self).read_seq()
                &&& final(self).items().len() == old(self).items().len() + values@.len()
                &&& final(self).items().subrange(0, old(self).items().len() as int) == old(self).items()
                &&& forall|i: int| 0 <= i < values@.len() ==>
                    cloned(values@[i], #[trigger] final(self).items()[old(self).items().len() + i])
            },
    {
        if values.len() == 0 {
            return Ok(());
        }
        if self.next_write.get() - self.next_read.get() + values.len() > self.buffer.len() {
            return Err(());
        }
        let (start_sequence, _) = self.claim_batch(values.len());
        self.publish_batch(start_sequence, values);
        proof {
            self.lemma_batch_appends(*old(self), start_sequence as int, values@);
        }
        Ok(())
    }

    proof fn lemma_batch_appends(self, pre: Self, start: int, values: Seq<T>)
        requires
            pre.wf(),
            pre.settled(),
            start == pre.write_seq(),
            values.len() > 0,
            start - pre.read_seq() + values.len() <= pre.cap(),
            self.cap() == pre.cap(),
            self.read_seq() == pre.read_seq(),
            self.commit_seq() == start + values.len(),
            forall|j: int| #![trigger self.slots()[j]] 0 <= j < pre.cap() ==>
                match last_writer(start, values.len() as int, pre.cap(), j) {
                    Some(i) => self.slots()[j] matches Some(y) && cloned(values[i], y),
                    None => self.slots()[j] == pre.slots()[j],
                },
        ensures
            self.items().len() == pre.items().len() + values.len(),
            self.items().subrange(0, pre.items().len() as int) == pre.items(),
            forall|i: int| 0 <= i < values.len() ==>
                cloned(values[i], #[trigger] self.items()[pre.items().len() + i]),
    {
        let lo = pre.read_seq();
        let n = values.len() as int;
        let c = pre.cap();
        assert forall|t: int| lo <= t < start implies
            self.slots()[slot_of(t, self.slots().len())] == pre.slots()[slot_of(t, pre.slots().len())] by {
            lemma_slot_in_range(t, c);
            assert forall|u: int| start <= u < start + n implies #[trigger] slot_of(u, c) != slot_of(t, c) by {
                lemma_distinct_slots(t, u, c);
            }
            lemma_last_writer_none(start, n, c, slot_of(t, c));
        }
        lemma_present_in_agree(self.slots(), pre.slots(), lo, start);
        assert forall|s: int| start <= s < start + n implies self.slots()[slot_of(s, self.slots().len())] is Some by {
            lemma_slot_in_range(s, c);
            lemma_last_writer_own(start, n, c, s - start);
        }
        lemma_present_in_full(self.slots(), start, start + n);
        lemma_present_in_split(self.slots(), lo, start, start + n);
        let a = pre.items();
        let b = present_in(self.slots(), start, start + n);
        assert(self.items() == a + b);
        assert((a + b).subrange(0, a.len() as int) =~= a);
        assert forall|i: int| 0 <= i < n implies cloned(values[i], #[trigger] self.items()[a.len() + i]) by {
            lemma_slot_in_range(start + i, c);
            lemma_last_writer_own(start, n, c, i);
            assert(b[i] == self.slots()[slot_of(start + i, c)]->0);
        }
    }

    /// Take, in sequence order, the items of at most `max_batch_size` of the
    /// sequences waiting to be read, each with its sequence; the read cursor
    /// moves past all of those sequences.
    pub fn try_next_batch(&mut self, max_batch_size: usize) -> (r: Vec<(usize, T)>)
        requires
            old(self).wf(),
        ensures
            final(self).wf(),
            ({
                let lo = old(self).read_seq();
                let batch = if old(self).commit_seq() - lo <= max_batch_size {
                    old(self).commit_seq() - lo
                } else {
                    max_batch_size as int
                };
                &&& final(self).read_seq() == lo + batch
                &&& final(self).slots() == cleared(old(self).slots(), lo, lo + batch)
                &&& r@ == taken_pairs(old(self).slots(), lo, lo + batch)
            }),
            final(self).commit_seq() == old(self).commit_seq(),
            final(self).write_seq() == old(self).write_seq(),
    {
        let current = self.next_read.get();
        let available = self.committed.get() - current;
        if available == 0 {
            return Vec::new();
        }
        let batch_size = if available <= max_batch_size { available } else { max_batch_size };
        let mut result: Vec<(usize, T)> = Vec::with_capacity(batch_size);
        let mut i: usize = 0;
        while i < batch_size
            invariant
                self.wf(),
                i <= batch_size,
                current == old(self).read_seq(),
                current + batch_size <= self.commit_seq(),
                self.cap() == old(self).cap(),
                self.read_seq() == old(self).read_seq(),
                self.commit_seq() == old(self).commit_seq(),
                self.write_seq() == old(self).write_seq(),
                self.slots() == cleared(old(self).slots(), current as int, current + i),
                result@ == taken_pairs(old(self).slots(), current as int, current + i),
            decreases batch_size - i,
        {
            let sequence = current + i;
            let index = self.index_of(sequence);
            proof {
                lemma_cleared_len(old(self).slots(), current as int, sequence as int);
            }
            let taken = self.buffer[index].take();
            match taken {
                Some(value) => {
                    result.push((sequence, value));
                },
                None => {},
            }
            proof {
                assert(self.slots() =~= cleared(old(self).slots(), current as int, sequence + 1));
            }
            i = i + 1;
        }
        self.next_read.set(current + batch_size);
        result
    }

    /// Replace the item of `sequence` with `updater` applied to it, if the
    /// sequence is waiting to be read and still holds an item.
    pub fn update<F: FnOnce(T) -> T>(&mut self, sequence: usize, updater: F) -> (r: bool)
        requires
            old(self).wf(),
            forall|x: T| updater.requires((x,)),
        ensures
            final(self).wf(),
            final(self).commit_seq() == old(self).commit_seq(),
            final(self).write_seq() == old(self).write_seq(),
            final(self).read_seq() == old(self).read_seq(),
            r == (old(self).read_seq() <= sequence < old(self).commit_seq() && old(self).slot(sequence as int) is Some),
            !r ==> *final(self) == *old(self),
            r ==> {
                &&& final(self).slot(sequence as int) matches Some(y)
                    && updater.ensures((old(self).slot(sequence as int)->0,), y)
                &&& final(self).slots() == old(self).slots().update(
                    slot_of(sequence as int, old(self).cap()),
                    final(self).slot(sequence as int),
                )
            },
            r && old(self).unwrapped() ==> {
                let k = present_in(old(self).slots(), old(self).read_seq(), sequence as int).len() as int;
                &&& 0 <= k < old(self).items().len()
                &&& old(self).items()[k] == old(self).slot(sequence as int)->0
                &&& final(self).items() == old(self).items().update(k, final(self).slot(sequence as int)->0)
            },
    {
        if sequence < self.next_read.get() || sequence >= self.committed.get() {
            return false;
        }
        let index = self.index_of(sequence);
        if self.buffer[index].is_none() {
            return false;
        }
        let taken = self.buffer[index].take();
        match taken {
            Some(value) => {
                let updated = updater(value);
                self.buffer.set(index, Some(updated));
                proof {
                    assert(self.slots() == old(self).slots().update(index as int, Some(updated)));
                    assert(self.slot(sequence as int) == Some(updated));
                    if old(self).unwrapped() {
                        self.lemma_replace_middle(*old(self), sequence as int);
                    }
                }
                true
            },
            None => false,
        }
    }

    /// A copy of the item of `sequence`, if the sequence is waiting to be read
    /// and its item has not been removed.
    pub fn get(&self, sequence: usize) -> (r: Option<T>)
        requires
            self.wf(),
        ensures
            if sequence < self.read_seq() || sequence >= self.commit_seq() {
                r is None
            } else {
                match self.slot(sequence as int) {
                    Some(x) => r matches Some(y) && cloned(x, y),
                    None => r is None,
                }
            },
    {
        if sequence < self.next_read.get() || sequence >= self.committed.get() {
            return None;
        }
        let index = self.index_of(sequence);
        match &self.buffer[index] {
            Some(x) => Some(x.clone()),
            None => None,
        }
    }

    /// A copy of the next item waiting to be read, leaving it in place.
    pub fn peek(&self) -> (r: Option<T>)
        requires
            self.wf(),
        ensures
            r is Some <==> self.items().len() > 0,
            r matches Some(y) ==> cloned(self.items()[0], y),
    {
        let current = self.first_filled();
        proof {
            lemma_first_present(self.slots(), self.read_seq(), self.commit_seq());
        }
        if current < self.committed.get() {
            let index = self.index_of(current);
            proof {
                lemma_present_in_front(self.slots(), current as int, self.commit_seq());
            }
            match &self.buffer[index] {
                Some(x) => Some(x.clone()),
                None => None,
            }
        } else {
            None
        }
    }

    /// Walk the items waiting to be read, from the read cursor to the commit cursor.
    pub fn iter(&self) -> (it: OrderRingBufferIterator<'_, T>)
        requires
            self.wf(),
        ensures
            it.source() == *self,
            it.position() == self.read_seq(),
            it.end() == self.commit_seq(),
    {
        OrderRingBufferIterator { buffer: self, current: self.next_read.get(), end: self.committed.get() }
    }
}

/// Walks the items of a ring buffer between two sequences, skipping slots
/// whose item was removed.
pub struct OrderRingBufferIterator<'a, T> {
    buffer: &'a OrderRingBuffer<T>,
    current: usize,
    end: usize,
}

impl<'a, T: Clone> OrderRingBufferIterator<'a, T> {
    /// The buffer walked.
    pub closed spec fn source(&self) -> OrderRingBuffer<T> {
        *self.buffer
    }

    /// The next sequence to look at.
    pub closed spec fn position(&self) -> int {
        self.current as int
    }

    /// The sequence at which the walk stops.
    pub closed spec fn end(&self) -> int {
        self.end as int
    }

    /// The items still ahead of the walk.
    pub open spec fn remaining(&self) -> Seq<T> {
        present_in(self.source().slots(), self.position(), self.end())
    }

    /// A copy of the next item, skipping removed ones, or `None` at the end.
    pub fn next(&mut self) -> (r: Option<T>)
        requires
            old(self).source().wf(),
            old(self).position() <= old(self).end() <= usize::MAX,
        ensures
            final(self).source() == old(self).source(),
            final(self).end() == old(self).end(),
            old(self).position() <= final(self).position() <= final(self).end(),
            r is Some <==> old(self).remaining().len() > 0,
            r matches Some(y) ==> cloned(old(self).remaining()[0], y),
            final(self).remaining() == if r is Some {
                old(self).remaining().drop_first()
            } else {
                old(self).remaining()
            },
            present_in(old(self).source().slots(), old(self).position(), final(self).position())
                == if r is Some {
                seq![old(self).remaining()[0]]
            } else {
                Seq::<T>::empty()
            },
    {
        let ghost slots = self.buffer.slots();
        let mut current = self.current;
        while current < self.end && self.buffer.buffer[self.buffer.index_of(current)].is_none()
            invariant
                self.buffer.wf(),
                slots == self.buffer.slots(),
                old(self).position() <= current <= self.end,
                self.end == old(self).end(),
                self.buffer == old(self).buffer,
                forall|t: int| old(self).position() <= t < current ==> slots[slot_of(t, slots.len())] is None,
            decreases self.end - current,
        {
            current = current + 1;
        }
        proof {
            lemma_present_in_holes(slots, old(self).position(), current as int);
            lemma_present_in_split(slots, old(self).position(), current as int, self.end as int);
            assert(Seq::<T>::empty() + present_in(slots, current as int, self.end as int)
                =~= present_in(slots, current as int, self.end as int));
        }
        if current < self.end {
            let index = self.buffer.index_of(current);
            self.current = current + 1;
            proof {
                lemma_present_in_front(slots, current as int, self.end as int);
                lemma_present_in_split(slots, old(self).position(), current as int, current + 1);
                lemma_present_in_front(slots, current as int, current + 1);
                assert(present_in(slots, current + 1, current + 1) =~= Seq::<T>::empty());
            }
            match &self.buffer.buffer[index] {
                Some(x) => Some(x.clone()),
                None => None,
            }
        } else {
            self.current = current;
            None
        }
    }

    /// Number of sequences between the walk's position and its end.
    pub fn len(&self) -> (n: usize)
        requires
            self.position() <= self.end(),
        ensures
            n == self.end() - self.position(),
    {
        self.end - self.current
    }

    /// Lower and upper bound on the number of sequences left, both `len()`.
    pub fn size_hint(&self) -> (r: (usize, Option<usize>))
        requires
            self.position() <= self.end(),
        ensures
            r.0 == self.end() - self.position(),
            r.1 == Some(r.0),
    {
        let remaining = self.end - self.current;
        (remaining, Some(remaining))
    }
}

} // verus!
