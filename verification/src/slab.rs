use vstd::prelude::*;
use vstd::set_lib::{lemma_int_range, lemma_len_subset, set_int_range};

use crate::key::Key;

verus! {

/// How many slots the first allocation makes room for.
const INITIAL_SIZE: usize = 4;

/// One storage cell of a [`Slab`].
///
/// A cell either holds a caller's value or, when free, the index of the next
/// free slot: the free list stores its links inside the free slots themselves,
/// at no extra memory cost. The explicit discriminant makes liveness checkable,
/// trading one tag per slot for memory safety. Slots beyond the high-water
/// mark are never materialized: the backing vector only reaches up to the
/// high-water mark, and its spare capacity stands in for slots that have never
/// been written.
enum Slot<T, K> {
    /// The slot holds a live value.
    Occupied { value: T },
    /// The slot is free; `link` is the index of the next free slot on the
    /// free list, or the high-water mark if this slot is the list's tail.
    Free { link: K },
}

/// A slab which can hold some number of elements, depending on the chosen `K`.
///
/// Values are stored in a contiguous, growable sequence of slots. Each insert
/// returns a small integer key under which the value stays addressable until
/// it is removed; freed slots are threaded onto an intrusive free list and
/// reused most-recently-freed first. Capacity only grows, and growth never
/// moves a value to a different index, so issued keys stay valid.
///
/// The slab does not track liveness on behalf of the caller beyond what its
/// own bookkeeping needs: values still stored when the slab is dropped are
/// simply dropped with it, with no per-element protocol, like memory a
/// conventional allocator was never asked to free.
pub struct Slab<T, K: Key> {
    slots: Vec<Slot<T, K>>,
    next: K,
    len: K,
    free: Ghost<Seq<int>>,
}

impl<T, K: Key> Slab<T, K> {
    /// The indices of the free slots, head of the free list first.
    pub closed spec fn free_list(&self) -> Seq<int> {
        self.free@
    }

    /// The high-water mark: the number of slots ever issued, which is also
    /// the length of the backing store.
    pub closed spec fn high(&self) -> int {
        self.slots@.len() as int
    }

    /// The integer value of the key the next `insert` will return.
    pub closed spec fn next_value(&self) -> int {
        self.next.value()
    }

    /// The number of values currently stored, as an integer.
    pub closed spec fn len_value(&self) -> int {
        self.len.value()
    }

    /// Where the free slot at position `j` of the free list points: the next
    /// list entry, or the high-water mark when `j` is the tail.
    spec fn link_target(free: Seq<int>, hwm: int, j: int) -> int {
        if j + 1 < free.len() {
            free[j + 1]
        } else {
            hwm
        }
    }

    /// The bookkeeping invariant, over the slab's components: `free` names
    /// exactly the free slots below the high-water mark, without repetition
    /// and in list order, each free slot stores a link to its successor (the
    /// tail links to the high-water mark), `next` is the head of the free
    /// list (or the high-water mark when nothing is free), and the occupied
    /// and free slots together account for the whole store.
    spec fn inv(slots: Seq<Slot<T, K>>, nextv: int, lenv: int, free: Seq<int>) -> bool {
        &&& free.no_duplicates()
        &&& (forall|j: int| 0 <= j < free.len() ==> 0 <= #[trigger] free[j] < slots.len())
        &&& (forall|j: int| 0 <= j < free.len() ==> slots[#[trigger] free[j]] is Free)
        &&& (forall|j: int|
            0 <= j < free.len() ==> slots[#[trigger] free[j]]->link.value() == Self::link_target(
                free,
                slots.len() as int,
                j,
            ))
        &&& (forall|i: int| 0 <= i < slots.len() && (#[trigger] slots[i]) is Free ==> free.contains(i))
        &&& nextv == if free.len() > 0 {
            free[0]
        } else {
            slots.len() as int
        }
        &&& lenv + free.len() == slots.len()
        &&& lenv >= 0
        &&& slots.len() <= K::max_value()
    }

    /// Well-formedness of the slab: see [`Slab::inv`].
    pub closed spec fn wf(&self) -> bool {
        Self::inv(self.slots@, self.next.value(), self.len.value(), self.free@)
    }

    /// The map from each occupied index to the value stored there.
    spec fn occupied_map(slots: Seq<Slot<T, K>>) -> Map<int, T> {
        Map::new(
            |i: int| 0 <= i < slots.len() && slots[i] is Occupied,
            |i: int| slots[i]->value,
        )
    }

    /// Create a new slab. No allocation occurs until the first
    /// [`insert`](Slab::insert).
    pub fn new() -> (s: Self)
        ensures
            s.wf(),
            s@ == Map::<int, T>::empty(),
            s.len_value() == 0,
            s.next_value() == 0,
            s.high() == 0,
            s.free_list() == Seq::<int>::empty(),
    {
        let s = Slab::<T, K> {
            slots: Vec::new(),
            next: K::zero(),
            len: K::zero(),
            free: Ghost(Seq::empty()),
        };
        proof {
            K::lemma_max_value_nonneg();
            assert(s@ =~= Map::<int, T>::empty());
        }
        s
    }

    /// Grow the backing store's capacity ahead of the high-water mark:
    /// reserve room to double the store, with a fixed floor for the first
    /// allocation. When enough capacity is already on hand the reservation
    /// is a no-op, so calling this before every virgin insert yields the
    /// classic amortized doubling. Reserving never moves existing slots, so
    /// issued keys keep their addresses, and slots beyond the high-water
    /// mark stay unmaterialized spare capacity.
    fn extend(&mut self)
        ensures
            final(self).slots@ == old(self).slots@,
            final(self).next == old(self).next,
            final(self).len == old(self).len,
            final(self).free == old(self).free,
    {
        let n = self.slots.len();
        let extend_by = if n == 0 {
            INITIAL_SIZE
        } else {
            n
        };
        self.slots.reserve(extend_by);
    }

    /// Insert `value` into the slab, returning the key under which it is
    /// stored.
    ///
    /// The value goes into the head of the free list when some slot is free,
    /// and into the virgin slot at the high-water mark otherwise, growing the
    /// backing store by one. Growth never moves an existing slot, so every
    /// key issued earlier keeps addressing its value. The caller must keep
    /// the number of slots ever issued within the key type's range: a fresh
    /// slot is only issued when no freed slot is waiting to be reused.
    pub fn insert(&mut self, value: T) -> (k: K)
        requires
            old(self).wf(),
            old(self).free_list().len() > 0 || old(self).high() < K::max_value(),
        ensures
            final(self).wf(),
            k.value() == old(self).next_value(),
            0 <= k.value() < final(self).high(),
            !old(self)@.dom().contains(k.value()),
            final(self)@ == old(self)@.insert(k.value(), value),
            forall|i: int|
                old(self)@.dom().contains(i) ==> final(self)@.dom().contains(i) && final(self)@[i] == old(self)@[i],
            final(self).len_value() == old(self).len_value() + 1,
            old(self).free_list().len() == 0 ==> final(self).high() == old(self).high() + 1
                && final(self).next_value() == old(self).next_value() + 1 && final(self).free_list() == Seq::<int>::empty(),
            old(self).free_list().len() > 0 ==> final(self).high() == old(self).high() && final(
                self).next_value() == (if old(self).free_list().len() > 1 {
                old(self).free_list()[1]
            } else {
                old(self).high()
            }) && final(self).free_list() == old(self).free_list().skip(1),
    {
        let n = self.slots.len();
        let k = self.next;
        proof {
            if self.free@.len() > 0 {
                assert(0 <= self.free@[0] < self.slots@.len());
            }
        }
        let idx = k.as_usize();
        if idx == n {
            // The free list is empty: issue the virgin slot at the
            // high-water mark, growing the store by one.
            proof {
                if self.free@.len() > 0 {
                    assert(false);
                }
            }
            self.extend();
            self.slots.push(Slot::Occupied { value });
            self.next = k.inc();
            self.len = self.len.inc();
            proof {
                let s0 = old(self).slots@;
                let s1 = self.slots@;
                assert forall|i: int| 0 <= i < s1.len() && (#[trigger] s1[i]) is Free implies
                    self.free@.contains(i) by {
                    assert(s1[i] == s0[i]);
                    assert(old(self).free@.contains(i));
                }
                assert(self@ =~= old(self)@.insert(k.value(), value));
            }
        } else {
            // Reuse the head of the free list; the link stored inside it
            // becomes the new head.
            proof {
                if self.free@.len() == 0 {
                    assert(false);
                }
                assert(self.slots@[self.free@[0]] is Free);
                assert(self.slots@[idx as int] is Free);
            }
            let link = match &self.slots[idx] {
                Slot::Free { link } => *link,
                Slot::Occupied { .. } => unreached(),
            };
            self.slots[idx] = Slot::Occupied { value };
            self.next = link;
            self.len = self.len.inc();
            self.free = Ghost(self.free@.skip(1));
            proof {
                let s0 = old(self).slots@;
                let s1 = self.slots@;
                let f0 = old(self).free@;
                let f1 = self.free@;
                let hwm = s0.len() as int;
                assert(idx == f0[0]);
                assert(s0[f0[0]]->link.value() == Self::link_target(f0, hwm, 0));
                assert(f1.no_duplicates()) by {
                    assert forall|a: int, b: int|
                        0 <= a < f1.len() && 0 <= b < f1.len() && a != b implies f1[a] != f1[b] by {
                        assert(f1[a] == f0[a + 1]);
                        assert(f1[b] == f0[b + 1]);
                    }
                }
                assert forall|j: int| 0 <= j < f1.len() implies 0 <= #[trigger] f1[j] < s1.len()
                    && s1[f1[j]] is Free && s1[f1[j]]->link.value() == Self::link_target(
                    f1,
                    hwm,
                    j,
                ) by {
                    assert(f1[j] == f0[j + 1]);
                    assert(f0[j + 1] != f0[0]);
                    assert(s1[f1[j]] == s0[f1[j]]);
                    assert(s0[f0[j + 1]]->link.value() == Self::link_target(f0, hwm, j + 1));
                    if j + 1 < f1.len() {
                        assert(f1[j + 1] == f0[j + 2]);
                    }
                }
                assert forall|i: int| 0 <= i < s1.len() && (#[trigger] s1[i]) is Free implies
                    f1.contains(i) by {
                    assert(i != f0[0]);
                    assert(s0[i] is Free);
                    assert(f0.contains(i));
                    let j = choose|j: int| 0 <= j < f0.len() && f0[j] == i;
                    assert(j != 0);
                    assert(f1[j - 1] == f0[j]);
                }
                assert(self@ =~= old(self)@.insert(k.value(), value));
            }
        }
        k
    }

    /// An occupied slot is never on the free list, so the free list cannot
    /// account for the whole store: at least one value is stored.
    proof fn lemma_occupied_slot_implies_len_positive(&self, i: int)
        requires
            self.wf(),
            0 <= i < self.slots@.len(),
            self.slots@[i] is Occupied,
        ensures
            self.len.value() > 0,
    {
        let f = self.free@;
        let n = self.slots@.len() as int;
        f.unique_seq_to_set();
        lemma_int_range(0, n);
        let target = set_int_range(0, n).remove(i);
        assert forall|x: int| f.to_set().contains(x) implies target.contains(x) by {
            let j = choose|j: int| 0 <= j < f.len() && f[j] == x;
            assert(self.slots@[f[j]] is Free);
        }
        lemma_len_subset(f.to_set(), target);
    }

    /// Remove the value stored under `key`, returning it.
    ///
    /// `key` must currently name an occupied slot of this slab. The slot is
    /// pushed onto the head of the free list, pointing at the previous head,
    /// so it is the first slot the next `insert` reuses; every other key
    /// keeps addressing the value it addressed before.
    pub fn remove(&mut self, key: K) -> (value: T)
        requires
            old(self).wf(),
            old(self)@.dom().contains(key.value()),
        ensures
            final(self).wf(),
            value == old(self)@[key.value()],
            final(self)@ == old(self)@.remove(key.value()),
            forall|i: int|
                i != key.value() && old(self)@.dom().contains(i) ==> final(self)@.dom().contains(i)
                    && final(self)@[i] == old(self)@[i],
            final(self).len_value() == old(self).len_value() - 1,
            final(self).next_value() == key.value(),
            final(self).high() == old(self).high(),
            final(self).free_list() == seq![key.value()] + old(self).free_list(),
    {
        proof {
            assert(self.slots.len() == self.slots@.len());
            self.lemma_occupied_slot_implies_len_positive(key.value());
        }
        let idx = key.as_usize();
        let mut slot = Slot::Free { link: self.next };
        core::mem::swap(&mut slot, &mut self.slots[idx]);
        let value = match slot {
            Slot::Occupied { value } => value,
            Slot::Free { .. } => unreached(),
        };
        self.next = key;
        self.len = self.len.dec();
        self.free = Ghost(seq![key.value() as int] + self.free@);
        proof {
            let s0 = old(self).slots@;
            let s1 = self.slots@;
            let f0 = old(self).free@;
            let f1 = self.free@;
            let hwm = s0.len() as int;
            let kv = key.value() as int;
            assert(!f0.contains(kv)) by {
                if f0.contains(kv) {
                    let j = choose|j: int| 0 <= j < f0.len() && f0[j] == kv;
                    assert(s0[f0[j]] is Free);
                }
            }
            assert(f1.no_duplicates()) by {
                assert forall|a: int, b: int|
                    0 <= a < f1.len() && 0 <= b < f1.len() && a != b implies f1[a] != f1[b] by {
                    if a > 0 && b > 0 {
                        assert(f1[a] == f0[a - 1]);
                        assert(f1[b] == f0[b - 1]);
                    } else if a == 0 {
                        assert(f1[b] == f0[b - 1]);
                        assert(f0.contains(f0[b - 1]));
                    } else {
                        assert(f1[a] == f0[a - 1]);
                        assert(f0.contains(f0[a - 1]));
                    }
                }
            }
            assert forall|j: int| 0 <= j < f1.len() implies 0 <= #[trigger] f1[j] < s1.len()
                && s1[f1[j]] is Free && s1[f1[j]]->link.value() == Self::link_target(
                f1,
                hwm,
                j,
            ) by {
                if j == 0 {
                    assert(f1[0] == kv);
                    assert(s1[kv]->link.value() == old(self).next.value());
                    if f0.len() > 0 {
                        assert(f1[1] == f0[0]);
                    }
                } else {
                    assert(f1[j] == f0[j - 1]);
                    assert(f0[j - 1] != kv);
                    assert(s1[f1[j]] == s0[f1[j]]);
                    assert(s0[f0[j - 1]]->link.value() == Self::link_target(f0, hwm, j - 1));
                    if j + 1 < f1.len() {
                        assert(f1[j + 1] == f0[j]);
                    }
                }
            }
            assert forall|i: int| 0 <= i < s1.len() && (#[trigger] s1[i]) is Free implies
                f1.contains(i) by {
                if i == kv {
                    assert(f1[0] == kv);
                } else {
                    assert(s0[i] is Free);
                    assert(f0.contains(i));
                    let j = choose|j: int| 0 <= j < f0.len() && f0[j] == i;
                    assert(f1[j + 1] == f0[j]);
                }
            }
            assert(self@ =~= old(self)@.remove(key.value()));
            assert(self.free@ == seq![key.value()] + old(self).free_list());
        }
        value
    }

    /// Shared access to the value stored under `key`, which must currently
    /// name an occupied slot of this slab.
    pub fn get(&self, key: K) -> (value: &T)
        requires
            self.wf(),
            self@.dom().contains(key.value()),
        ensures
            *value == self@[key.value()],
    {
        proof {
            assert(self.slots.len() == self.slots@.len());
            assert(0 <= key.value() < self.slots@.len());
            assert(self.slots@[key.value() as int] is Occupied);
        }
        let idx = key.as_usize();
        match &self.slots[idx] {
            Slot::Occupied { value } => value,
            Slot::Free { .. } => unreached(),
        }
    }

    /// Exclusive access to the value stored under `key`, which must currently
    /// name an occupied slot of this slab.
    ///
    /// Writing through the returned reference replaces the stored value; the
    /// slab's keys, free list, length, and capacity are unaffected.
    pub fn get_mut(&mut self, key: K) -> (value: &mut T)
        requires
            old(self).wf(),
            old(self)@.dom().contains(key.value()),
        ensures
            *value == old(self)@[key.value()],
            final(self).wf(),
            final(self)@ == old(self)@.insert(key.value(), *final(value)),
            final(self).len_value() == old(self).len_value(),
            final(self).next_value() == old(self).next_value(),
            final(self).high() == old(self).high(),
            final(self).free_list() == old(self).free_list(),
    {
        proof {
            assert(self.slots.len() == self.slots@.len());
            assert(0 <= key.value() < self.slots@.len());
            assert(self.slots@[key.value() as int] is Occupied);
        }
        let idx = key.as_usize();
        let slot = &mut self.slots[idx];
        match slot {
            Slot::Occupied { value } => {
                proof {
                    let s0 = old(self).slots@;
                    let f0 = old(self).free@;
                    let kv = key.value() as int;
                    assert forall|t: T|
                        Self::inv(
                            s0.update(kv, Slot::Occupied { value: t }),
                            old(self).next.value(),
                            old(self).len.value(),
                            f0,
                        ) by {
                        let s1 = s0.update(kv, Slot::Occupied { value: t });
                        assert forall|j: int| 0 <= j < f0.len() implies s1[#[trigger] f0[j]]
                            == s0[f0[j]] by {
                            assert(s0[f0[j]] is Free);
                        }
                        assert forall|i: int|
                            0 <= i < s1.len() && (#[trigger] s1[i]) is Free implies f0.contains(
                            i,
                        ) by {
                            assert(s0[i] is Free);
                        }
                    }
                    assert forall|t: T|
                        Self::occupied_map(s0.update(kv, Slot::Occupied { value: t }))
                            =~= Self::occupied_map(s0).insert(kv, t) by {}
                }
                value
            },
            Slot::Free { .. } => unreached(),
        }
    }

    /// The key that the next call to [`insert`](Slab::insert) will return,
    /// exposed for diagnostics and testing.
    pub fn next(&self) -> (k: K)
        ensures
            k.value() == self.next_value(),
    {
        self.next
    }

    /// The number of values currently stored in the slab.
    pub fn len(&self) -> (k: K)
        ensures
            k.value() == self.len_value(),
    {
        self.len
    }
}

/// A slab that has never issued a slot hands out the zero key first: the
/// first insert on a freshly constructed slab returns the key type's zero.
pub proof fn lemma_fresh_slab_first_key_is_zero<T, K: Key>(s: &Slab<T, K>)
    requires
        s.wf(),
        s.high() == 0,
    ensures
        s.next_value() == 0,
{
    // No free slot can sit below a high-water mark of zero, so the free
    // list is empty and the next key is the high-water mark itself.
    if s.free_list().len() > 0 {
        assert(0 <= s.free_list()[0] < s.high());
    }
}

/// While no slot has ever been freed, the free list is empty and the next
/// key equals the number of values stored: the n-th insert on a slab that
/// has seen no remove returns the zero key incremented n - 1 times.
pub proof fn lemma_no_free_slots_next_is_len<T, K: Key>(s: &Slab<T, K>)
    requires
        s.wf(),
        s.free_list().len() == 0,
    ensures
        s.next_value() == s.len_value(),
        s.next_value() == s.high(),
{
}

/// The most recently freed slot is the first one reused: the key the next
/// insert returns is the head of the free list.
pub proof fn lemma_next_reuses_free_head<T, K: Key>(s: &Slab<T, K>)
    requires
        s.wf(),
        s.free_list().len() > 0,
    ensures
        s.next_value() == s.free_list()[0],
{
}

/// Round-trip: after a write under one key — by the insert that issued the
/// key, or through the reference `get_mut` hands out, both of which turn the
/// slab's view `before` into `before.insert(written, v)` — looking up any
/// still-occupied key observes the last value written under it: the new
/// value at the written key, the value held before at every other key.
pub proof fn lemma_lookup_sees_last_write<T, K: Key>(
    before: Map<int, T>,
    after: Map<int, T>,
    written: int,
    v: T,
    k: int,
)
    requires
        after == before.insert(written, v),
        after.dom().contains(k),
    ensures
        k == written ==> after[k] == v,
        k != written ==> after[k] == before[k],
{
}

/// The slab's length is exactly the number of currently occupied keys.
pub proof fn lemma_len_counts_occupied_keys<T, K: Key>(s: &Slab<T, K>)
    requires
        s.wf(),
    ensures
        s@.dom().finite(),
        s.len_value() == s@.dom().len(),
{
    let f = s.free_list();
    let n = s.high();
    let fs = f.to_set();
    let dom = s@.dom();
    f.unique_seq_to_set();
    lemma_int_range(0, n);
    assert forall|x: int| fs.contains(x) implies set_int_range(0, n).contains(x) by {
        let j = choose|j: int| 0 <= j < f.len() && f[j] == x;
        assert(0 <= f[j] < n);
    }
    assert(dom.disjoint(fs)) by {
        assert forall|x: int| dom.contains(x) implies !fs.contains(x) by {
            if fs.contains(x) {
                let j = choose|j: int| 0 <= j < f.len() && f[j] == x;
                assert(s.slots@[f[j]] is Free);
            }
        }
    }
    assert(dom + fs =~= set_int_range(0, n)) by {
        assert forall|i: int| set_int_range(0, n).contains(i) implies (dom + fs).contains(i) by {
            if !(s@.dom().contains(i)) {
                assert(fs.contains(i));
            }
        }
    }
    lemma_len_subset(dom, set_int_range(0, n));
    vstd::set_lib::lemma_set_disjoint_lens(dom, fs);
}

impl<T, K: Key> View for Slab<T, K> {
    type V = Map<int, T>;

    /// A slab is viewed as the map from each occupied key to its value.
    closed spec fn view(&self) -> Map<int, T> {
        Self::occupied_map(self.slots@)
    }
}

impl<T, K: Key> Default for Slab<T, K> {
    /// Same as [`Slab::new`].
    fn default() -> (s: Self)
        ensures
            s.wf(),
            s@ == Map::<int, T>::empty(),
            s.len_value() == 0,
            s.next_value() == 0,
            s.high() == 0,
            s.free_list() == Seq::<int>::empty(),
    {
        Slab::new()
    }
}

} // verus!
