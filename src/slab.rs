//! The slab: values in a dense array of slots, addressed by keys, with an
//! occupancy index that says which slots hold a value.
use vstd::prelude::*;

use crate::indexer::{capacity_after_resize, capacity_to_cover, Indexer, INLINE_CAPACITY};
use crate::iter::{IntoIter, IntoValues, Iter, IterMut, Keys, Values, ValuesMut};
use crate::key::Key;
use crate::occupancy::{
    all_vacant, ascending_within, count_occupied, first_vacant, lemma_all_vacant,
    lemma_first_vacant, lemma_positions_from, lemma_positions_from_extend,
    lemma_positions_from_update, occupied_positions, resized,
};

verus! {

/// Which slots of `s` hold a value.
pub open spec fn flags_of<T>(s: Seq<Option<T>>) -> Seq<bool> {
    Seq::new(s.len(), |i: int| s[i] is Some)
}

/// `n` vacant slots.
pub open spec fn vacant_slots<T>(n: nat) -> Seq<Option<T>> {
    Seq::new(n, |i: int| None::<T>)
}

/// The value in slot `k` of `s`; slots past the end hold none.
pub open spec fn lookup<T>(s: Seq<Option<T>>, k: int) -> Option<T> {
    if 0 <= k < s.len() {
        s[k]
    } else {
        None
    }
}

/// How many slots of `s` hold a value.
pub open spec fn count_values<T>(s: Seq<Option<T>>) -> nat {
    count_occupied(flags_of(s))
}

/// The positions of the slots of `s` that hold a value, ascending.
pub open spec fn occupied_keys<T>(s: Seq<Option<T>>) -> Seq<int> {
    occupied_positions(flags_of(s))
}

/// The key an insertion into `s` is given: the lowest vacant slot, or the
/// first slot past the end when every slot holds a value.
pub open spec fn insert_key<T>(s: Seq<Option<T>>) -> int {
    first_vacant(flags_of(s))
}

/// The slots after inserting `v` into `s`. When every slot held a value the
/// slots grow first, to at least double their number.
pub open spec fn after_insert<T>(s: Seq<Option<T>>, v: T) -> Seq<Option<T>> {
    let k = insert_key(s);
    Seq::new(
        capacity_to_cover(s.len(), k as nat),
        |i: int|
            if i == k {
                Some(v)
            } else if i < s.len() {
                s[i]
            } else {
                None
            },
    )
}

/// The slots after removing key `k` from `s`: slot `k` is vacant.
pub open spec fn after_remove<T>(s: Seq<Option<T>>, k: int) -> Seq<Option<T>> {
    if lookup(s, k) is Some {
        s.update(k, None)
    } else {
        s
    }
}

/// The slots after `resize(n)`: values below `n` stay, all others are dropped,
/// and there are `max(n, INLINE_CAPACITY)` slots.
pub open spec fn after_resize<T>(s: Seq<Option<T>>, n: nat) -> Seq<Option<T>> {
    Seq::new(
        capacity_after_resize(n),
        |i: int|
            if i < n && i < s.len() {
                s[i]
            } else {
                None
            },
    )
}

/// A slab allocator: values are stored in slots and addressed by [`Key`]s.
/// Inserting takes the lowest vacant slot. Keys carry no generation: once a
/// key's value is removed, a later insertion may hand out the same key.
#[derive(Debug)]
pub struct Slab<T> {
    pub(crate) index: Indexer,
    pub(crate) entries: Vec<Option<T>>,
}

impl<T> View for Slab<T> {
    type V = Seq<Option<T>>;

    /// The slots, each vacant or holding a value; their number is the capacity.
    closed spec fn view(&self) -> Seq<Option<T>> {
        self.entries@
    }
}

impl<T> Default for Slab<T> {
    fn default() -> (r: Self)
        ensures
            r.wf(),
            r@ == vacant_slots::<T>(INLINE_CAPACITY as nat),
    {
        Self::new()
    }
}

impl<T> Slab<T> {
    /// The index marks exactly the slots that hold a value.
    pub closed spec fn wf(&self) -> bool {
        &&& self.index.wf()
        &&& self.index@ == flags_of(self.entries@)
    }

    /// What well-formedness says of the fields.
    pub(crate) proof fn lemma_wf(&self)
        requires
            self.wf(),
        ensures
            self.index.wf(),
            self.index@ == flags_of(self.entries@),
            self@ == self.entries@,
    {
    }

    /// A slab has at least the inline capacity and at most `usize::MAX` slots.
    pub proof fn lemma_capacity(&self)
        requires
            self.wf(),
        ensures
            INLINE_CAPACITY <= self@.len() <= usize::MAX,
    {
        self.index.lemma_capacity();
    }

    /// Creates an empty slab.
    pub fn new() -> (r: Self)
        ensures
            r.wf(),
            r@ == vacant_slots::<T>(INLINE_CAPACITY as nat),
    {
        Self::with_capacity(0)
    }

    /// Creates an empty slab with at least `capacity` slots.
    pub fn with_capacity(capacity: usize) -> (r: Self)
        ensures
            r.wf(),
            r@ == vacant_slots::<T>(capacity_after_resize(capacity as nat)),
    {
        let index = Indexer::with_capacity(capacity);
        let n = index.capacity();
        let mut entries: Vec<Option<T>> = Vec::new();
        while entries.len() < n
            invariant
                entries@.len() <= n,
                forall|i: int| 0 <= i < entries@.len() ==> entries@[i] is None,
            decreases n - entries@.len(),
        {
            entries.push(None);
        }
        let r = Slab { index, entries };
        assert(r.entries@ =~= vacant_slots::<T>(n as nat));
        assert(flags_of(r.entries@) =~= all_vacant(n as nat));
        r
    }

    /// Whether `key` refers to a slot that holds a value. Keys past the
    /// capacity refer to none.
    pub fn contains_key(&self, key: Key) -> (r: bool)
        requires
            self.wf(),
        ensures
            r == (lookup(self@, key@ as int) is Some),
    {
        self.index.contains(key.index())
    }

    /// The value that `key` refers to, if any.
    pub fn get(&self, key: Key) -> (r: Option<&T>)
        requires
            self.wf(),
        ensures
            match r {
                Some(v) => lookup(self@, key@ as int) == Some(*v),
                None => lookup(self@, key@ as int) is None,
            },
    {
        let pos = key.index();
        if self.index.contains(pos) {
            match &self.entries[pos] {
                Some(v) => Some(v),
                None => None,
            }
        } else {
            None
        }
    }

    /// A mutable reference to the value that `key` refers to, if any. What is
    /// written through it becomes the value of that slot.
    pub fn get_mut(&mut self, key: Key) -> (r: Option<&mut T>)
        requires
            old(self).wf(),
        ensures
            final(self).wf(),
            match r {
                Some(v) => {
                    &&& lookup(old(self)@, key@ as int) == Some(*v)
                    &&& final(self)@ == old(self)@.update(key@ as int, Some(*final(v)))
                },
                None => {
                    &&& lookup(old(self)@, key@ as int) is None
                    &&& final(self)@ == old(self)@
                },
            },
    {
        let pos = key.index();
        if self.index.contains(pos) {
            assert forall|x: T| #[trigger]
                flags_of(self.entries@.update(pos as int, Some(x))) =~= flags_of(self.entries@) by {}
            let slot = &mut self.entries[pos];
            match slot {
                Some(v) => Some(v),
                None => None,
            }
        } else {
            None
        }
    }

    /// Inserts `value` into the lowest vacant slot and returns its key. When
    /// every slot holds a value the slab first grows to at least double its
    /// capacity.
    pub fn insert(&mut self, value: T) -> (r: Key)
        requires
            old(self).wf(),
            count_values(old(self)@) < usize::MAX,
        ensures
            final(self).wf(),
            r@ == insert_key(old(self)@),
            final(self)@ == after_insert(old(self)@, value),
    {
        proof {
            self.lemma_capacity();
            lemma_first_vacant(self.index@);
        }
        let pos = match self.index.next_unoccupied() {
            Some(p) => p,
            None => self.index.capacity(),
        };
        self.index.insert(pos);
        let cap = self.index.capacity();
        assert(self.index@ == resized(old(self).index@, cap as nat).update(pos as int, true));
        let ghost before = self.entries@;
        let ghost index = self.index;
        while self.entries.len() < cap
            invariant
                self.index == index,
                before.len() <= self.entries@.len() <= cap,
                forall|i: int| 0 <= i < before.len() ==> self.entries@[i] == before[i],
                forall|i: int| before.len() <= i < self.entries@.len() ==> self.entries@[i] is None,
            decreases cap - self.entries@.len(),
        {
            self.entries.push(None);
        }
        self.entries.set(pos, Some(value));
        proof {
            assert(pos == insert_key(old(self)@));
            assert(cap == capacity_to_cover(old(self)@.len(), pos as nat));
            assert forall|i: int| 0 <= i < cap implies #[trigger] self.index@[i] == (
            self.entries@[i] is Some) by {
                if i == pos {
                    assert(self.entries@[i] is Some);
                    assert(self.index@[i]);
                } else if i < before.len() {
                    assert(old(self).index@[i] == (before[i] is Some));
                    assert(self.index@[i] == old(self).index@[i]);
                    assert(self.entries@[i] == before[i]);
                } else {
                    assert(!self.index@[i]);
                    assert(self.entries@[i] is None);
                }
            }
            assert(self.entries@ =~= after_insert(old(self)@, value));
            assert(self.index@ =~= flags_of(self.entries@));
        }
        Key::new(pos)
    }

    /// Removes the value that `key` refers to and returns it; the slot becomes
    /// vacant and its key may be handed out again. Any other key, including
    /// one past the capacity, gives `None` and changes nothing.
    pub fn remove(&mut self, key: Key) -> (r: Option<T>)
        requires
            old(self).wf(),
        ensures
            final(self).wf(),
            r == lookup(old(self)@, key@ as int),
            final(self)@ == after_remove(old(self)@, key@ as int),
    {
        let pos = key.index();
        if self.index.remove(pos) {
            let mut out = None;
            self.entries.set_and_swap(pos, &mut out);
            proof {
                assert(self.index@ =~= flags_of(self.entries@));
            }
            out
        } else {
            None
        }
    }

    /// How many values the slab holds.
    pub fn len(&self) -> (r: usize)
        requires
            self.wf(),
        ensures
            r == count_values(self@),
    {
        self.index.len()
    }

    /// Whether the slab holds no value.
    pub fn is_empty(&self) -> (r: bool)
        requires
            self.wf(),
        ensures
            r == (count_values(self@) == 0),
    {
        self.index.is_empty()
    }

    /// How many slots the slab has.
    pub fn capacity(&self) -> (r: usize)
        requires
            self.wf(),
        ensures
            r == self@.len(),
    {
        self.index.capacity()
    }

    /// Drops every value, visiting only the occupied slots; the capacity stays.
    pub fn clear(&mut self)
        requires
            old(self).wf(),
        ensures
            final(self).wf(),
            final(self)@ == vacant_slots::<T>(old(self)@.len()),
    {
        let ghost index = self.index;
        let mut occupied = self.index.occupied();
        proof {
            lemma_positions_from(self.index@, 0, true);
        }
        loop
            invariant
                occupied.wf(),
                occupied.flags() == index@,
                index@ == flags_of(old(self)@),
                self.index == index,
                self.entries@.len() == old(self)@.len(),
                forall|i: int|
                    0 <= i < self.entries@.len() && #[trigger] self.entries@[i] is Some
                        ==> occupied@.contains(i),
            ensures
                self.index == index,
                self.entries@.len() == old(self)@.len(),
                forall|i: int| 0 <= i < self.entries@.len() ==> #[trigger] self.entries@[i] is None,
            decreases occupied@.len(),
        {
            proof {
                occupied.lemma_view();
            }
            let ghost before = occupied@;
            let ghost prev = self.entries@;
            match occupied.next() {
                Some(p) => {
                    self.entries.set(p, None);
                    proof {
                        assert forall|i: int|
                            0 <= i < self.entries@.len() && #[trigger] self.entries@[i] is Some
                                implies occupied@.contains(i) by {
                            assert(prev[i] is Some);
                            assert(before.contains(i));
                            let k = choose|k: int| 0 <= k < before.len() && before[k] == i;
                            assert(k != 0);
                            assert(occupied@[k - 1] == i);
                        }
                    }
                },
                None => {
                    proof {
                        assert forall|i: int| 0 <= i < self.entries@.len() implies #[trigger]
                            self.entries@[i] is None by {
                            if self.entries@[i] is Some {
                                assert(occupied@.contains(i));
                            }
                        }
                    }
                    break;
                },
            }
        }
        self.index.clear();
        proof {
            assert(self.entries@ =~= vacant_slots::<T>(old(self)@.len()));
            assert(self.index@ =~= flags_of(self.entries@));
        }
    }

    /// Adds `additional` vacant slots.
    pub fn reserve(&mut self, additional: usize)
        requires
            old(self).wf(),
            old(self)@.len() + additional <= usize::MAX,
        ensures
            final(self).wf(),
            final(self)@ == old(self)@ + vacant_slots::<T>(additional as nat),
    {
        proof {
            self.lemma_capacity();
        }
        let new_len = self.index.capacity() + additional;
        self.resize(new_len);
        assert(self@ =~= old(self)@ + vacant_slots::<T>(additional as nat));
    }

    /// Makes the slab have `max(new_len, INLINE_CAPACITY)` slots. Values in
    /// slots below `new_len` stay; every value at or past `new_len` is dropped.
    pub fn resize(&mut self, new_len: usize)
        requires
            old(self).wf(),
        ensures
            final(self).wf(),
            final(self)@ == after_resize(old(self)@, new_len as nat),
    {
        self.index.resize(new_len);
        let cap = self.index.capacity();
        let ghost index = self.index;
        self.entries.truncate(cap);
        let ghost kept = self.entries@;
        let mut i = new_len;
        while i < self.entries.len()
            invariant
                self.index == index,
                self.entries@.len() == kept.len(),
                kept.len() <= cap,
                new_len <= i,
                forall|j: int|
                    0 <= j < kept.len() ==> #[trigger] self.entries@[j] == if new_len <= j < i {
                        None
                    } else {
                        kept[j]
                    },
            decreases kept.len() - i,
        {
            self.entries.set(i, None);
            i = i + 1;
        }
        while self.entries.len() < cap
            invariant
                self.index == index,
                kept.len() <= self.entries@.len() <= cap,
                forall|j: int|
                    0 <= j < kept.len() ==> #[trigger] self.entries@[j] == if new_len <= j {
                        None
                    } else {
                        kept[j]
                    },
                forall|j: int| kept.len() <= j < self.entries@.len() ==> self.entries@[j] is None,
            decreases cap - self.entries@.len(),
        {
            self.entries.push(None);
        }
        proof {
            assert(self.entries@ =~= after_resize(old(self)@, new_len as nat));
            assert(self.index@ =~= flags_of(self.entries@));
        }
    }

    /// The keys and values, in ascending key order.
    pub fn iter(&self) -> (r: Iter<'_, T>)
        requires
            self.wf(),
        ensures
            r.wf(),
            r@ == occupied_keys(self@),
            r.slots() == self@,
    {
        Iter::new(self)
    }

    /// The keys, ascending.
    pub fn keys(&self) -> (r: Keys<'_>)
        requires
            self.wf(),
        ensures
            r.wf(),
            r@ == occupied_keys(self@),
    {
        Keys::new(self)
    }

    /// The values, in ascending key order.
    pub fn values(&self) -> (r: Values<'_, T>)
        requires
            self.wf(),
        ensures
            r.wf(),
            r@ == occupied_keys(self@),
            r.slots() == self@,
    {
        Values::new(self)
    }

    /// Moves the keys and values out, in ascending key order.
    pub fn into_iter(self) -> (r: IntoIter<T>)
        requires
            self.wf(),
        ensures
            r.wf(),
            r@ == occupied_keys(self@),
            r.slots() == self@,
    {
        IntoIter::new(self)
    }

    /// Moves the values out, in ascending key order.
    pub fn into_values(self) -> (r: IntoValues<T>)
        requires
            self.wf(),
        ensures
            r.wf(),
            r@ == occupied_keys(self@),
            r.slots() == self@,
    {
        IntoValues::new(self)
    }

    /// The keys with mutable references to their values, in ascending key order.
    pub fn iter_mut(&mut self) -> (r: IterMut<'_, T>)
        requires
            old(self).wf(),
        ensures
            r.wf(),
            r@ == occupied_keys(old(self)@),
            forall|p: int| 0 <= p < old(self)@.len() ==> r.slot(p) == old(self)@[p],
    {
        IterMut::new(self)
    }

    /// Mutable references to the values, in ascending key order.
    pub fn values_mut(&mut self) -> (r: ValuesMut<'_, T>)
        requires
            old(self).wf(),
        ensures
            r.wf(),
            r@ == occupied_keys(old(self)@),
            forall|p: int| 0 <= p < old(self)@.len() ==> r.slot(p) == old(self)@[p],
    {
        ValuesMut::new(self)
    }
}

} // verus!

verus! {

/// What the slots hold, as a map from key to value.
pub open spec fn contents<T>(s: Seq<Option<T>>) -> Map<int, T> {
    Map::new(|k: int| lookup(s, k) is Some, |k: int| lookup(s, k)->Some_0)
}

/// `k` is the least key that `m` does not hold.
pub open spec fn least_free<T>(m: Map<int, T>, k: int) -> bool {
    &&& 0 <= k
    &&& !m.dom().contains(k)
    &&& forall|j: int| 0 <= j < k ==> m.dom().contains(j)
}

proof fn lemma_insert_key<T>(s: Seq<Option<T>>)
    ensures
        0 <= insert_key(s) <= s.len(),
        insert_key(s) < s.len() ==> s[insert_key(s)] is None,
        forall|i: int| 0 <= i < insert_key(s) ==> s[i] is Some,
        insert_key(s) == s.len() <==> count_values(s) == s.len(),
{
    lemma_first_vacant(flags_of(s));
    assert forall|i: int| 0 <= i < insert_key(s) implies s[i] is Some by {
        assert(flags_of(s)[i]);
    }
}

/// Inserting a value and then removing its key gives the value back, and
/// leaves every slot that existed before as it was.
pub proof fn lemma_remove_after_insert<T>(s: Seq<Option<T>>, v: T)
    ensures
        lookup(after_insert(s, v), insert_key(s)) == Some(v),
        forall|i: int|
            0 <= i < s.len() ==> #[trigger] after_remove(after_insert(s, v), insert_key(s))[i]
                == s[i],
{
    lemma_insert_key(s);
}

/// The key an insertion is given holds a value afterwards, and every key that
/// held a value keeps it: insertion never takes an occupied slot.
pub proof fn lemma_insert_keeps_keys<T>(s: Seq<Option<T>>, v: T, k: int)
    ensures
        lookup(after_insert(s, v), insert_key(s)) is Some,
        lookup(s, k) is Some ==> k != insert_key(s) && lookup(after_insert(s, v), k) == lookup(
            s,
            k,
        ),
{
    lemma_insert_key(s);
}

/// Removing a key leaves it holding nothing and every other key as it was.
pub proof fn lemma_remove_keeps_other_keys<T>(s: Seq<Option<T>>, k: int, j: int)
    ensures
        lookup(after_remove(s, k), k) is None,
        j != k ==> lookup(after_remove(s, k), j) == lookup(s, j),
{
}

/// After clearing, no key holds a value.
pub proof fn lemma_clear_removes_keys<T>(n: nat, k: int)
    ensures
        lookup(vacant_slots::<T>(n), k) is None,
{
}

/// Removing a key at or past the capacity gives nothing and changes nothing.
pub proof fn lemma_remove_out_of_range<T>(s: Seq<Option<T>>, k: int)
    requires
        k >= s.len(),
    ensures
        lookup(s, k) is None,
        after_remove(s, k) == s,
{
}

/// The number of values goes up by one on each insertion, down by one on each
/// removal that finds a value, is unchanged by one that does not or by adding
/// slots, and is zero after clearing.
pub proof fn lemma_len_counts<T>(s: Seq<Option<T>>, v: T, k: int, n: nat)
    ensures
        count_values(after_insert(s, v)) == count_values(s) + 1,
        count_values(after_remove(s, k)) == count_values(s) - if lookup(s, k) is Some {
            1int
        } else {
            0
        },
        count_values(s + vacant_slots::<T>(n)) == count_values(s),
        count_values(vacant_slots::<T>(n)) == 0,
{
    lemma_insert_key(s);
    let key = insert_key(s);
    let t = after_insert(s, v);
    let grown = resized(flags_of(s), t.len());
    lemma_positions_from_extend(flags_of(s), grown, 0);
    assert(flags_of(t) =~= grown.update(key, true));
    lemma_positions_from_update(grown, 0, key, true, true);
    if lookup(s, k) is Some {
        assert(flags_of(after_remove(s, k)) =~= flags_of(s).update(k, false));
        lemma_positions_from_update(flags_of(s), 0, k, false, true);
    }
    lemma_positions_from_extend(flags_of(s), flags_of(s + vacant_slots::<T>(n)), 0);
    assert(flags_of(vacant_slots::<T>(n)) =~= all_vacant(n));
    lemma_all_vacant(n);
}

/// The keys that iteration yields are strictly ascending, are exactly the keys
/// that hold a value, and there are as many of them as values.
pub proof fn lemma_iteration_yields_occupied_keys<T>(s: Seq<Option<T>>)
    ensures
        ascending_within(occupied_keys(s), flags_of(s), true),
        forall|k: int| #[trigger] occupied_keys(s).contains(k) <==> lookup(s, k) is Some,
        occupied_keys(s).len() == count_values(s),
{
    lemma_positions_from(flags_of(s), 0, true);
}

/// Clearing twice is clearing once: no value, the capacity kept.
pub proof fn lemma_clear_idempotent<T>(s: Seq<Option<T>>)
    ensures
        vacant_slots::<T>(vacant_slots::<T>(s.len()).len()) == vacant_slots::<T>(s.len()),
        count_values(vacant_slots::<T>(s.len())) == 0,
        vacant_slots::<T>(s.len()).len() == s.len(),
{
    assert(flags_of(vacant_slots::<T>(s.len())) =~= all_vacant(s.len()));
    lemma_all_vacant(s.len());
}

/// Reserving `n` slots adds at least `n` to the capacity and keeps every key's value.
pub proof fn lemma_reserve_keeps_keys<T>(s: Seq<Option<T>>, n: nat, k: int)
    ensures
        (s + vacant_slots::<T>(n)).len() >= s.len() + n,
        lookup(s + vacant_slots::<T>(n), k) == lookup(s, k),
{
}

/// A slab behaves as a map from keys to values that gives each insertion the
/// least key it does not hold, whatever its capacity: inserting, removing,
/// looking up, clearing and reserving act on the map as on any such map.
pub proof fn lemma_slab_acts_as_map<T>(s: Seq<Option<T>>, v: T, k: int, n: nat)
    ensures
        least_free(contents(s), insert_key(s)),
        contents(after_insert(s, v)) == contents(s).insert(insert_key(s), v),
        contents(after_remove(s, k)) == contents(s).remove(k),
        lookup(s, k) == if contents(s).dom().contains(k) {
            Some(contents(s)[k])
        } else {
            None
        },
        contents(vacant_slots::<T>(n)) == Map::<int, T>::empty(),
        contents(s + vacant_slots::<T>(n)) == contents(s),
{
    lemma_insert_key(s);
    assert(contents(after_insert(s, v)) =~= contents(s).insert(insert_key(s), v));
    assert(contents(after_remove(s, k)) =~= contents(s).remove(k));
    assert(contents(vacant_slots::<T>(n)) =~= Map::<int, T>::empty());
    assert(contents(s + vacant_slots::<T>(n)) =~= contents(s));
}

} // verus!
