//! The occupancy index: which slot positions hold a value.
//!
//! An index starts out inline, as a [`BitArray`] of two words, and moves to a
//! [`BitVec`] the first time it has to cover more positions than that. It
//! never moves back.
use vstd::prelude::*;

pub mod bit_array;
pub mod bit_vec;
pub mod word;

use crate::occupancy::{
    ascending_within,
    all_vacant, count_occupied, first_vacant, is_occupied, lemma_first_vacant,
    occupied_positions,
    resized, vacant_positions,
};
use bit_array::BitArray;
use bit_vec::BitVec;

verus! {

/// How many words the inline backend holds.
pub const INLINE_WORDS: usize = 2;

/// How many positions the inline backend covers; no index covers fewer.
pub const INLINE_CAPACITY: usize = 128;

/// The capacity an index grows to when it has to cover position `pos`:
/// unchanged if it already does, else at least double, and at least `pos + 1`.
pub open spec fn capacity_to_cover(cap: nat, pos: nat) -> nat {
    if pos < cap {
        cap
    } else {
        let doubled = if cap * 2 <= usize::MAX {
            cap * 2
        } else {
            usize::MAX as nat
        };
        if doubled > pos {
            doubled
        } else {
            pos + 1
        }
    }
}

/// The capacity of an index after `resize(n)`.
pub open spec fn capacity_after_resize(n: nat) -> nat {
    if n < INLINE_CAPACITY {
        INLINE_CAPACITY as nat
    } else {
        n
    }
}

/// The flags of an index after `resize(n)`: those below `n` are kept, all
/// others are vacant.
pub open spec fn resize_flags(s: Seq<bool>, n: nat) -> Seq<bool> {
    Seq::new(capacity_after_resize(n), |i: int| i < n && i < s.len() && s[i])
}

/// Inserting at any position, inside the capacity or past it, and so also
/// across the move from the inline to the dynamic backend, occupies that
/// position, keeps the flag of every position covered before, and adds only
/// vacant ones.
pub proof fn lemma_insert_keeps_positions(s: Seq<bool>, pos: nat, p: int)
    ensures
        ({
            let t = resized(s, capacity_to_cover(s.len(), pos)).update(pos as int, true);
            &&& t.len() > pos
            &&& t.len() >= s.len()
            &&& t[pos as int]
            &&& 0 <= p < s.len() && p != pos ==> t[p] == s[p]
            &&& s.len() <= p < t.len() && p != pos ==> !t[p]
        }),
{
}

#[derive(Debug)]
enum Inner {
    Inline(BitArray<INLINE_WORDS>),
    Dynamic(BitVec),
}

/// An occupancy index whose representation grows with it.
#[derive(Debug)]
pub struct Indexer {
    inner: Inner,
}

impl View for Indexer {
    type V = Seq<bool>;

    closed spec fn view(&self) -> Seq<bool> {
        match self.inner {
            Inner::Inline(a) => a@,
            Inner::Dynamic(v) => v@,
        }
    }
}

impl Default for Indexer {
    fn default() -> (r: Self)
        ensures
            r.wf(),
            r@ == all_vacant(INLINE_CAPACITY as nat),
    {
        Self::new()
    }
}

impl Indexer {
    /// The backend in use is well formed, and covers at least the inline capacity.
    pub closed spec fn wf(&self) -> bool {
        match self.inner {
            Inner::Inline(a) => a.wf() && a@.len() == INLINE_CAPACITY,
            Inner::Dynamic(v) => v.wf() && v@.len() >= INLINE_CAPACITY,
        }
    }

    /// Every index covers at least the inline capacity.
    pub proof fn lemma_capacity(&self)
        requires
            self.wf(),
        ensures
            self@.len() >= INLINE_CAPACITY,
            self@.len() <= usize::MAX,
    {
        match self.inner {
            Inner::Inline(a) => a.lemma_len_bound(),
            Inner::Dynamic(v) => v.lemma_len_bound(),
        }
    }

    /// Creates an inline index with every position vacant.
    pub fn new() -> (r: Self)
        ensures
            r.wf(),
            r@ == all_vacant(INLINE_CAPACITY as nat),
    {
        Indexer { inner: Inner::Inline(BitArray::new()) }
    }

    /// Creates an index over at least `capacity` vacant positions: exactly
    /// `capacity` of them if that is more than the inline capacity.
    pub fn with_capacity(capacity: usize) -> (r: Self)
        ensures
            r.wf(),
            r@ == all_vacant(capacity_after_resize(capacity as nat)),
    {
        if capacity <= INLINE_CAPACITY {
            Self::new()
        } else {
            Indexer { inner: Inner::Dynamic(BitVec::with_capacity(capacity)) }
        }
    }

    /// Marks position `pos` occupied, first growing the index if it does not
    /// cover `pos`; an inline index then moves to the dynamic backend.
    pub fn insert(&mut self, pos: usize)
        requires
            old(self).wf(),
            pos < usize::MAX,
        ensures
            final(self).wf(),
            final(self)@ == resized(
                old(self)@,
                capacity_to_cover(old(self)@.len(), pos as nat),
            ).update(pos as int, true),
    {
        let cap = self.capacity();
        if pos >= cap {
            let doubled = if cap <= usize::MAX / 2 {
                cap * 2
            } else {
                usize::MAX
            };
            let new_cap = if doubled > pos {
                doubled
            } else {
                pos + 1
            };
            self.resize(new_cap);
            assert(self@ =~= resized(old(self)@, new_cap as nat));
        } else {
            assert(self@ =~= resized(old(self)@, cap as nat));
        }
        match &mut self.inner {
            Inner::Inline(a) => a.insert(pos),
            Inner::Dynamic(v) => v.insert(pos),
        }
    }

    /// Marks position `pos` vacant; returns whether it was occupied.
    /// Positions past the capacity are left alone.
    pub fn remove(&mut self, pos: usize) -> (r: bool)
        requires
            old(self).wf(),
        ensures
            final(self).wf(),
            r == is_occupied(old(self)@, pos as int),
            final(self)@ == if r {
                old(self)@.update(pos as int, false)
            } else {
                old(self)@
            },
    {
        match &mut self.inner {
            Inner::Inline(a) => a.remove(pos),
            Inner::Dynamic(v) => v.remove(pos),
        }
    }

    /// Marks every position vacant, keeping the capacity.
    pub fn clear(&mut self)
        requires
            old(self).wf(),
        ensures
            final(self).wf(),
            final(self)@ == all_vacant(old(self)@.len()),
    {
        match &mut self.inner {
            Inner::Inline(a) => a.clear(),
            Inner::Dynamic(v) => v.clear(),
        }
    }

    /// Whether position `pos` is occupied; positions past the capacity are not.
    pub fn contains(&self, pos: usize) -> (r: bool)
        requires
            self.wf(),
        ensures
            r == is_occupied(self@, pos as int),
    {
        match &self.inner {
            Inner::Inline(a) => a.contains(pos),
            Inner::Dynamic(v) => v.contains(pos),
        }
    }

    /// The lowest vacant position, or `None` when every position is occupied.
    pub fn next_unoccupied(&self) -> (r: Option<usize>)
        requires
            self.wf(),
        ensures
            r == if first_vacant(self@) < self@.len() {
                Some(first_vacant(self@) as usize)
            } else {
                None::<usize>
            },
    {
        let found = match &self.inner {
            Inner::Inline(a) => a.scan(0, false),
            Inner::Dynamic(v) => v.scan(0, false),
        };
        proof {
            lemma_first_vacant(self@);
        }
        if found < self.capacity() {
            Some(found)
        } else {
            None
        }
    }

    /// How many positions are occupied.
    pub fn len(&self) -> (r: usize)
        requires
            self.wf(),
        ensures
            r == count_occupied(self@),
    {
        match &self.inner {
            Inner::Inline(a) => a.len(),
            Inner::Dynamic(v) => v.len(),
        }
    }

    /// Whether no position is occupied.
    pub fn is_empty(&self) -> (r: bool)
        requires
            self.wf(),
        ensures
            r == (count_occupied(self@) == 0),
    {
        match &self.inner {
            Inner::Inline(a) => a.is_empty(),
            Inner::Dynamic(v) => v.is_empty(),
        }
    }

    /// Whether every position is occupied.
    pub fn is_full(&self) -> (r: bool)
        requires
            self.wf(),
        ensures
            r == (count_occupied(self@) == self@.len()),
    {
        self.len() == self.capacity()
    }

    /// How many positions the index covers.
    pub fn capacity(&self) -> (r: usize)
        requires
            self.wf(),
        ensures
            r == self@.len(),
    {
        match &self.inner {
            Inner::Inline(a) => a.capacity(),
            Inner::Dynamic(v) => v.capacity(),
        }
    }

    /// Keeps the flags below `new_len` and makes the index cover
    /// `max(new_len, INLINE_CAPACITY)` positions. Growing an inline index past
    /// its capacity moves it to the dynamic backend, copying every flag.
    pub fn resize(&mut self, new_len: usize)
        requires
            old(self).wf(),
        ensures
            final(self).wf(),
            final(self)@ == resize_flags(old(self)@, new_len as nat),
    {
        let ghost old_view = self@;
        match &mut self.inner {
            Inner::Inline(a) => {
                if new_len > INLINE_CAPACITY {
                    let mut v = BitVec::with_capacity(new_len);
                    let mut p: usize = 0;
                    while p < INLINE_CAPACITY
                        invariant
                            a.wf(),
                            a@ == old_view,
                            a@.len() == INLINE_CAPACITY,
                            p <= INLINE_CAPACITY,
                            new_len > INLINE_CAPACITY,
                            v.wf(),
                            v@.len() == new_len,
                            forall|i: int| 0 <= i < new_len ==> #[trigger] v@[i] == (i < p && a@[i]),
                        decreases INLINE_CAPACITY - p,
                    {
                        if a.contains(p) {
                            v.insert(p);
                        }
                        p = p + 1;
                    }
                    assert(v@ =~= resize_flags(old_view, new_len as nat));
                    self.inner = Inner::Dynamic(v);
                } else {
                    let mut p = new_len;
                    while p < INLINE_CAPACITY
                        invariant
                            a.wf(),
                            a@.len() == INLINE_CAPACITY,
                            new_len <= p <= INLINE_CAPACITY,
                            forall|i: int|
                                0 <= i < INLINE_CAPACITY ==> #[trigger] a@[i] == (old_view[i] && (i
                                    < new_len || i >= p)),
                        decreases INLINE_CAPACITY - p,
                    {
                        a.remove(p);
                        p = p + 1;
                    }
                    assert(a@ =~= resize_flags(old_view, new_len as nat));
                }
            },
            Inner::Dynamic(v) => {
                v.resize(new_len);
                if new_len < INLINE_CAPACITY {
                    v.resize(INLINE_CAPACITY);
                }
                assert(v@ =~= resize_flags(old_view, new_len as nat));
            },
        }
    }

    /// The occupied positions, ascending.
    pub fn occupied(&self) -> (r: Occupied<'_>)
        requires
            self.wf(),
        ensures
            r.wf(),
            r@ == occupied_positions(self@),
            r.flags() == self@,
    {
        match &self.inner {
            Inner::Inline(a) => Occupied(OccupiedInner::Inline(a.occupied())),
            Inner::Dynamic(v) => Occupied(OccupiedInner::Dynamic(v.occupied())),
        }
    }

    /// The occupied positions, ascending, consuming the index.
    pub fn into_occupied(self) -> (r: IntoOccupied)
        requires
            self.wf(),
        ensures
            r.wf(),
            r@ == occupied_positions(self@),
            r.flags() == self@,
    {
        match self.inner {
            Inner::Inline(a) => IntoOccupied(IntoOccupiedInner::Inline(a.into_occupied())),
            Inner::Dynamic(v) => IntoOccupied(IntoOccupiedInner::Dynamic(v.into_occupied())),
        }
    }

    /// The vacant positions, ascending.
    pub fn unoccupied(&self) -> (r: UnOccupied<'_>)
        requires
            self.wf(),
        ensures
            r.wf(),
            r@ == vacant_positions(self@),
            r.flags() == self@,
    {
        match &self.inner {
            Inner::Inline(a) => UnOccupied(UnOccupiedInner::Inline(a.unoccupied())),
            Inner::Dynamic(v) => UnOccupied(UnOccupiedInner::Dynamic(v.unoccupied())),
        }
    }
}


#[derive(Debug)]
enum OccupiedInner<'a> {
    Inline(bit_array::Occupied<'a, INLINE_WORDS>),
    Dynamic(bit_vec::Occupied<'a>),
}

/// The occupied positions of an [`Indexer`], ascending.
#[derive(Debug)]
pub struct Occupied<'a>(OccupiedInner<'a>);

impl<'a> View for Occupied<'a> {
    type V = Seq<int>;

    /// The positions still to come.
    closed spec fn view(&self) -> Seq<int> {
        match self.0 {
            OccupiedInner::Inline(it) => it@,
            OccupiedInner::Dynamic(it) => it@,
        }
    }
}

impl<'a> Occupied<'a> {
    /// The positions still to come are ascending positions of the index with that flag.
    pub proof fn lemma_view(&self)
        requires
            self.wf(),
        ensures
            ascending_within(self@, self.flags(), true),
            self.flags().len() <= usize::MAX,
    {
        match self.0 {
            OccupiedInner::Inline(it) => it.lemma_view(),
            OccupiedInner::Dynamic(it) => it.lemma_view(),
        }
    }

    /// The flags of the index being walked.
    pub closed spec fn flags(&self) -> Seq<bool> {
        match self.0 {
            OccupiedInner::Inline(it) => it.flags(),
            OccupiedInner::Dynamic(it) => it.flags(),
        }
    }

    pub closed spec fn wf(&self) -> bool {
        match self.0 {
            OccupiedInner::Inline(it) => it.wf(),
            OccupiedInner::Dynamic(it) => it.wf(),
        }
    }

    /// The next occupied position.
    pub fn next(&mut self) -> (r: Option<usize>)
        requires
            old(self).wf(),
        ensures
            final(self).wf(),
            final(self).flags() == old(self).flags(),
            old(self)@.len() == 0 ==> r is None && final(self)@ == old(self)@,
            old(self)@.len() > 0 ==> r == Some(old(self)@[0] as usize) && final(self)@ == old(
                self,
            )@.drop_first(),
    {
        match &mut self.0 {
            OccupiedInner::Inline(it) => it.next(),
            OccupiedInner::Dynamic(it) => it.next(),
        }
    }
}

#[derive(Debug)]
enum UnOccupiedInner<'a> {
    Inline(bit_array::UnOccupied<'a, INLINE_WORDS>),
    Dynamic(bit_vec::UnOccupied<'a>),
}

/// The vacant positions of an [`Indexer`], ascending.
#[derive(Debug)]
pub struct UnOccupied<'a>(UnOccupiedInner<'a>);

impl<'a> View for UnOccupied<'a> {
    type V = Seq<int>;

    /// The positions still to come.
    closed spec fn view(&self) -> Seq<int> {
        match self.0 {
            UnOccupiedInner::Inline(it) => it@,
            UnOccupiedInner::Dynamic(it) => it@,
        }
    }
}

impl<'a> UnOccupied<'a> {
    /// The positions still to come are ascending positions of the index with that flag.
    pub proof fn lemma_view(&self)
        requires
            self.wf(),
        ensures
            ascending_within(self@, self.flags(), false),
            self.flags().len() <= usize::MAX,
    {
        match self.0 {
            UnOccupiedInner::Inline(it) => it.lemma_view(),
            UnOccupiedInner::Dynamic(it) => it.lemma_view(),
        }
    }

    /// The flags of the index being walked.
    pub closed spec fn flags(&self) -> Seq<bool> {
        match self.0 {
            UnOccupiedInner::Inline(it) => it.flags(),
            UnOccupiedInner::Dynamic(it) => it.flags(),
        }
    }

    pub closed spec fn wf(&self) -> bool {
        match self.0 {
            UnOccupiedInner::Inline(it) => it.wf(),
            UnOccupiedInner::Dynamic(it) => it.wf(),
        }
    }

    /// The next vacant position.
    pub fn next(&mut self) -> (r: Option<usize>)
        requires
            old(self).wf(),
        ensures
            final(self).wf(),
            final(self).flags() == old(self).flags(),
            old(self)@.len() == 0 ==> r is None && final(self)@ == old(self)@,
            old(self)@.len() > 0 ==> r == Some(old(self)@[0] as usize) && final(self)@ == old(
                self,
            )@.drop_first(),
    {
        match &mut self.0 {
            UnOccupiedInner::Inline(it) => it.next(),
            UnOccupiedInner::Dynamic(it) => it.next(),
        }
    }
}

#[derive(Debug)]
enum IntoOccupiedInner {
    Inline(bit_array::IntoOccupied<INLINE_WORDS>),
    Dynamic(bit_vec::IntoOccupied),
}

/// The occupied positions of an [`Indexer`], ascending, owning it.
#[derive(Debug)]
pub struct IntoOccupied(IntoOccupiedInner);

impl View for IntoOccupied {
    type V = Seq<int>;

    /// The positions still to come.
    closed spec fn view(&self) -> Seq<int> {
        match self.0 {
            IntoOccupiedInner::Inline(it) => it@,
            IntoOccupiedInner::Dynamic(it) => it@,
        }
    }
}

impl IntoOccupied {
    /// The positions still to come are ascending positions of the index with that flag.
    pub proof fn lemma_view(&self)
        requires
            self.wf(),
        ensures
            ascending_within(self@, self.flags(), true),
            self.flags().len() <= usize::MAX,
    {
        match self.0 {
            IntoOccupiedInner::Inline(it) => it.lemma_view(),
            IntoOccupiedInner::Dynamic(it) => it.lemma_view(),
        }
    }

    /// The flags of the index being walked.
    pub closed spec fn flags(&self) -> Seq<bool> {
        match self.0 {
            IntoOccupiedInner::Inline(it) => it.flags(),
            IntoOccupiedInner::Dynamic(it) => it.flags(),
        }
    }

    pub closed spec fn wf(&self) -> bool {
        match self.0 {
            IntoOccupiedInner::Inline(it) => it.wf(),
            IntoOccupiedInner::Dynamic(it) => it.wf(),
        }
    }

    /// The next occupied position.
    pub fn next(&mut self) -> (r: Option<usize>)
        requires
            old(self).wf(),
        ensures
            final(self).wf(),
            final(self).flags() == old(self).flags(),
            old(self)@.len() == 0 ==> r is None && final(self)@ == old(self)@,
            old(self)@.len() > 0 ==> r == Some(old(self)@[0] as usize) && final(self)@ == old(
                self,
            )@.drop_first(),
    {
        match &mut self.0 {
            IntoOccupiedInner::Inline(it) => it.next(),
            IntoOccupiedInner::Dynamic(it) => it.next(),
        }
    }
}

} // verus!
