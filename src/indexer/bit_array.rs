//! A fixed-size bitset held inline, without heap allocation.
use vstd::prelude::*;

use super::word::{
    compute_index, lemma_test_bit, lemma_words_clear, lemma_words_set,
    lemma_zero_and_full_words, words_view, WORD_BITS,
};
use crate::occupancy::{
    ascending_within,
    all_vacant, count_occupied, is_occupied, lemma_all_vacant, lemma_next_from,
    lemma_positions_from, lemma_positions_from_skip, lemma_positions_from_update, next_from,
    occupied_positions, positions_from, vacant_positions,
};

verus! {

/// An occupancy index over `64 * N` positions, stored in `N` inline words.
#[derive(Debug)]
pub struct BitArray<const N: usize> {
    entries: [u64; N],
    count: usize,
}

impl<const N: usize> View for BitArray<N> {
    type V = Seq<bool>;

    closed spec fn view(&self) -> Seq<bool> {
        words_view(self.entries@, (N * 64) as nat)
    }
}

impl<const N: usize> BitArray<N> {
    /// The counter agrees with the bits, and the capacity fits in a `usize`.
    pub closed spec fn wf(&self) -> bool {
        &&& N * 64 <= usize::MAX
        &&& self.count == count_occupied(self@)
    }

    proof fn lemma_view_len(&self)
        ensures
            self@.len() == N * 64,
    {
    }

    /// The index covers no more positions than a `usize` can name.
    pub proof fn lemma_len_bound(&self)
        requires
            self.wf(),
        ensures
            self@.len() <= usize::MAX,
    {
    }

    /// Creates an index with every position vacant.
    pub fn new() -> (r: Self)
        requires
            N * 64 <= usize::MAX,
        ensures
            r.wf(),
            r@ == all_vacant((N * 64) as nat),
    {
        let r = BitArray { entries: [0u64; N], count: 0 };
        proof {
            lemma_zero_and_full_words();
            assert(r@ =~= all_vacant((N * 64) as nat));
            lemma_all_vacant((N * 64) as nat);
        }
        r
    }

    /// Marks position `index` occupied.
    pub fn insert(&mut self, index: usize)
        requires
            old(self).wf(),
            index < old(self)@.len(),
        ensures
            final(self).wf(),
            final(self)@ == old(self)@.update(index as int, true),
    {
        proof {
            self.lemma_view_len();
        }
        if self.contains(index) {
            assert(self@.update(index as int, true) =~= self@);
            return ;
        }
        let (w, mask) = compute_index(index);
        proof {
            lemma_words_set(self.entries@, (N * 64) as nat, index as int);
            lemma_positions_from_update(self@, 0, index as int, true, true);
            lemma_positions_from(self@.update(index as int, true), 0, true);
        }
        self.entries[w] = self.entries[w] | mask;
        self.count = self.count + 1;
    }

    /// Marks position `index` vacant; returns whether it was occupied.
    pub fn remove(&mut self, index: usize) -> (r: bool)
        requires
            old(self).wf(),
        ensures
            final(self).wf(),
            r == is_occupied(old(self)@, index as int),
            final(self)@ == if r {
                old(self)@.update(index as int, false)
            } else {
                old(self)@
            },
    {
        proof {
            self.lemma_view_len();
        }
        if !self.contains(index) {
            return false;
        }
        let (w, mask) = compute_index(index);
        proof {
            lemma_words_clear(self.entries@, (N * 64) as nat, index as int);
            lemma_positions_from_update(self@, 0, index as int, false, true);
        }
        self.entries[w] = self.entries[w] & !mask;
        self.count = self.count - 1;
        true
    }

    /// Marks every position vacant.
    pub fn clear(&mut self)
        requires
            old(self).wf(),
        ensures
            final(self).wf(),
            final(self)@ == all_vacant(old(self)@.len()),
    {
        self.entries = [0u64; N];
        self.count = 0;
        proof {
            lemma_zero_and_full_words();
            assert(self@ =~= all_vacant((N * 64) as nat));
            lemma_all_vacant((N * 64) as nat);
        }
    }

    /// Whether position `index` is occupied; positions past the capacity are not.
    pub fn contains(&self, index: usize) -> (r: bool)
        requires
            self.wf(),
        ensures
            r == is_occupied(self@, index as int),
    {
        let (w, mask) = compute_index(index);
        if w < N {
            proof {
                lemma_test_bit(self.entries@[w as int], index as int % 64);
            }
            self.entries[w] & mask == mask
        } else {
            false
        }
    }

    /// How many positions are occupied.
    pub fn len(&self) -> (r: usize)
        requires
            self.wf(),
        ensures
            r == count_occupied(self@),
    {
        self.count
    }

    /// Whether no position is occupied.
    pub fn is_empty(&self) -> (r: bool)
        requires
            self.wf(),
        ensures
            r == (count_occupied(self@) == 0),
    {
        self.count == 0
    }

    /// How many positions the index covers.
    pub fn capacity(&self) -> (r: usize)
        requires
            self.wf(),
        ensures
            r == self@.len(),
    {
        N * WORD_BITS
    }

    /// The first position at or after `from` whose flag is `v`, or the
    /// capacity when there is none. Words whose 64 flags all differ from `v`
    /// are passed over in one step.
    pub fn scan(&self, from: usize, v: bool) -> (r: usize)
        requires
            self.wf(),
        ensures
            r == next_from(self@, from as int, v),
    {
        let cap = self.capacity();
        if from >= cap {
            return cap;
        }
        let mut i = from;
        while i < cap
            invariant
                self.wf(),
                cap == self@.len(),
                cap == N * 64,
                from <= i <= cap,
                positions_from(self@, i as int, v) == positions_from(self@, from as int, v),
            decreases cap - i,
        {
            if i % WORD_BITS == 0 {
                let word = self.entries[i / WORD_BITS];
                if (v && word == 0) || (!v && word == 0xffff_ffff_ffff_ffffu64) {
                    proof {
                        lemma_zero_and_full_words();
                        assert(i + 64 <= N * 64) by (nonlinear_arith)
                            requires
                                i % 64 == 0,
                                i < N * 64,
                        ;
                        lemma_positions_from_skip(self@, i as int, i + 64, v);
                    }
                    i = i + WORD_BITS;
                    continue;
                }
            }
            if self.contains(i) == v {
                proof {
                    lemma_next_from(self@, from as int, v);
                    lemma_positions_from(self@, i as int, v);
                }
                return i;
            }
            proof {
                lemma_positions_from_skip(self@, i as int, i + 1, v);
            }
            i = i + 1;
        }
        proof {
            lemma_positions_from(self@, i as int, v);
        }
        cap
    }

    /// The occupied positions, ascending.
    pub fn occupied(&self) -> (r: Occupied<'_, N>)
        requires
            self.wf(),
        ensures
            r.wf(),
            r@ == occupied_positions(self@),
            r.flags() == self@,
    {
        Occupied::new(self)
    }

    /// The occupied positions, ascending, consuming the index.
    pub fn into_occupied(self) -> (r: IntoOccupied<N>)
        requires
            self.wf(),
        ensures
            r.wf(),
            r@ == occupied_positions(self@),
            r.flags() == self@,
    {
        IntoOccupied::new(self)
    }

    /// The vacant positions, ascending.
    pub fn unoccupied(&self) -> (r: UnOccupied<'_, N>)
        requires
            self.wf(),
        ensures
            r.wf(),
            r@ == vacant_positions(self@),
            r.flags() == self@,
    {
        UnOccupied::new(self)
    }
}

} // verus!

verus! {

/// The occupied positions of a [`BitArray`], ascending.
#[derive(Debug)]
pub struct Occupied<'a, const N: usize> {
    /// The next position to look at.
    cursor: usize,
    /// How many occupied positions are still to come.
    remaining: usize,
    bits: &'a BitArray<N>,
}

impl<'a, const N: usize> View for Occupied<'a, N> {
    type V = Seq<int>;

    /// The positions still to come.
    closed spec fn view(&self) -> Seq<int> {
        positions_from(self.bits@, self.cursor as int, true)
    }
}

impl<'a, const N: usize> Occupied<'a, N> {
    /// The flags of the index being walked.
    pub closed spec fn flags(&self) -> Seq<bool> {
        self.bits@
    }

    pub closed spec fn wf(&self) -> bool {
        &&& self.bits.wf()
        &&& self.remaining == self@.len()
    }

    /// The positions still to come are ascending positions of the index with that flag.
    pub proof fn lemma_view(&self)
        requires
            self.wf(),
        ensures
            ascending_within(self@, self.flags(), true),
            self.flags().len() <= usize::MAX,
    {
        self.bits.lemma_len_bound();
        lemma_positions_from(self.bits@, self.cursor as int, true);
    }

    /// Starts at position zero.
    pub fn new(bits: &'a BitArray<N>) -> (r: Self)
        requires
            bits.wf(),
        ensures
            r.wf(),
            r@ == occupied_positions(bits@),
            r.flags() == bits@,
    {
        Occupied { cursor: 0, remaining: bits.len(), bits }
    }

    /// The next occupied position.
    pub fn next(&mut self) -> (r: Option<usize>)
        requires
            old(self).wf(),
        ensures
            final(self).wf(),
            final(self).flags() == old(self).flags(),
            old(self)@.len() == 0 ==> r is None && final(self)@ == old(self)@,
            old(self)@.len() > 0 ==> r == Some(old(self)@[0] as usize) && final(self)@ == old(
                self,
            )@.drop_first(),
    {
        if self.remaining == 0 {
            return None;
        }
        let index = self.bits.scan(self.cursor, true);
        proof {
            lemma_next_from(self.bits@, self.cursor as int, true);
        }
        if index < self.bits.capacity() {
            self.cursor = index + 1;
            self.remaining = self.remaining - 1;
            Some(index)
        } else {
            None
        }
    }
}

/// The vacant positions of a [`BitArray`], ascending.
#[derive(Debug)]
pub struct UnOccupied<'a, const N: usize> {
    /// The next position to look at.
    cursor: usize,
    /// How many vacant positions are still to come.
    remaining: usize,
    bits: &'a BitArray<N>,
}

impl<'a, const N: usize> View for UnOccupied<'a, N> {
    type V = Seq<int>;

    /// The positions still to come.
    closed spec fn view(&self) -> Seq<int> {
        positions_from(self.bits@, self.cursor as int, false)
    }
}

impl<'a, const N: usize> UnOccupied<'a, N> {
    /// The flags of the index being walked.
    pub closed spec fn flags(&self) -> Seq<bool> {
        self.bits@
    }

    pub closed spec fn wf(&self) -> bool {
        &&& self.bits.wf()
        &&& self.remaining == self@.len()
    }

    /// The positions still to come are ascending positions of the index with that flag.
    pub proof fn lemma_view(&self)
        requires
            self.wf(),
        ensures
            ascending_within(self@, self.flags(), false),
            self.flags().len() <= usize::MAX,
    {
        self.bits.lemma_len_bound();
        lemma_positions_from(self.bits@, self.cursor as int, false);
    }

    /// Starts at position zero.
    pub fn new(bits: &'a BitArray<N>) -> (r: Self)
        requires
            bits.wf(),
        ensures
            r.wf(),
            r@ == vacant_positions(bits@),
            r.flags() == bits@,
    {
        proof {
            crate::occupancy::lemma_positions_from_split(bits@, 0);
        }
        UnOccupied { cursor: 0, remaining: bits.capacity() - bits.len(), bits }
    }

    /// The next vacant position.
    pub fn next(&mut self) -> (r: Option<usize>)
        requires
            old(self).wf(),
        ensures
            final(self).wf(),
            final(self).flags() == old(self).flags(),
            old(self)@.len() == 0 ==> r is None && final(self)@ == old(self)@,
            old(self)@.len() > 0 ==> r == Some(old(self)@[0] as usize) && final(self)@ == old(
                self,
            )@.drop_first(),
    {
        if self.remaining == 0 {
            return None;
        }
        let index = self.bits.scan(self.cursor, false);
        proof {
            lemma_next_from(self.bits@, self.cursor as int, false);
        }
        if index < self.bits.capacity() {
            self.cursor = index + 1;
            self.remaining = self.remaining - 1;
            Some(index)
        } else {
            None
        }
    }
}

/// The occupied positions of a [`BitArray`] that it owns, ascending.
#[derive(Debug)]
pub struct IntoOccupied<const N: usize> {
    /// The next position to look at.
    cursor: usize,
    /// How many occupied positions are still to come.
    remaining: usize,
    bits: BitArray<N>,
}

impl<const N: usize> View for IntoOccupied<N> {
    type V = Seq<int>;

    /// The positions still to come.
    closed spec fn view(&self) -> Seq<int> {
        positions_from(self.bits@, self.cursor as int, true)
    }
}

impl<const N: usize> IntoOccupied<N> {
    /// The flags of the index being walked.
    pub closed spec fn flags(&self) -> Seq<bool> {
        self.bits@
    }

    pub closed spec fn wf(&self) -> bool {
        &&& self.bits.wf()
        &&& self.remaining == self@.len()
    }

    /// The positions still to come are ascending positions of the index with that flag.
    pub proof fn lemma_view(&self)
        requires
            self.wf(),
        ensures
            ascending_within(self@, self.flags(), true),
            self.flags().len() <= usize::MAX,
    {
        self.bits.lemma_len_bound();
        lemma_positions_from(self.bits@, self.cursor as int, true);
    }

    /// Starts at position zero.
    pub fn new(bits: BitArray<N>) -> (r: Self)
        requires
            bits.wf(),
        ensures
            r.wf(),
            r@ == occupied_positions(bits@),
            r.flags() == bits@,
    {
        let remaining = bits.len();
        IntoOccupied { cursor: 0, remaining, bits }
    }

    /// The next occupied position.
    pub fn next(&mut self) -> (r: Option<usize>)
        requires
            old(self).wf(),
        ensures
            final(self).wf(),
            final(self).flags() == old(self).flags(),
            old(self)@.len() == 0 ==> r is None && final(self)@ == old(self)@,
            old(self)@.len() > 0 ==> r == Some(old(self)@[0] as usize) && final(self)@ == old(
                self,
            )@.drop_first(),
    {
        if self.remaining == 0 {
            return None;
        }
        let index = self.bits.scan(self.cursor, true);
        proof {
            lemma_next_from(self.bits@, self.cursor as int, true);
        }
        if index < self.bits.capacity() {
            self.cursor = index + 1;
            self.remaining = self.remaining - 1;
            Some(index)
        } else {
            None
        }
    }
}

} // verus!
