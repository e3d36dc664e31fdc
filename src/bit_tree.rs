//! An occupancy index with one flag per position: the plain reference
//! representation, against which the packed ones can be compared.
use vstd::prelude::*;

use crate::occupancy::{
    all_vacant, count_occupied, first_vacant, is_occupied, lemma_all_vacant, lemma_first_vacant,
    lemma_positions_from, lemma_positions_from_extend, lemma_positions_from_update,
    occupied_positions, positions_from, resized, vacant_positions,
};

verus! {

/// An occupancy index holding one `bool` per position.
#[derive(Debug)]
pub struct BitTree {
    entries: Vec<bool>,
    count: usize,
}

impl View for BitTree {
    type V = Seq<bool>;

    closed spec fn view(&self) -> Seq<bool> {
        self.entries@
    }
}

impl BitTree {
    /// The counter agrees with the flags.
    pub closed spec fn wf(&self) -> bool {
        self.count == count_occupied(self.entries@)
    }

    /// Creates an index that covers no position.
    pub fn new() -> (r: Self)
        ensures
            r.wf(),
            r@ == all_vacant(0),
    {
        Self::with_capacity(0)
    }

    /// Creates an index over `capacity` vacant positions.
    pub fn with_capacity(capacity: usize) -> (r: Self)
        ensures
            r.wf(),
            r@ == all_vacant(capacity as nat),
    {
        let mut entries: Vec<bool> = Vec::new();
        while entries.len() < capacity
            invariant
                entries@.len() <= capacity,
                forall|i: int| 0 <= i < entries@.len() ==> !entries@[i],
            decreases capacity - entries@.len(),
        {
            entries.push(false);
        }
        proof {
            assert(entries@ =~= all_vacant(capacity as nat));
            lemma_all_vacant(capacity as nat);
        }
        BitTree { entries, count: 0 }
    }

    /// Marks position `index` occupied.
    pub fn insert(&mut self, index: usize)
        requires
            old(self).wf(),
            index < old(self)@.len(),
        ensures
            final(self).wf(),
            final(self)@ == old(self)@.update(index as int, true),
    {
        if self.entries[index] {
            assert(self@.update(index as int, true) =~= self@);
            return ;
        }
        let n = self.entries.len();
        proof {
            lemma_positions_from_update(self@, 0, index as int, true, true);
            lemma_positions_from(self@.update(index as int, true), 0, true);
        }
        self.entries.set(index, true);
        self.count = self.count + 1;
    }

    /// Marks position `index` vacant; returns whether it was occupied.
    pub fn remove(&mut self, index: usize) -> (r: bool)
        requires
            old(self).wf(),
        ensures
            final(self).wf(),
            r == is_occupied(old(self)@, index as int),
            final(self)@ == if r {
                old(self)@.update(index as int, false)
            } else {
                old(self)@
            },
    {
        if index >= self.entries.len() || !self.entries[index] {
            return false;
        }
        proof {
            lemma_positions_from_update(self@, 0, index as int, false, true);
        }
        self.entries.set(index, false);
        self.count = self.count - 1;
        true
    }

    /// Marks every position vacant.
    pub fn clear(&mut self)
        requires
            old(self).wf(),
        ensures
            final(self).wf(),
            final(self)@ == all_vacant(old(self)@.len()),
    {
        let n = self.entries.len();
        let mut i: usize = 0;
        while i < n
            invariant
                n == self.entries@.len(),
                i <= n,
                forall|j: int| 0 <= j < i ==> !self.entries@[j],
            decreases n - i,
        {
            self.entries.set(i, false);
            i = i + 1;
        }
        self.count = 0;
        proof {
            assert(self@ =~= all_vacant(n as nat));
            lemma_all_vacant(n as nat);
        }
    }

    /// Whether position `index` is occupied; positions past the capacity are not.
    pub fn contains(&self, index: usize) -> (r: bool)
        requires
            self.wf(),
        ensures
            r == is_occupied(self@, index as int),
    {
        index < self.entries.len() && self.entries[index]
    }

    /// The lowest vacant position, or `None` when every position is occupied.
    pub fn next_unoccupied(&self) -> (r: Option<usize>)
        requires
            self.wf(),
        ensures
            r == if first_vacant(self@) < self@.len() {
                Some(first_vacant(self@) as usize)
            } else {
                None::<usize>
            },
    {
        proof {
            lemma_first_vacant(self@);
        }
        let mut i: usize = 0;
        while i < self.entries.len()
            invariant
                i <= self.entries@.len(),
                i <= first_vacant(self@),
                first_vacant(self@) <= self@.len(),
                first_vacant(self@) < self@.len() ==> !self@[first_vacant(self@)],
                forall|j: int| 0 <= j < first_vacant(self@) ==> self@[j],
            decreases self.entries@.len() - i,
        {
            if !self.entries[i] {
                return Some(i);
            }
            i = i + 1;
        }
        None
    }

    /// How many positions are occupied.
    pub fn len(&self) -> (r: usize)
        requires
            self.wf(),
        ensures
            r == count_occupied(self@),
    {
        self.count
    }

    /// Whether no position is occupied.
    pub fn is_empty(&self) -> (r: bool)
        requires
            self.wf(),
        ensures
            r == (count_occupied(self@) == 0),
    {
        self.count == 0
    }

    /// Whether every position is occupied.
    pub fn is_full(&self) -> (r: bool)
        requires
            self.wf(),
        ensures
            r == (count_occupied(self@) == self@.len()),
    {
        self.count == self.entries.len()
    }

    /// How many positions the index covers.
    pub fn capacity(&self) -> (r: usize)
        requires
            self.wf(),
        ensures
            r == self@.len(),
    {
        self.entries.len()
    }

    /// Grows or shrinks the index to cover exactly `new_len` positions; the
    /// count of a shrunk index is taken again from the positions it keeps.
    pub fn resize(&mut self, new_len: usize)
        requires
            old(self).wf(),
        ensures
            final(self).wf(),
            final(self)@ == resized(old(self)@, new_len as nat),
    {
        let current_length = self.entries.len();
        if new_len >= current_length {
            while self.entries.len() < new_len
                invariant
                    self.count == old(self).count,
                    current_length <= self.entries@.len() <= new_len,
                    forall|j: int| 0 <= j < current_length ==> self.entries@[j] == old(self)@[j],
                    forall|j: int| current_length <= j < self.entries@.len() ==> !self.entries@[j],
                decreases new_len - self.entries@.len(),
            {
                self.entries.push(false);
            }
            proof {
                assert(self@ =~= resized(old(self)@, new_len as nat));
                lemma_positions_from_extend(old(self)@, self@, 0);
            }
        } else {
            self.entries.truncate(new_len);
            assert(self@ =~= resized(old(self)@, new_len as nat));
            let mut c: usize = 0;
            let mut i = new_len;
            while i > 0
                invariant
                    i <= new_len,
                    new_len == self.entries@.len(),
                    c == positions_from(self@, i as int, true).len(),
                decreases i,
            {
                i = i - 1;
                proof {
                    lemma_positions_from(self@, i + 1, true);
                }
                if self.entries[i] {
                    c = c + 1;
                }
            }
            self.count = c;
        }
    }

    /// The occupied positions, ascending.
    pub fn occupied(&self) -> (r: Vec<usize>)
        requires
            self.wf(),
        ensures
            r@.map_values(|p: usize| p as int) == occupied_positions(self@),
    {
        self.positions(true)
    }

    /// The vacant positions, ascending.
    pub fn unoccupied(&self) -> (r: Vec<usize>)
        requires
            self.wf(),
        ensures
            r@.map_values(|p: usize| p as int) == vacant_positions(self@),
    {
        self.positions(false)
    }

    /// The positions whose flag is `v`, ascending.
    fn positions(&self, v: bool) -> (r: Vec<usize>)
        ensures
            r@.map_values(|p: usize| p as int) == positions_from(self@, 0, v),
    {
        let mut r: Vec<usize> = Vec::new();
        let mut i: usize = 0;
        while i < self.entries.len()
            invariant
                i <= self.entries@.len(),
                r@.map_values(|p: usize| p as int) + positions_from(self@, i as int, v)
                    == positions_from(self@, 0, v),
            decreases self.entries@.len() - i,
        {
            let ghost before = r@.map_values(|p: usize| p as int);
            if self.entries[i] == v {
                r.push(i);
                assert(r@.map_values(|p: usize| p as int) =~= before.push(i as int));
                assert(before.push(i as int) + positions_from(self@, i + 1, v) =~= before + (seq![
                    i as int,
                ] + positions_from(self@, i + 1, v)));
            }
            i = i + 1;
        }
        assert(positions_from(self@, i as int, v) =~= Seq::<int>::empty());
        assert(r@.map_values(|p: usize| p as int) + Seq::<int>::empty() =~= r@.map_values(
            |p: usize| p as int,
        ));
        r
    }
}

} // verus!
