//! Iteration over the values of a [`Slab`]: each view walks the occupied
//! positions of the index in ascending order and never touches a vacant slot.
use vstd::prelude::*;

use crate::indexer::{IntoOccupied, Occupied};
use crate::key::Key;
use crate::slab::{flags_of, occupied_keys, Slab};

verus! {

/// The keys and values of a [`Slab`], in ascending key order.
#[derive(Debug)]
pub struct Iter<'a, T> {
    occupied: Occupied<'a>,
    entries: &'a Vec<Option<T>>,
}

impl<'a, T> View for Iter<'a, T> {
    type V = Seq<int>;

    /// The keys still to come.
    closed spec fn view(&self) -> Seq<int> {
        self.occupied@
    }
}

impl<'a, T> Iter<'a, T> {
    /// The slots being walked.
    pub closed spec fn slots(&self) -> Seq<Option<T>> {
        self.entries@
    }

    pub closed spec fn wf(&self) -> bool {
        &&& self.occupied.wf()
        &&& self.occupied.flags() == flags_of(self.entries@)
    }

    /// Starts at the lowest key of `slab`.
    pub fn new(slab: &'a Slab<T>) -> (r: Self)
        requires
            slab.wf(),
        ensures
            r.wf(),
            r@ == occupied_keys(slab@),
            r.slots() == slab@,
    {
        proof {
            slab.lemma_wf();
        }
        Iter { occupied: slab.index.occupied(), entries: &slab.entries }
    }

    /// The next key and its value.
    pub fn next(&mut self) -> (r: Option<(Key, &'a T)>)
        requires
            old(self).wf(),
        ensures
            final(self).wf(),
            final(self).slots() == old(self).slots(),
            old(self)@.len() == 0 ==> r is None && final(self)@ == old(self)@,
            old(self)@.len() > 0 ==> final(self)@ == old(self)@.drop_first() && match r {
                Some((k, v)) => k@ == old(self)@[0] && old(self).slots()[old(self)@[0]] == Some(*v),
                None => false,
            },
    {
        proof {
            self.occupied.lemma_view();
        }
        let index = self.occupied.next()?;
        match &self.entries[index] {
            Some(v) => Some((Key::new(index), v)),
            None => None,
        }
    }
}

/// The keys of a [`Slab`], ascending.
#[derive(Debug)]
pub struct Keys<'a> {
    occupied: Occupied<'a>,
}

impl<'a> View for Keys<'a> {
    type V = Seq<int>;

    /// The keys still to come.
    closed spec fn view(&self) -> Seq<int> {
        self.occupied@
    }
}

impl<'a> Keys<'a> {
    pub closed spec fn wf(&self) -> bool {
        self.occupied.wf()
    }

    /// Starts at the lowest key of `slab`.
    pub fn new<T>(slab: &'a Slab<T>) -> (r: Self)
        requires
            slab.wf(),
        ensures
            r.wf(),
            r@ == occupied_keys(slab@),
    {
        proof {
            slab.lemma_wf();
        }
        Keys { occupied: slab.index.occupied() }
    }

    /// The next key.
    pub fn next(&mut self) -> (r: Option<Key>)
        requires
            old(self).wf(),
        ensures
            final(self).wf(),
            old(self)@.len() == 0 ==> r is None && final(self)@ == old(self)@,
            old(self)@.len() > 0 ==> final(self)@ == old(self)@.drop_first() && match r {
                Some(k) => k@ == old(self)@[0],
                None => false,
            },
    {
        proof {
            self.occupied.lemma_view();
        }
        let index = self.occupied.next()?;
        Some(Key::new(index))
    }
}

/// The values of a [`Slab`], in ascending key order.
#[derive(Debug)]
pub struct Values<'a, T> {
    occupied: Occupied<'a>,
    entries: &'a Vec<Option<T>>,
}

impl<'a, T> View for Values<'a, T> {
    type V = Seq<int>;

    /// The keys whose values are still to come.
    closed spec fn view(&self) -> Seq<int> {
        self.occupied@
    }
}

impl<'a, T> Values<'a, T> {
    /// The slots being walked.
    pub closed spec fn slots(&self) -> Seq<Option<T>> {
        self.entries@
    }

    pub closed spec fn wf(&self) -> bool {
        &&& self.occupied.wf()
        &&& self.occupied.flags() == flags_of(self.entries@)
    }

    /// Starts at the lowest key of `slab`.
    pub fn new(slab: &'a Slab<T>) -> (r: Self)
        requires
            slab.wf(),
        ensures
            r.wf(),
            r@ == occupied_keys(slab@),
            r.slots() == slab@,
    {
        proof {
            slab.lemma_wf();
        }
        Values { occupied: slab.index.occupied(), entries: &slab.entries }
    }

    /// The next value.
    pub fn next(&mut self) -> (r: Option<&'a T>)
        requires
            old(self).wf(),
        ensures
            final(self).wf(),
            final(self).slots() == old(self).slots(),
            old(self)@.len() == 0 ==> r is None && final(self)@ == old(self)@,
            old(self)@.len() > 0 ==> final(self)@ == old(self)@.drop_first() && match r {
                Some(v) => old(self).slots()[old(self)@[0]] == Some(*v),
                None => false,
            },
    {
        proof {
            self.occupied.lemma_view();
        }
        let index = self.occupied.next()?;
        match &self.entries[index] {
            Some(v) => Some(v),
            None => None,
        }
    }
}

/// The keys and values of a [`Slab`], in ascending key order, moved out of it.
/// Dropping the iterator drops the values it has not handed out.
#[derive(Debug)]
pub struct IntoIter<T> {
    occupied: IntoOccupied,
    entries: Vec<Option<T>>,
}

impl<T> View for IntoIter<T> {
    type V = Seq<int>;

    /// The keys still to come.
    closed spec fn view(&self) -> Seq<int> {
        self.occupied@
    }
}

impl<T> IntoIter<T> {
    /// The slots still held: those of the keys still to come hold their values.
    pub closed spec fn slots(&self) -> Seq<Option<T>> {
        self.entries@
    }

    pub closed spec fn wf(&self) -> bool {
        &&& self.occupied.wf()
        &&& self.occupied.flags().len() == self.entries@.len()
        &&& forall|k: int|
            0 <= k < self.occupied@.len() ==> #[trigger] self.entries@[self.occupied@[k]] is Some
    }

    /// Takes the values of `slab`, starting at its lowest key.
    pub fn new(slab: Slab<T>) -> (r: Self)
        requires
            slab.wf(),
        ensures
            r.wf(),
            r@ == occupied_keys(slab@),
            r.slots() == slab@,
    {
        proof {
            slab.lemma_wf();
        }
        let Slab { index, entries } = slab;
        let r = IntoIter { occupied: index.into_occupied(), entries };
        proof {
            r.occupied.lemma_view();
        }
        r
    }

    /// The next key and its value, moved out.
    pub fn next(&mut self) -> (r: Option<(Key, T)>)
        requires
            old(self).wf(),
        ensures
            final(self).wf(),
            old(self)@.len() == 0 ==> r is None && final(self)@ == old(self)@,
            old(self)@.len() > 0 ==> {
                &&& final(self)@ == old(self)@.drop_first()
                &&& final(self).slots() == old(self).slots().update(old(self)@[0], None)
                &&& match r {
                    Some((k, v)) => k@ == old(self)@[0] && old(self).slots()[old(self)@[0]] == Some(
                        v,
                    ),
                    None => false,
                }
            },
    {
        proof {
            self.occupied.lemma_view();
        }
        let ghost before = self.occupied@;
        let index = self.occupied.next()?;
        let mut out = None;
        self.entries.set_and_swap(index, &mut out);
        proof {
            assert forall|k: int| 0 <= k < self.occupied@.len() implies #[trigger] self.entries@[
                self.occupied@[k]
            ] is Some by {
                assert(self.occupied@[k] == before[k + 1]);
                assert(before[0] < before[k + 1]);
            }
        }
        match out {
            Some(v) => Some((Key::new(index), v)),
            None => None,
        }
    }
}

/// The values of a [`Slab`], in ascending key order, moved out of it.
/// Dropping the iterator drops the values it has not handed out.
#[derive(Debug)]
pub struct IntoValues<T> {
    inner: IntoIter<T>,
}

impl<T> View for IntoValues<T> {
    type V = Seq<int>;

    /// The keys whose values are still to come.
    closed spec fn view(&self) -> Seq<int> {
        self.inner@
    }
}

impl<T> IntoValues<T> {
    /// The slots still held: those of the keys still to come hold their values.
    pub closed spec fn slots(&self) -> Seq<Option<T>> {
        self.inner.slots()
    }

    pub closed spec fn wf(&self) -> bool {
        self.inner.wf()
    }

    /// Takes the values of `slab`, starting at its lowest key.
    pub fn new(slab: Slab<T>) -> (r: Self)
        requires
            slab.wf(),
        ensures
            r.wf(),
            r@ == occupied_keys(slab@),
            r.slots() == slab@,
    {
        IntoValues { inner: IntoIter::new(slab) }
    }

    /// The next value, moved out.
    pub fn next(&mut self) -> (r: Option<T>)
        requires
            old(self).wf(),
        ensures
            final(self).wf(),
            old(self)@.len() == 0 ==> r is None && final(self)@ == old(self)@,
            old(self)@.len() > 0 ==> {
                &&& final(self)@ == old(self)@.drop_first()
                &&& final(self).slots() == old(self).slots().update(old(self)@[0], None)
                &&& match r {
                    Some(v) => old(self).slots()[old(self)@[0]] == Some(v),
                    None => false,
                }
            },
    {
        match self.inner.next() {
            Some((_, v)) => Some(v),
            None => None,
        }
    }
}

} // verus!

verus! {

/// Mutable references to the values of a [`Slab`], in ascending key order.
/// It walks the slots and the occupied positions in step, skipping each run of
/// vacant slots between two occupied ones.
#[derive(Debug)]
pub struct ValuesMut<'a, T> {
    occupied: Occupied<'a>,
    /// The slots from position `offset` on.
    rest: &'a mut [Option<T>],
    offset: usize,
}

impl<'a, T> View for ValuesMut<'a, T> {
    type V = Seq<int>;

    /// The keys whose values are still to come.
    closed spec fn view(&self) -> Seq<int> {
        self.occupied@
    }
}

impl<'a, T> ValuesMut<'a, T> {
    /// The value in slot `p`, for a slot still ahead.
    pub closed spec fn slot(&self, p: int) -> Option<T> {
        self.rest@[p - self.offset]
    }

    pub closed spec fn wf(&self) -> bool {
        &&& self.occupied.wf()
        &&& forall|k: int|
            0 <= k < self.occupied@.len() ==> self.offset <= #[trigger] self.occupied@[k]
                < self.offset + self.rest@.len()
    }

    /// Starts at the lowest key of `slab`.
    pub fn new(slab: &'a mut Slab<T>) -> (r: Self)
        requires
            old(slab).wf(),
        ensures
            r.wf(),
            r@ == occupied_keys(old(slab)@),
            forall|p: int| 0 <= p < old(slab)@.len() ==> r.slot(p) == old(slab)@[p],
    {
        proof {
            slab.lemma_wf();
        }
        let occupied = slab.index.occupied();
        proof {
            occupied.lemma_view();
        }
        let rest = slab.entries.as_mut_slice();
        ValuesMut { occupied, rest, offset: 0 }
    }

    /// A mutable reference to the next value.
    pub fn next(&mut self) -> (r: Option<&'a mut T>)
        requires
            old(self).wf(),
        ensures
            final(self).wf(),
            old(self)@.len() == 0 ==> r is None,
            old(self)@.len() > 0 ==> final(self)@ == old(self)@.drop_first() && match r {
                Some(v) => old(self).slot(old(self)@[0]) == Some(*v),
                None => old(self).slot(old(self)@[0]) is None,
            },
    {
        proof {
            self.occupied.lemma_view();
        }
        let index = self.occupied.next()?;
        let skip = index - self.offset;
        let mut rest: &'a mut [Option<T>] = &mut [];
        std::mem::swap(&mut self.rest, &mut rest);
        let (_, tail) = rest.split_at_mut(skip);
        let (head, tail) = tail.split_at_mut(1);
        self.rest = tail;
        self.offset = index + 1;
        match head.first_mut() {
            Some(slot) => match slot {
                Some(v) => Some(v),
                None => None,
            },
            None => None,
        }
    }
}

} // verus!

verus! {

/// The keys of a [`Slab`] with mutable references to their values, in
/// ascending key order.
/// It walks the slots and the occupied positions in step, skipping each run of
/// vacant slots between two occupied ones.
#[derive(Debug)]
pub struct IterMut<'a, T> {
    occupied: Occupied<'a>,
    /// The slots from position `offset` on.
    rest: &'a mut [Option<T>],
    offset: usize,
}

impl<'a, T> View for IterMut<'a, T> {
    type V = Seq<int>;

    /// The keys whose values are still to come.
    closed spec fn view(&self) -> Seq<int> {
        self.occupied@
    }
}

impl<'a, T> IterMut<'a, T> {
    /// The value in slot `p`, for a slot still ahead.
    pub closed spec fn slot(&self, p: int) -> Option<T> {
        self.rest@[p - self.offset]
    }

    pub closed spec fn wf(&self) -> bool {
        &&& self.occupied.wf()
        &&& forall|k: int|
            0 <= k < self.occupied@.len() ==> self.offset <= #[trigger] self.occupied@[k]
                < self.offset + self.rest@.len()
    }

    /// Starts at the lowest key of `slab`.
    pub fn new(slab: &'a mut Slab<T>) -> (r: Self)
        requires
            old(slab).wf(),
        ensures
            r.wf(),
            r@ == occupied_keys(old(slab)@),
            forall|p: int| 0 <= p < old(slab)@.len() ==> r.slot(p) == old(slab)@[p],
    {
        proof {
            slab.lemma_wf();
        }
        let occupied = slab.index.occupied();
        proof {
            occupied.lemma_view();
        }
        let rest = slab.entries.as_mut_slice();
        IterMut { occupied, rest, offset: 0 }
    }

    /// The next key with a mutable reference to its value.
    pub fn next(&mut self) -> (r: Option<(Key, &'a mut T)>)
        requires
            old(self).wf(),
        ensures
            final(self).wf(),
            old(self)@.len() == 0 ==> r is None,
            old(self)@.len() > 0 ==> final(self)@ == old(self)@.drop_first() && match r {
                Some((k, v)) => k@ == old(self)@[0] && old(self).slot(old(self)@[0]) == Some(*v),
                None => old(self).slot(old(self)@[0]) is None,
            },
    {
        proof {
            self.occupied.lemma_view();
        }
        let index = self.occupied.next()?;
        let skip = index - self.offset;
        let mut rest: &'a mut [Option<T>] = &mut [];
        std::mem::swap(&mut self.rest, &mut rest);
        let (_, tail) = rest.split_at_mut(skip);
        let (head, tail) = tail.split_at_mut(1);
        self.rest = tail;
        self.offset = index + 1;
        match head.first_mut() {
            Some(slot) => match slot {
                Some(v) => Some((Key::new(index), v)),
                None => None,
            },
            None => None,
        }
    }
}

} // verus!
