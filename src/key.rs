use vstd::prelude::*;

verus! {

/// A key into a [`Slab`](crate::Slab): the position of a slot.
#[derive(Debug, PartialEq, Eq, Structural, PartialOrd, Ord, Copy, Clone, Hash)]
pub struct Key(usize);

impl View for Key {
    type V = usize;

    /// The slot position this key refers to.
    closed spec fn view(&self) -> usize {
        self.0
    }
}

impl Key {
    /// Creates the key of slot `index`.
    pub fn new(index: usize) -> (r: Key)
        ensures
            r@ == index,
    {
        Key(index)
    }

    /// The slot position this key refers to.
    pub fn index(&self) -> (r: usize)
        ensures
            r == self@,
    {
        self.0
    }
}

impl From<Key> for usize {
    fn from(value: Key) -> (r: usize)
        ensures
            r == value@,
    {
        value.0
    }
}

impl vstd::std_specs::convert::FromSpecImpl<Key> for usize {
    open spec fn obeys_from_spec() -> bool {
        true
    }

    open spec fn from_spec(v: Key) -> usize {
        v@
    }
}

impl From<usize> for Key {
    fn from(value: usize) -> (r: Key)
        ensures
            r@ == value,
    {
        Key(value)
    }
}

impl vstd::std_specs::convert::FromSpecImpl<usize> for Key {
    open spec fn obeys_from_spec() -> bool {
        true
    }

    closed spec fn from_spec(v: usize) -> Key {
        Key(v)
    }
}

} // verus!
