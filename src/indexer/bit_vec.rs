//! A growable bitset: the dynamic backend of the occupancy index.
use vstd::arithmetic::power::{lemma_pow_increases, pow};
use vstd::prelude::*;

use super::word::{
    bit_of, clear_past, compute_index, lemma_keep_low_bits, lemma_test_bit,
    lemma_words_clear, lemma_words_set, lemma_zero_and_full_words, low_mask, words_for,
    words_view, WORD_BITS,
};
use crate::occupancy::{
    ascending_within,
    all_vacant, count_occupied, is_occupied, lemma_all_vacant, lemma_next_from,
    lemma_positions_from, lemma_positions_from_extend, lemma_positions_from_skip,
    lemma_positions_from_split, lemma_positions_from_update, next_from, occupied_positions,
    positions_from, resized, vacant_positions,
};

verus! {

/// An occupancy index over any number of positions, stored in a vector of words.
#[derive(Debug)]
pub struct BitVec {
    words: Vec<u64>,
    /// How many positions the index covers.
    len: usize,
    /// How many positions are occupied.
    count: usize,
}

impl View for BitVec {
    type V = Seq<bool>;

    closed spec fn view(&self) -> Seq<bool> {
        words_view(self.words@, self.len as nat)
    }
}

impl BitVec {
    /// The words hold exactly the covered positions, with every bit past them clear.
    closed spec fn wf_words(&self) -> bool {
        &&& self.words@.len() == words_for(self.len as nat)
        &&& clear_past(self.words@, self.len as nat)
    }

    /// The words are laid out as described and the counter agrees with them.
    pub closed spec fn wf(&self) -> bool {
        &&& self.wf_words()
        &&& self.count == count_occupied(self@)
    }

    proof fn lemma_view_len(&self)
        ensures
            self@.len() == self.len,
            self.wf_words() ==> self.len <= self.words@.len() * 64,
    {
    }

    /// The index covers no more positions than a `usize` can name.
    pub proof fn lemma_len_bound(&self)
        requires
            self.wf(),
        ensures
            self@.len() <= usize::MAX,
    {
    }

    /// Creates an index that covers no position.
    pub fn new() -> (r: Self)
        ensures
            r.wf(),
            r@ == all_vacant(0),
    {
        Self::with_capacity(0)
    }

    /// Creates an index over `capacity` vacant positions.
    pub fn with_capacity(capacity: usize) -> (r: Self)
        ensures
            r.wf(),
            r@ == all_vacant(capacity as nat),
    {
        let n = capacity / WORD_BITS + if capacity % WORD_BITS == 0 {
            0
        } else {
            1
        };
        let mut words: Vec<u64> = Vec::new();
        while words.len() < n
            invariant
                words@.len() <= n,
                forall|j: int| 0 <= j < words@.len() ==> words@[j] == 0,
            decreases n - words@.len(),
        {
            words.push(0);
        }
        let r = BitVec { words, len: capacity, count: 0 };
        proof {
            lemma_zero_and_full_words();
            assert(r@ =~= all_vacant(capacity as nat));
            lemma_all_vacant(capacity as nat);
        }
        r
    }

    /// Marks position `index` occupied.
    pub fn insert(&mut self, index: usize)
        requires
            old(self).wf(),
            index < old(self)@.len(),
        ensures
            final(self).wf(),
            final(self)@ == old(self)@.update(index as int, true),
    {
        proof {
            self.lemma_view_len();
        }
        if self.contains(index) {
            assert(self@.update(index as int, true) =~= self@);
            return ;
        }
        let (w, mask) = compute_index(index);
        proof {
            let full = (self.words@.len() * 64) as nat;
            lemma_words_set(self.words@, self.len as nat, index as int);
            lemma_words_set(self.words@, full, index as int);
            let nws = self.words@.update(w as int, self.words@[w as int] | mask);
            assert forall|i: int| self.len <= i < nws.len() * 64 implies !#[trigger] bit_of(
                nws[i / 64],
                i % 64,
            ) by {
                assert(words_view(nws, full)[i] == words_view(self.words@, full)[i]);
            }
            lemma_positions_from_update(self@, 0, index as int, true, true);
            lemma_positions_from(self@.update(index as int, true), 0, true);
        }
        let word = self.words[w] | mask;
        self.words.set(w, word);
        self.count = self.count + 1;
    }

    /// Marks position `index` vacant; returns whether it was occupied.
    pub fn remove(&mut self, index: usize) -> (r: bool)
        requires
            old(self).wf(),
        ensures
            final(self).wf(),
            r == is_occupied(old(self)@, index as int),
            final(self)@ == if r {
                old(self)@.update(index as int, false)
            } else {
                old(self)@
            },
    {
        proof {
            self.lemma_view_len();
        }
        if !self.contains(index) {
            return false;
        }
        let (w, mask) = compute_index(index);
        proof {
            let full = (self.words@.len() * 64) as nat;
            lemma_words_clear(self.words@, self.len as nat, index as int);
            lemma_words_clear(self.words@, full, index as int);
            let nws = self.words@.update(w as int, self.words@[w as int] & !mask);
            assert forall|i: int| self.len <= i < nws.len() * 64 implies !#[trigger] bit_of(
                nws[i / 64],
                i % 64,
            ) by {
                assert(words_view(nws, full)[i] == words_view(self.words@, full)[i]);
            }
            lemma_positions_from_update(self@, 0, index as int, false, true);
        }
        let word = self.words[w] & !mask;
        self.words.set(w, word);
        self.count = self.count - 1;
        true
    }

    /// Marks every position vacant.
    pub fn clear(&mut self)
        requires
            old(self).wf(),
        ensures
            final(self).wf(),
            final(self)@ == all_vacant(old(self)@.len()),
    {
        let n = self.words.len();
        let mut i: usize = 0;
        while i < n
            invariant
                n == self.words@.len(),
                n == words_for(self.len as nat),
                self.len == old(self).len,
                i <= n,
                forall|j: int| 0 <= j < i ==> self.words@[j] == 0,
                forall|j: int| i <= j < n ==> self.words@[j] == old(self).words@[j],
            decreases n - i,
        {
            self.words.set(i, 0);
            i = i + 1;
        }
        self.count = 0;
        proof {
            lemma_zero_and_full_words();
            assert(self@ =~= all_vacant(self.len as nat));
            lemma_all_vacant(self.len as nat);
        }
    }

    /// Whether position `index` is occupied; positions past the capacity are not.
    pub fn contains(&self, index: usize) -> (r: bool)
        requires
            self.wf(),
        ensures
            r == is_occupied(self@, index as int),
    {
        self.test(index)
    }

    /// Reads the flag of position `index` from its word.
    fn test(&self, index: usize) -> (r: bool)
        requires
            self.wf_words(),
        ensures
            r == is_occupied(self@, index as int),
    {
        if index >= self.len {
            return false;
        }
        let (w, mask) = compute_index(index);
        proof {
            lemma_test_bit(self.words@[w as int], index as int % 64);
        }
        self.words[w] & mask == mask
    }

    /// How many positions are occupied.
    pub fn len(&self) -> (r: usize)
        requires
            self.wf(),
        ensures
            r == count_occupied(self@),
    {
        self.count
    }

    /// Whether no position is occupied.
    pub fn is_empty(&self) -> (r: bool)
        requires
            self.wf(),
        ensures
            r == (count_occupied(self@) == 0),
    {
        self.len() == 0
    }

    /// How many positions the index covers.
    pub fn capacity(&self) -> (r: usize)
        requires
            self.wf(),
        ensures
            r == self@.len(),
    {
        self.len
    }

    /// Counts the occupied positions by looking at each of them.
    fn recount(&self) -> (r: usize)
        requires
            self.wf_words(),
        ensures
            r == count_occupied(self@),
    {
        let mut c: usize = 0;
        let mut i = self.len;
        while i > 0
            invariant
                self.wf_words(),
                i <= self.len,
                c == positions_from(self@, i as int, true).len(),
            decreases i,
        {
            i = i - 1;
            proof {
                lemma_positions_from(self@, i + 1, true);
            }
            if self.test(i) {
                c = c + 1;
            }
        }
        c
    }

    /// Grows or shrinks the index to cover exactly `new_len` positions.
    /// Positions below both lengths keep their flag; added positions are vacant.
    pub fn resize(&mut self, new_len: usize)
        requires
            old(self).wf(),
        ensures
            final(self).wf(),
            final(self)@ == resized(old(self)@, new_len as nat),
    {
        let ghost old_view = self@;
        let ghost old_words = self.words@;
        let ghost old_len = self.len as nat;
        let n = new_len / WORD_BITS + if new_len % WORD_BITS == 0 {
            0
        } else {
            1
        };
        if new_len >= self.len {
            while self.words.len() < n
                invariant
                    self.count == old(self).count,
                    self.len == old(self).len,
                    old_words.len() <= self.words@.len() <= n,
                    forall|j: int| 0 <= j < old_words.len() ==> self.words@[j] == old_words[j],
                    forall|j: int| old_words.len() <= j < self.words@.len() ==> self.words@[j] == 0,
                decreases n - self.words@.len(),
            {
                self.words.push(0);
            }
            self.len = new_len;
            proof {
                lemma_zero_and_full_words();
                assert forall|i: int| 0 <= i < new_len implies #[trigger] self@[i] == resized(
                    old_view,
                    new_len as nat,
                )[i] by {
                    if i >= old_len && i / 64 < old_words.len() {
                        assert(!bit_of(old_words[i / 64], i % 64));
                    }
                }
                assert(self@ =~= resized(old_view, new_len as nat));
                assert forall|i: int| new_len <= i < self.words@.len() * 64 implies !#[trigger] bit_of(
                    self.words@[i / 64],
                    i % 64,
                ) by {
                    if i / 64 < old_words.len() {
                        assert(!bit_of(old_words[i / 64], i % 64));
                    }
                }
                lemma_positions_from_extend(old_view, self@, 0);
                assert(self.wf_words());
            }
        } else {
            self.words.truncate(n);
            let rest = new_len % WORD_BITS;
            let ghost kept = self.words@;
            assert(n <= old_words.len());
            assert(kept == old_words.subrange(0, n as int));
            if rest != 0 {
                proof {
                    lemma_keep_low_bits(self.words@[n - 1], rest as int);
                }
                let last = self.words[n - 1] & ((1u64 << (rest as u64)) - 1);
                self.words.set(n - 1, last);
                assert(self.words@[n - 1] == kept[n - 1] & low_mask(rest as int));
            }
            self.len = new_len;
            proof {
                assert forall|i: int| 0 <= i < new_len implies #[trigger] self@[i] == resized(
                    old_view,
                    new_len as nat,
                )[i] by {
                    assert(i / 64 < n);
                    if rest != 0 && i / 64 == n - 1 {
                        assert(i % 64 < rest);
                        assert(self.words@[i / 64] == kept[i / 64] & low_mask(rest as int));
                    } else {
                        assert(self.words@[i / 64] == old_words[i / 64]);
                    }
                }
                assert(self@ =~= resized(old_view, new_len as nat));
                assert forall|i: int| new_len <= i < self.words@.len() * 64 implies !#[trigger] bit_of(
                    self.words@[i / 64],
                    i % 64,
                ) by {
                    assert(rest != 0);
                    assert(i / 64 == n - 1);
                    assert(i % 64 >= rest);
                    assert(bit_of(kept[n - 1] & low_mask(rest as int), i % 64) == (i % 64 < rest
                        && bit_of(kept[n - 1], i % 64)));
                }
                assert(self.wf_words());
            }
            self.count = self.recount();
        }
    }

    /// The first position at or after `from` whose flag is `v`, or the
    /// capacity when there is none. Words whose 64 flags all differ from `v`
    /// are passed over in one step.
    pub fn scan(&self, from: usize, v: bool) -> (r: usize)
        requires
            self.wf(),
        ensures
            r == next_from(self@, from as int, v),
    {
        let cap = self.len;
        if from >= cap {
            proof {
                lemma_positions_from(self@, from as int, v);
            }
            return cap;
        }
        let mut i = from;
        while i < cap
            invariant
                self.wf(),
                cap == self@.len(),
                cap <= self.words@.len() * 64,
                from <= i <= cap,
                positions_from(self@, i as int, v) == positions_from(self@, from as int, v),
            decreases cap - i,
        {
            if i % WORD_BITS == 0 {
                let word = self.words[i / WORD_BITS];
                if (v && word == 0) || (!v && word == 0xffff_ffff_ffff_ffffu64) {
                    let next = if cap - i < WORD_BITS {
                        cap
                    } else {
                        i + WORD_BITS
                    };
                    proof {
                        lemma_zero_and_full_words();
                        assert forall|q: int| i <= q < next && q < self@.len() implies self@[q]
                            != v by {
                            assert(q / 64 == i / 64);
                        }
                        lemma_positions_from_skip(self@, i as int, next as int, v);
                    }
                    i = next;
                    continue;
                }
            }
            if self.contains(i) == v {
                proof {
                    lemma_next_from(self@, from as int, v);
                    lemma_positions_from(self@, i as int, v);
                }
                return i;
            }
            proof {
                lemma_positions_from_skip(self@, i as int, i + 1, v);
            }
            i = i + 1;
        }
        proof {
            lemma_positions_from(self@, i as int, v);
        }
        cap
    }

    /// The occupied positions, ascending.
    pub fn occupied(&self) -> (r: Occupied<'_>)
        requires
            self.wf(),
        ensures
            r.wf(),
            r@ == occupied_positions(self@),
            r.flags() == self@,
    {
        Occupied::new(self)
    }

    /// The occupied positions, ascending, consuming the index.
    pub fn into_occupied(self) -> (r: IntoOccupied)
        requires
            self.wf(),
        ensures
            r.wf(),
            r@ == occupied_positions(self@),
            r.flags() == self@,
    {
        IntoOccupied::new(self)
    }

    /// The vacant positions, ascending.
    pub fn unoccupied(&self) -> (r: UnOccupied<'_>)
        requires
            self.wf(),
        ensures
            r.wf(),
            r@ == vacant_positions(self@),
            r.flags() == self@,
    {
        UnOccupied::new(self)
    }
}

} // verus!

verus! {

/// The occupied positions of a [`BitVec`], ascending.
#[derive(Debug)]
pub struct Occupied<'a> {
    /// The next position to look at.
    cursor: usize,
    /// How many occupied positions are still to come.
    remaining: usize,
    bits: &'a BitVec,
}

impl<'a> View for Occupied<'a> {
    type V = Seq<int>;

    /// The positions still to come.
    closed spec fn view(&self) -> Seq<int> {
        positions_from(self.bits@, self.cursor as int, true)
    }
}

impl<'a> Occupied<'a> {
    /// The flags of the index being walked.
    pub closed spec fn flags(&self) -> Seq<bool> {
        self.bits@
    }

    pub closed spec fn wf(&self) -> bool {
        &&& self.bits.wf()
        &&& self.remaining == self@.len()
    }

    /// The positions still to come are ascending positions of the index with that flag.
    pub proof fn lemma_view(&self)
        requires
            self.wf(),
        ensures
            ascending_within(self@, self.flags(), true),
            self.flags().len() <= usize::MAX,
    {
        self.bits.lemma_len_bound();
        lemma_positions_from(self.bits@, self.cursor as int, true);
    }

    /// Starts at position zero.
    pub fn new(bits: &'a BitVec) -> (r: Self)
        requires
            bits.wf(),
        ensures
            r.wf(),
            r@ == occupied_positions(bits@),
            r.flags() == bits@,
    {
        Occupied { cursor: 0, remaining: bits.len(), bits }
    }

    /// The next occupied position.
    pub fn next(&mut self) -> (r: Option<usize>)
        requires
            old(self).wf(),
        ensures
            final(self).wf(),
            final(self).flags() == old(self).flags(),
            old(self)@.len() == 0 ==> r is None && final(self)@ == old(self)@,
            old(self)@.len() > 0 ==> r == Some(old(self)@[0] as usize) && final(self)@ == old(
                self,
            )@.drop_first(),
    {
        if self.remaining == 0 {
            return None;
        }
        let index = self.bits.scan(self.cursor, true);
        proof {
            lemma_next_from(self.bits@, self.cursor as int, true);
        }
        if index < self.bits.capacity() {
            self.cursor = index + 1;
            self.remaining = self.remaining - 1;
            Some(index)
        } else {
            None
        }
    }
}

/// The vacant positions of a [`BitVec`], ascending.
#[derive(Debug)]
pub struct UnOccupied<'a> {
    /// The next position to look at.
    cursor: usize,
    /// How many vacant positions are still to come.
    remaining: usize,
    bits: &'a BitVec,
}

impl<'a> View for UnOccupied<'a> {
    type V = Seq<int>;

    /// The positions still to come.
    closed spec fn view(&self) -> Seq<int> {
        positions_from(self.bits@, self.cursor as int, false)
    }
}

impl<'a> UnOccupied<'a> {
    /// The flags of the index being walked.
    pub closed spec fn flags(&self) -> Seq<bool> {
        self.bits@
    }

    pub closed spec fn wf(&self) -> bool {
        &&& self.bits.wf()
        &&& self.remaining == self@.len()
    }

    /// The positions still to come are ascending positions of the index with that flag.
    pub proof fn lemma_view(&self)
        requires
            self.wf(),
        ensures
            ascending_within(self@, self.flags(), false),
            self.flags().len() <= usize::MAX,
    {
        self.bits.lemma_len_bound();
        lemma_positions_from(self.bits@, self.cursor as int, false);
    }

    /// Starts at position zero.
    pub fn new(bits: &'a BitVec) -> (r: Self)
        requires
            bits.wf(),
        ensures
            r.wf(),
            r@ == vacant_positions(bits@),
            r.flags() == bits@,
    {
        proof {
            crate::occupancy::lemma_positions_from_split(bits@, 0);
        }
        UnOccupied { cursor: 0, remaining: bits.capacity() - bits.len(), bits }
    }

    /// The next vacant position.
    pub fn next(&mut self) -> (r: Option<usize>)
        requires
            old(self).wf(),
        ensures
            final(self).wf(),
            final(self).flags() == old(self).flags(),
            old(self)@.len() == 0 ==> r is None && final(self)@ == old(self)@,
            old(self)@.len() > 0 ==> r == Some(old(self)@[0] as usize) && final(self)@ == old(
                self,
            )@.drop_first(),
    {
        if self.remaining == 0 {
            return None;
        }
        let index = self.bits.scan(self.cursor, false);
        proof {
            lemma_next_from(self.bits@, self.cursor as int, false);
        }
        if index < self.bits.capacity() {
            self.cursor = index + 1;
            self.remaining = self.remaining - 1;
            Some(index)
        } else {
            None
        }
    }
}

/// The occupied positions of a [`BitVec`] that it owns, ascending.
#[derive(Debug)]
pub struct IntoOccupied {
    /// The next position to look at.
    cursor: usize,
    /// How many occupied positions are still to come.
    remaining: usize,
    bits: BitVec,
}

impl View for IntoOccupied {
    type V = Seq<int>;

    /// The positions still to come.
    closed spec fn view(&self) -> Seq<int> {
        positions_from(self.bits@, self.cursor as int, true)
    }
}

impl IntoOccupied {
    /// The flags of the index being walked.
    pub closed spec fn flags(&self) -> Seq<bool> {
        self.bits@
    }

    pub closed spec fn wf(&self) -> bool {
        &&& self.bits.wf()
        &&& self.remaining == self@.len()
    }

    /// The positions still to come are ascending positions of the index with that flag.
    pub proof fn lemma_view(&self)
        requires
            self.wf(),
        ensures
            ascending_within(self@, self.flags(), true),
            self.flags().len() <= usize::MAX,
    {
        self.bits.lemma_len_bound();
        lemma_positions_from(self.bits@, self.cursor as int, true);
    }

    /// Starts at position zero.
    pub fn new(bits: BitVec) -> (r: Self)
        requires
            bits.wf(),
        ensures
            r.wf(),
            r@ == occupied_positions(bits@),
            r.flags() == bits@,
    {
        let remaining = bits.len();
        IntoOccupied { cursor: 0, remaining, bits }
    }

    /// The next occupied position.
    pub fn next(&mut self) -> (r: Option<usize>)
        requires
            old(self).wf(),
        ensures
            final(self).wf(),
            final(self).flags() == old(self).flags(),
            old(self)@.len() == 0 ==> r is None && final(self)@ == old(self)@,
            old(self)@.len() > 0 ==> r == Some(old(self)@[0] as usize) && final(self)@ == old(
                self,
            )@.drop_first(),
    {
        if self.remaining == 0 {
            return None;
        }
        let index = self.bits.scan(self.cursor, true);
        proof {
            lemma_next_from(self.bits@, self.cursor as int, true);
        }
        if index < self.bits.capacity() {
            self.cursor = index + 1;
            self.remaining = self.remaining - 1;
            Some(index)
        } else {
            None
        }
    }
}

} // verus!

verus! {

/// How many times `n` can be divided by 64 before it drops below 64: the
/// number of 64-way layers a tree over `n` positions needs above its leaves.
pub open spec fn depth_of(n: nat) -> nat
    decreases n,
{
    if n < 64 {
        0
    } else {
        1 + depth_of(n / 64)
    }
}

/// The tree over `n` positions needs no more layers than there are positions,
/// and its top layer spans no more than `n` of them.
pub proof fn lemma_depth_of(n: nat)
    ensures
        depth_of(n) <= n,
        pow(64, depth_of(n)) <= if n == 0 {
            1
        } else {
            n
        },
    decreases n,
{
    reveal(pow);
    if n >= 64 {
        lemma_depth_of(n / 64);
        assert(pow(64, depth_of(n)) == 64 * pow(64, depth_of(n / 64)));
        assert(64 * (n / 64) <= n);
    }
}

/// The number of 64-way layers above the leaves of a tree over `index` positions.
pub fn compute_depth(index: usize) -> (r: usize)
    ensures
        r == depth_of(index as nat),
{
    let mut n = index;
    let mut depth: usize = 0;
    proof {
        lemma_depth_of(index as nat);
    }
    while n >= WORD_BITS
        invariant
            depth + depth_of(n as nat) == depth_of(index as nat),
            depth_of(index as nat) <= index,
        decreases n,
    {
        n = n / WORD_BITS;
        depth = depth + 1;
    }
    depth
}

/// How many positions one node of the top layer of that tree spans: `64`
/// raised to the depth.
pub fn compute_size(index: usize) -> (r: usize)
    ensures
        r == pow(64, depth_of(index as nat)),
{
    let depth = compute_depth(index);
    let mut size: usize = 1;
    let mut k: usize = 0;
    proof {
        reveal(pow);
        lemma_depth_of(index as nat);
    }
    while k < depth
        invariant
            k <= depth,
            depth == depth_of(index as nat),
            size == pow(64, k as nat),
            pow(64, depth as nat) <= usize::MAX,
        decreases depth - k,
    {
        proof {
            reveal(pow);
            lemma_pow_increases(64, (k + 1) as nat, depth as nat);
            assert(pow(64, (k + 1) as nat) == 64 * pow(64, k as nat));
        }
        size = size * WORD_BITS;
        k = k + 1;
    }
    size
}

} // verus!
