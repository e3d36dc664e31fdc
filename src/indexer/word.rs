//! Positions packed 64 to a word: position `p` lives in bit `p % 64` of word `p / 64`.
use vstd::prelude::*;

verus! {

/// How many positions one word holds.
pub const WORD_BITS: usize = 64;

/// Whether bit `j` of `w` is set.
pub open spec fn bit_of(w: u64, j: int) -> bool {
    0 <= j < 64 && (w >> (j as u64)) & 1u64 == 1u64
}

/// The flags of the first `len` positions packed in `ws`.
pub open spec fn words_view(ws: Seq<u64>, len: nat) -> Seq<bool> {
    Seq::new(len, |i: int| bit_of(ws[i / 64], i % 64))
}

/// The single-bit mask of bit `j`.
pub open spec fn bit_mask(j: int) -> u64 {
    1u64 << (j as u64)
}

/// The mask of the bits below bit `r`.
pub open spec fn low_mask(r: int) -> u64 {
    ((1u64 << (r as u64)) - 1u64) as u64
}

/// Splits a position into the index of its word and the mask of its bit there.
pub fn compute_index(index: usize) -> (r: (usize, u64))
    ensures
        r.0 == index / 64,
        r.1 == bit_mask(index as int % 64),
{
    let word = index / WORD_BITS;
    let bit = (index % WORD_BITS) as u64;
    (word, 1u64 << bit)
}

proof fn lemma_bits(w: u64, j: u64, k: u64)
    by (bit_vector)
    requires
        j < 64,
        k < 64,
    ensures
        ((w | (1u64 << j)) >> k) & 1u64 == 1u64 <==> (k == j || (w >> k) & 1u64 == 1u64),
        ((w & !(1u64 << j)) >> k) & 1u64 == 1u64 <==> (k != j && (w >> k) & 1u64 == 1u64),
        (w & (1u64 << j) == (1u64 << j)) <==> (w >> j) & 1u64 == 1u64,
        (0u64 >> k) & 1u64 != 1u64,
        (0xffff_ffff_ffff_ffffu64 >> k) & 1u64 == 1u64,
{
}

proof fn lemma_low_bits(w: u64, r: u64, k: u64)
    by (bit_vector)
    requires
        r < 64,
        k < 64,
    ensures
        ((w & (((1u64 << r) - 1u64) as u64)) >> k) & 1u64 == 1u64 <==> (k < r && (w >> k) & 1u64
            == 1u64),
        1u64 << r >= 1u64,
{
}

/// Testing a word against a bit's mask tells whether the bit is set.
pub proof fn lemma_test_bit(w: u64, j: int)
    requires
        0 <= j < 64,
    ensures
        (w & bit_mask(j) == bit_mask(j)) == bit_of(w, j),
{
    lemma_bits(w, j as u64, 0);
}

/// No bit of a zero word is set; every bit of an all-ones word is.
pub proof fn lemma_zero_and_full_words()
    ensures
        forall|j: int| 0 <= j < 64 ==> !#[trigger] bit_of(0u64, j),
        forall|j: int| 0 <= j < 64 ==> #[trigger] bit_of(0xffff_ffff_ffff_ffffu64, j),
{
    assert forall|j: int| 0 <= j < 64 implies !#[trigger] bit_of(0u64, j) by {
        lemma_bits(0, 0, j as u64);
    }
    assert forall|j: int| 0 <= j < 64 implies #[trigger] bit_of(0xffff_ffff_ffff_ffffu64, j) by {
        lemma_bits(0, 0, j as u64);
    }
}

/// Keeping the low `r` bits of a word clears the others.
pub proof fn lemma_keep_low_bits(w: u64, r: int)
    requires
        0 <= r < 64,
    ensures
        forall|j: int|
            0 <= j < 64 ==> #[trigger] bit_of(w & low_mask(r), j) == (j < r && bit_of(w, j)),
        1u64 << (r as u64) >= 1u64,
{
    lemma_low_bits(w, r as u64, 0);
    assert forall|j: int| 0 <= j < 64 implies #[trigger] bit_of(w & low_mask(r), j) == (j < r
        && bit_of(w, j)) by {
        lemma_low_bits(w, r as u64, j as u64);
    }
}

/// How many words hold `len` positions.
pub open spec fn words_for(len: nat) -> nat {
    if len % 64 == 0 {
        len / 64
    } else {
        len / 64 + 1
    }
}

/// Every bit of `ws` at or past position `len` is clear.
pub open spec fn clear_past(ws: Seq<u64>, len: nat) -> bool {
    forall|i: int| len <= i < ws.len() * 64 ==> !#[trigger] bit_of(ws[i / 64], i % 64)
}

/// Writing a word with bit `index % 64` set marks position `index` in the packed view.
pub proof fn lemma_words_set(ws: Seq<u64>, len: nat, index: int)
    requires
        0 <= index < len,
        len <= ws.len() * 64,
    ensures
        words_view(ws.update(index / 64, ws[index / 64] | bit_mask(index % 64)), len)
            == words_view(ws, len).update(index, true),
{
    let w = index / 64;
    let nws = ws.update(w, ws[w] | bit_mask(index % 64));
    assert forall|i: int| 0 <= i < len implies #[trigger] words_view(nws, len)[i] == words_view(
        ws,
        len,
    ).update(index, true)[i] by {
        if i / 64 == w {
            lemma_bits(ws[w], (index % 64) as u64, (i % 64) as u64);
        }
    }
    assert(words_view(nws, len) =~= words_view(ws, len).update(index, true));
}

/// Writing a word with bit `index % 64` cleared unmarks position `index` in the packed view.
pub proof fn lemma_words_clear(ws: Seq<u64>, len: nat, index: int)
    requires
        0 <= index < len,
        len <= ws.len() * 64,
    ensures
        words_view(ws.update(index / 64, ws[index / 64] & !bit_mask(index % 64)), len)
            == words_view(ws, len).update(index, false),
{
    let w = index / 64;
    let nws = ws.update(w, ws[w] & !bit_mask(index % 64));
    assert forall|i: int| 0 <= i < len implies #[trigger] words_view(nws, len)[i] == words_view(
        ws,
        len,
    ).update(index, false)[i] by {
        if i / 64 == w {
            lemma_bits(ws[w], (index % 64) as u64, (i % 64) as u64);
        }
    }
    assert(words_view(nws, len) =~= words_view(ws, len).update(index, false));
}

} // verus!
