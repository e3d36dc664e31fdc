use beton::bit_tree::BitTree;
use beton::indexer::bit_array::BitArray;
use beton::indexer::bit_vec::{compute_depth, compute_size, BitVec};
use beton::indexer::word::compute_index;
use beton::indexer::{Indexer, INLINE_CAPACITY};

fn check_compute_index() {
    assert_eq!(compute_index(0), (0, 0b00001));
    assert_eq!(compute_index(1), (0, 0b00010));
    assert_eq!(compute_index(2), (0, 0b00100));

    assert_eq!(compute_index(64 - 1), (0, 1 << 63));
    assert_eq!(compute_index(64 + 0), (1, 0b00001));
    assert_eq!(compute_index(64 + 1), (1, 0b00010));
    assert_eq!(compute_index(64 + 2), (1, 0b00100));

    assert_eq!(compute_index(128 - 1), (1, 1 << 63));
    assert_eq!(compute_index(128 + 0), (2, 0b00001));
    assert_eq!(compute_index(128 + 1), (2, 0b00010));
    assert_eq!(compute_index(128 + 2), (2, 0b00100));
}

fn bit_array_smoke_body() {
    const LEN: usize = 2;
    let mut arr: BitArray<LEN> = BitArray::new();
    let max = arr.capacity();
    for n in 0..max {
        arr.insert(n);
        assert!(arr.contains(n));
    }

    assert_eq!(arr.len(), max);

    for n in 0..max {
        assert!(arr.contains(n));
        arr.remove(n);
        assert!(!arr.contains(n));
    }

    assert_eq!(arr.len(), 0);
    assert!(arr.is_empty());
}

fn bit_array_occupied_body() {
    const LEN: usize = 2;
    let mut arr: BitArray<LEN> = BitArray::new();
    let max = arr.capacity();
    for n in 0..max {
        arr.insert(n);
    }

    let mut count = 0;
    let mut it = arr.into_occupied();
    while let Some(index) = it.next() {
        assert_eq!(index, count);
        count += 1;
    }
    assert_eq!(count, max);
}

fn bit_vec_smoke_body() {
    let mut arr = BitVec::with_capacity(2);
    let max = arr.capacity();
    for n in 0..max {
        arr.insert(n);
        assert!(arr.contains(n));
    }

    assert_eq!(arr.len(), max);

    for n in 0..max {
        assert!(arr.contains(n));
        arr.remove(n);
        assert!(!arr.contains(n));
    }

    assert_eq!(arr.len(), 0);
    assert!(arr.is_empty());
}

fn bit_vec_occupied_body() {
    let mut arr = BitVec::new();
    let max = arr.capacity();
    for n in 0..max {
        arr.insert(n);
    }

    let mut count = 0;
    let mut it = arr.into_occupied();
    while let Some(index) = it.next() {
        assert_eq!(index, count);
        count += 1;
    }
    assert_eq!(count, max);
}

fn indexer_smoke_body() {
    let max = 256;
    let mut indexer = Indexer::new();

    for n in 0..max {
        indexer.insert(n);
        assert!(indexer.contains(n));
    }

    assert_eq!(indexer.len(), max);

    for n in 0..max {
        assert!(indexer.contains(n));
        indexer.remove(n);
        assert!(!indexer.contains(n));
    }

    assert_eq!(indexer.len(), 0);
    assert!(indexer.is_empty());
}

#[test]
fn bit_array_smoke() {
    bit_array_smoke_body();
}

#[test]
fn bit_array_index() {
    check_compute_index();
}

#[test]
fn bit_array_occupied() {
    bit_array_occupied_body();
}

#[test]
fn bit_vec_smoke() {
    bit_vec_smoke_body();
}

#[test]
fn bit_vec_index() {
    check_compute_index();
}

#[test]
fn bit_vec_occupied() {
    bit_vec_occupied_body();
}

#[test]
fn mod_smoke() {
    bit_array_smoke_body();
    bit_vec_smoke_body();
    indexer_smoke_body();
}

#[test]
fn mod_occupied() {
    bit_array_occupied_body();
    bit_vec_occupied_body();
}

#[test]
fn mod_index() {
    check_compute_index();
}

#[test]
fn utils_index() {
    check_compute_index();
}

#[test]
fn size() {
    assert_eq!(compute_size(0), 1);
    assert_eq!(compute_size(1), 1);
    assert_eq!(compute_size(2), 1);

    assert_eq!(compute_size(64 - 1), 1);
    assert_eq!(compute_size(64 + 0), 64);
}

#[test]
fn depth() {
    assert_eq!(compute_depth(0), 0);
    assert_eq!(compute_depth(1), 0);
    assert_eq!(compute_depth(2), 0);

    assert_eq!(compute_depth(64 - 1), 0);
    assert_eq!(compute_depth(64 + 0), 1);
    assert_eq!(compute_depth(64 + 1), 1);
    assert_eq!(compute_depth(64 + 2), 1);

    assert_eq!(compute_depth(64usize.pow(2) - 1), 1);
    assert_eq!(compute_depth(64usize.pow(2) + 0), 2);
    assert_eq!(compute_depth(64usize.pow(2) + 1), 2);
    assert_eq!(compute_depth(64usize.pow(2) + 2), 2);
}

#[test]
fn resize() {
    let mut indexer = Indexer::new();
    indexer.insert(0);
    assert!(indexer.contains(0));
    indexer.insert(2);
    assert!(indexer.contains(2));

    let index = indexer.capacity() * 2;
    indexer.insert(index);
    assert!(indexer.contains(index));
    assert!(indexer.contains(0));
    assert!(indexer.contains(2));
}

#[test]
fn compute_size_of_deeper_trees() {
    assert_eq!(compute_size(64 * 64), 64 * 64);
    assert_eq!(compute_size(64 * 64 * 64 - 1), 64 * 64);
}

#[test]
fn indexer_starts_inline_with_fixed_capacity() {
    let indexer = Indexer::new();
    assert_eq!(indexer.capacity(), INLINE_CAPACITY);
    assert_eq!(INLINE_CAPACITY, 128);
    assert!(indexer.is_empty());
    assert!(!indexer.is_full());
    assert_eq!(Indexer::with_capacity(10).capacity(), 128);
    assert_eq!(Indexer::with_capacity(1000).capacity(), 1000);
}

#[test]
fn indexer_promotion_keeps_positions() {
    let mut indexer = Indexer::new();
    indexer.insert(126);
    indexer.insert(127);
    assert_eq!(indexer.capacity(), 128);
    // Past the inline capacity: at least double, and enough for the position.
    indexer.insert(128);
    assert_eq!(indexer.capacity(), 256);
    indexer.insert(5000);
    assert_eq!(indexer.capacity(), 5001);
    for p in [126, 127, 128, 5000] {
        assert!(indexer.contains(p));
    }
    assert_eq!(indexer.len(), 4);
    assert!(!indexer.contains(129));
    assert!(!indexer.contains(100_000));
}

#[test]
fn indexer_next_unoccupied_is_lowest() {
    let mut indexer = Indexer::new();
    assert_eq!(indexer.next_unoccupied(), Some(0));
    for n in 0..70 {
        indexer.insert(n);
    }
    assert_eq!(indexer.next_unoccupied(), Some(70));
    indexer.remove(3);
    assert_eq!(indexer.next_unoccupied(), Some(3));
    for n in 0..128 {
        indexer.insert(n);
    }
    assert!(indexer.is_full());
    assert_eq!(indexer.next_unoccupied(), None);
}

#[test]
fn indexer_unoccupied_skips_full_words() {
    let mut indexer = Indexer::new();
    for n in 0..128 {
        if n != 65 {
            indexer.insert(n);
        }
    }
    let mut free = indexer.unoccupied();
    assert_eq!(free.next(), Some(65));
    assert_eq!(free.next(), None);
}

#[test]
fn indexer_occupied_ascending() {
    let mut indexer = Indexer::new();
    for p in [300, 5, 64, 0, 129] {
        indexer.insert(p);
    }
    let mut seen = Vec::new();
    let mut it = indexer.occupied();
    while let Some(p) = it.next() {
        seen.push(p);
    }
    assert_eq!(seen, vec![0, 5, 64, 129, 300]);
    assert_eq!(seen.len(), indexer.len());
}

#[test]
fn indexer_resize_truncates_and_keeps() {
    let mut indexer = Indexer::new();
    for p in [1, 50, 100, 127] {
        indexer.insert(p);
    }
    indexer.resize(60);
    assert_eq!(indexer.capacity(), 128);
    assert!(indexer.contains(1));
    assert!(indexer.contains(50));
    assert!(!indexer.contains(100));
    assert_eq!(indexer.len(), 2);
    indexer.resize(1000);
    assert_eq!(indexer.capacity(), 1000);
    assert!(indexer.contains(1));
    assert!(indexer.contains(50));
    indexer.insert(999);
    indexer.resize(500);
    assert_eq!(indexer.capacity(), 500);
    assert!(!indexer.contains(999));
    assert_eq!(indexer.len(), 2);
    indexer.clear();
    assert!(indexer.is_empty());
    assert_eq!(indexer.capacity(), 500);
}

#[test]
fn indexer_remove_out_of_range() {
    let mut indexer = Indexer::new();
    assert!(!indexer.remove(0));
    assert!(!indexer.remove(4215));
    assert!(!indexer.contains(usize::MAX));
}

#[test]
fn bit_vec_resize_partial_word() {
    let mut v = BitVec::with_capacity(130);
    v.insert(64);
    v.insert(69);
    v.insert(129);
    v.resize(66);
    assert_eq!(v.capacity(), 66);
    assert_eq!(v.len(), 1);
    assert!(v.contains(64));
    assert!(!v.contains(69));
    v.resize(200);
    assert!(!v.contains(69));
    assert!(!v.contains(129));
    assert_eq!(v.len(), 1);
    let mut free = v.unoccupied();
    assert_eq!(free.next(), Some(0));
}

#[test]
fn bit_tree_index() {
    let mut t = BitTree::with_capacity(4);
    assert_eq!(t.capacity(), 4);
    assert_eq!(t.next_unoccupied(), Some(0));
    t.insert(0);
    t.insert(2);
    t.insert(2);
    assert_eq!(t.len(), 2);
    assert_eq!(t.occupied(), vec![0, 2]);
    assert_eq!(t.unoccupied(), vec![1, 3]);
    assert_eq!(t.next_unoccupied(), Some(1));
    assert!(t.remove(2));
    assert!(!t.remove(2));
    assert!(!t.remove(10));
    t.insert(1);
    t.insert(2);
    t.insert(3);
    assert!(t.is_full());
    assert_eq!(t.next_unoccupied(), None);
    t.resize(2);
    assert_eq!(t.len(), 2);
    assert_eq!(t.capacity(), 2);
    t.resize(3);
    assert!(!t.contains(2));
    t.clear();
    assert!(t.is_empty());
    assert_eq!(t.capacity(), 3);
    assert!(BitTree::new().is_empty());
}
