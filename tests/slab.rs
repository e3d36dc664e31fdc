use std::cell::Cell;
use std::rc::Rc;

use beton::{Key, Slab};

#[test]
fn iter_into_iter() {
    let mut slab = Slab::new();
    slab.insert(1);
    slab.insert(2);
    let mut iter = slab.into_values();
    assert_eq!(iter.next(), Some(1));
    assert_eq!(iter.next(), Some(2));
    assert_eq!(iter.next(), None);
}

#[test]
fn iter_iter() {
    let mut slab = Slab::new();
    slab.insert(1);
    slab.insert(2);
    let mut iter = slab.values();
    assert_eq!(iter.next(), Some(&1));
    assert_eq!(iter.next(), Some(&2));
    assert_eq!(iter.next(), None);

    let mut slab = Slab::new();
    slab.insert(1);
    let key = slab.insert(2);
    slab.insert(3);
    slab.remove(key);
    let mut iter = slab.iter();
    assert_eq!(iter.next(), Some((0.into(), &1)));
    assert_eq!(iter.next(), Some((2.into(), &3)));
    assert_eq!(iter.next(), None);
}

#[test]
fn into_iter_into_iter() {
    let mut slab = Slab::new();
    slab.insert(1);
    let key = slab.insert(2);
    slab.insert(3);
    slab.remove(key);
    let mut iter = slab.into_iter();
    assert_eq!(iter.next(), Some((0.into(), 1)));
    assert_eq!(iter.next(), Some((2.into(), 3)));
    assert_eq!(iter.next(), None);
}

#[test]
fn into_values_into_iter() {
    let mut slab = Slab::new();
    slab.insert(1);
    let key = slab.insert(2);
    slab.insert(3);
    slab.remove(key);
    let mut iter = slab.into_values();
    assert_eq!(iter.next(), Some(1));
    assert_eq!(iter.next(), Some(3));
    assert_eq!(iter.next(), None);
}

#[test]
fn keys_iter() {
    let mut slab = Slab::new();
    slab.insert(1);
    let key = slab.insert(2);
    slab.insert(3);
    slab.remove(key);
    let mut iter = slab.keys();
    assert_eq!(iter.next(), Some(0.into()));
    assert_eq!(iter.next(), Some(2.into()));
    assert_eq!(iter.next(), None);
}

#[test]
fn values_iter() {
    let mut slab = Slab::new();
    slab.insert(1);
    let key = slab.insert(2);
    slab.insert(3);
    slab.remove(key);
    let mut iter = slab.values();
    assert_eq!(iter.next(), Some(&1));
    assert_eq!(iter.next(), Some(&3));
    assert_eq!(iter.next(), None);
}

#[test]
fn iter_mut() {
    let mut slab = Slab::new();
    slab.insert(1);
    let key = slab.insert(2);
    slab.insert(3);
    slab.remove(key);
    let mut iter = slab.values_mut();
    assert_eq!(iter.next(), Some(&mut 1));
    assert_eq!(iter.next(), Some(&mut 3));
    assert_eq!(iter.next(), None);
}

/// Test we don't go out of bounds when attempting to remove a key which is
/// currently not in range.
#[test]
fn remove_zero() {
    let mut subject: Slab<usize> = Slab::new();
    subject.remove(0.into());
}

/// Test we don't go out of bounds when attempting to remove a key which
/// exceeds the current bitset.
#[test]
fn remove_out_of_bounds() {
    let mut subject: Slab<usize> = Slab::new();
    subject.remove(4215.into());
}

/// A reference slot allocator: a vector of optional values that hands out the
/// lowest vacant position.
struct Oracle {
    slots: Vec<Option<usize>>,
}

impl Oracle {
    fn insert(&mut self, value: usize) -> usize {
        match self.slots.iter().position(|s| s.is_none()) {
            Some(p) => {
                self.slots[p] = Some(value);
                p
            }
            None => {
                self.slots.push(Some(value));
                self.slots.len() - 1
            }
        }
    }

    fn get(&self, key: usize) -> Option<&usize> {
        self.slots.get(key).and_then(|s| s.as_ref())
    }

    fn remove(&mut self, key: usize) -> Option<usize> {
        self.slots.get_mut(key).and_then(|s| s.take())
    }

    fn clear(&mut self) {
        for s in self.slots.iter_mut() {
            *s = None;
        }
    }
}

#[test]
fn differential_slab() {
    let mut oracle = Oracle { slots: Vec::new() };
    let mut subject = Slab::new();
    let mut state: u64 = 0x2545_f491_4f6c_dd1d;
    for _ in 0..20_000 {
        state = state
            .wrapping_mul(6364136223846793005)
            .wrapping_add(1442695040888963407);
        let op = (state >> 60) as u8;
        let arg = ((state >> 20) % 400) as usize;
        match op {
            0..=5 => {
                let key1 = oracle.insert(arg);
                let key2 = subject.insert(arg);
                assert_eq!(key1, key2.into());
            }
            6..=8 => {
                assert_eq!(oracle.get(arg), subject.get(arg.into()));
            }
            9..=11 => {
                assert_eq!(oracle.remove(arg), subject.remove(arg.into()));
            }
            12 | 13 => {
                assert_eq!(oracle.get(arg).is_some(), subject.contains_key(arg.into()));
            }
            14 => {
                if arg < 8 {
                    oracle.clear();
                    subject.clear();
                }
            }
            _ => {
                let capacity = arg % 1024;
                subject.reserve(capacity);
            }
        }
        let count = oracle.slots.iter().filter(|s| s.is_some()).count();
        assert_eq!(subject.len(), count);
    }
}

#[test]
fn remove_returns_inserted_value() {
    let mut slab = Slab::new();
    slab.insert("a");
    let key = slab.insert("b");
    assert_eq!(slab.remove(key), Some("b"));
    assert_eq!(slab.remove(key), None);
    assert_eq!(slab.len(), 1);
}

#[test]
fn contains_key_until_removed_or_cleared() {
    let mut slab = Slab::new();
    let a = slab.insert(10);
    let b = slab.insert(20);
    assert!(slab.contains_key(a));
    assert!(slab.contains_key(b));
    slab.insert(30);
    assert!(slab.contains_key(a));
    slab.remove(a);
    assert!(!slab.contains_key(a));
    assert!(slab.contains_key(b));
    slab.clear();
    assert!(!slab.contains_key(b));
    // Keys are not versioned: the freed slot is handed out again.
    let c = slab.insert(40);
    assert_eq!(c, a);
    assert!(slab.contains_key(a));
}

#[test]
fn len_follows_inserts_and_removes() {
    let mut slab = Slab::new();
    assert!(slab.is_empty());
    let keys: Vec<Key> = (0..10).map(|v| slab.insert(v)).collect();
    assert_eq!(slab.len(), 10);
    slab.remove(keys[3]);
    slab.remove(keys[3]);
    slab.remove(Key::from(500));
    assert_eq!(slab.len(), 9);
    slab.clear();
    assert_eq!(slab.len(), 0);
    assert!(slab.is_empty());
}

#[test]
fn clear_twice() {
    let mut slab = Slab::new();
    slab.insert(1);
    slab.insert(2);
    let capacity = slab.capacity();
    slab.clear();
    assert_eq!(slab.len(), 0);
    slab.clear();
    assert_eq!(slab.len(), 0);
    assert!(slab.is_empty());
    assert_eq!(slab.capacity(), capacity);
    assert_eq!(slab.keys().next(), None);
}

#[test]
fn reserve_adds_capacity_and_keeps_values() {
    let mut slab = Slab::new();
    let a = slab.insert(7);
    let b = slab.insert(8);
    let before = slab.capacity();
    slab.reserve(300);
    assert_eq!(slab.capacity(), before + 300);
    assert_eq!(slab.get(a), Some(&7));
    assert_eq!(slab.get(b), Some(&8));
    slab.reserve(0);
    assert_eq!(slab.capacity(), before + 300);
}

#[test]
fn growth_past_inline_capacity_keeps_keys() {
    let mut slab = Slab::new();
    assert_eq!(slab.capacity(), 128);
    let keys: Vec<Key> = (0..128).map(|v| slab.insert(v)).collect();
    assert_eq!(slab.capacity(), 128);
    // Full: the next insertion doubles the capacity.
    let far = slab.insert(1000);
    assert_eq!(usize::from(far), 128);
    assert_eq!(slab.capacity(), 256);
    let more: Vec<Key> = (0..200).map(|v| slab.insert(v + 2000)).collect();
    assert_eq!(usize::from(more[199]), 328);
    assert_eq!(slab.capacity(), 512);
    for (v, k) in keys.iter().enumerate() {
        assert_eq!(slab.get(*k), Some(&v));
    }
    assert_eq!(slab.get(far), Some(&1000));
}

#[test]
fn insert_takes_lowest_vacant_key() {
    let mut slab = Slab::with_capacity(4);
    let keys: Vec<Key> = (0..5).map(|v| slab.insert(v)).collect();
    slab.remove(keys[3]);
    slab.remove(keys[1]);
    assert_eq!(usize::from(slab.insert(9)), 1);
    assert_eq!(usize::from(slab.insert(9)), 3);
    assert_eq!(usize::from(slab.insert(9)), 5);
}

#[test]
fn iteration_is_ascending_and_complete() {
    let mut slab = Slab::with_capacity(300);
    assert_eq!(slab.capacity(), 300);
    for v in 0..250 {
        slab.insert(v);
    }
    for k in (0..250).filter(|k| k % 3 != 0) {
        slab.remove(Key::from(k));
    }
    let mut keys = Vec::new();
    let mut it = slab.keys();
    while let Some(k) = it.next() {
        keys.push(usize::from(k));
    }
    assert_eq!(keys.len(), slab.len());
    assert!(keys.windows(2).all(|w| w[0] < w[1]));
    assert!(keys.iter().all(|k| k % 3 == 0));
    let mut values = Vec::new();
    let mut it = slab.iter();
    while let Some((k, v)) = it.next() {
        assert_eq!(usize::from(k), *v);
        values.push(*v);
    }
    assert_eq!(keys, values);
}

#[test]
fn mutable_views_write_through() {
    let mut slab = Slab::new();
    let a = slab.insert(1);
    let b = slab.insert(2);
    let c = slab.insert(3);
    slab.remove(b);
    if let Some(v) = slab.get_mut(a) {
        *v = 10;
    }
    assert!(slab.get_mut(b).is_none());
    {
        let mut it = slab.iter_mut();
        while let Some((k, v)) = it.next() {
            *v += usize::from(k) * 100;
        }
    }
    assert_eq!(slab.get(a), Some(&10));
    assert_eq!(slab.get(c), Some(&203));
    {
        let mut it = slab.values_mut();
        while let Some(v) = it.next() {
            *v *= 2;
        }
    }
    assert_eq!(slab.get(a), Some(&20));
    assert_eq!(slab.get(c), Some(&406));
}

#[test]
fn resize_drops_values_past_new_length() {
    let mut slab = Slab::with_capacity(200);
    let keys: Vec<Key> = (0..150).map(|v| slab.insert(v)).collect();
    slab.resize(100);
    assert_eq!(slab.capacity(), 128);
    assert_eq!(slab.len(), 100);
    assert!(slab.contains_key(keys[99]));
    assert!(!slab.contains_key(keys[100]));
    assert!(!slab.contains_key(keys[140]));
    slab.resize(400);
    assert_eq!(slab.capacity(), 400);
    assert_eq!(slab.len(), 100);
    assert_eq!(usize::from(slab.insert(0)), 100);
}

struct Counted(Rc<Cell<usize>>);

impl Drop for Counted {
    fn drop(&mut self) {
        self.0.set(self.0.get() + 1);
    }
}

#[test]
fn partially_consumed_into_iter_drops_the_rest() {
    let drops = Rc::new(Cell::new(0));
    let mut slab = Slab::new();
    for _ in 0..5 {
        slab.insert(Counted(drops.clone()));
    }
    slab.remove(Key::from(1));
    assert_eq!(drops.get(), 1);
    let mut it = slab.into_iter();
    let (k, first) = it.next().unwrap();
    assert_eq!(usize::from(k), 0);
    drop(first);
    assert_eq!(drops.get(), 2);
    drop(it);
    assert_eq!(drops.get(), 5);
}

#[test]
fn partially_consumed_into_values_drops_the_rest() {
    let drops = Rc::new(Cell::new(0));
    let mut slab = Slab::new();
    for _ in 0..4 {
        slab.insert(Counted(drops.clone()));
    }
    let mut it = slab.into_values();
    drop(it.next());
    drop(it.next());
    assert_eq!(drops.get(), 2);
    drop(it);
    assert_eq!(drops.get(), 4);
}

#[test]
fn slab_drops_each_value_once() {
    let drops = Rc::new(Cell::new(0));
    {
        let mut slab = Slab::new();
        for _ in 0..6 {
            slab.insert(Counted(drops.clone()));
        }
        slab.remove(Key::from(2));
        assert_eq!(drops.get(), 1);
        slab.clear();
        assert_eq!(drops.get(), 6);
        slab.insert(Counted(drops.clone()));
    }
    assert_eq!(drops.get(), 7);
}

#[test]
fn key_converts_to_and_from_position() {
    let k = Key::from(42usize);
    assert_eq!(usize::from(k), 42);
    assert_eq!(k.index(), 42);
    assert_eq!(Key::new(7), Key::from(7));
    assert!(Key::from(1) < Key::from(2));
}
