//! The persistent ordered map against a reference map.

use evedb_core::ordered_map::{Bound, OrderedMap};
use std::collections::BTreeMap;
use std::sync::atomic::{AtomicUsize, Ordering};
use std::sync::Arc;

fn all(map: &OrderedMap<u64, u64>) -> Vec<(u64, u64)> {
    map.items().into_iter().map(|(k, v)| (*k, *v)).collect()
}

fn between(map: &OrderedMap<u64, u64>, lower: Bound<u64>, upper: Bound<u64>) -> Vec<(u64, u64)> {
    let mut range = map.range(lower, upper);
    let mut out = Vec::new();
    while let Some((k, v)) = range.next() {
        out.push((*k, *v));
    }
    out
}

#[test]
fn prefix_removal_and_floor_preserve_balance_and_old_roots() {
    let mut original = OrderedMap::new();
    for key in 0..2048u64 {
        original.insert(key, key);
    }
    for threshold in 0..=2048u64 {
        let mut map = original.clone();
        map.retain_from(&threshold);
        assert!(map.is_balanced());
        assert_eq!(
            all(&map).into_iter().map(|(key, _)| key).collect::<Vec<_>>(),
            (threshold..2048).collect::<Vec<_>>()
        );
        assert_eq!(
            map.floor(&threshold.saturating_sub(1)).map(|(key, _)| *key),
            if threshold == 0 { Some(0) } else { None }
        );
        assert_eq!(
            map.floor(&4096).map(|(key, _)| *key),
            (threshold < 2048).then_some(2047)
        );
    }
    assert_eq!(all(&original).len(), 2048);
}

#[test]
fn generated_updates_ranges_and_old_roots_match_a_reference_map() {
    for descending in [false, true] {
        let mut map = OrderedMap::new();
        let mut reference = BTreeMap::new();
        let mut snapshots = Vec::new();
        let mut random = 37u64;
        for step in 0..4000u64 {
            random = random.wrapping_mul(6364136223846793005).wrapping_add(1);
            let key = if step < 1000 {
                if descending {
                    1000 - step
                } else {
                    step
                }
            } else {
                random % 2000
            };
            map.insert(key, step);
            reference.insert(key, step);
            assert!(map.is_balanced());
            if step % 193 == 0 {
                snapshots.push((map.clone(), reference.clone()));
            }
        }
        for (map, reference) in snapshots {
            assert_eq!(
                all(&map),
                reference.iter().map(|(k, v)| (*k, *v)).collect::<Vec<_>>()
            );
            for (start, end) in [(0, 0), (0, 500), (99, 1000), (1999, u64::MAX)] {
                assert_eq!(
                    between(&map, Bound::Included(start), Bound::Included(end)),
                    reference
                        .range(start..=end)
                        .map(|(k, v)| (*k, *v))
                        .collect::<Vec<_>>()
                );
                assert_eq!(
                    between(&map, Bound::Excluded(start), Bound::Excluded(end)),
                    reference
                        .iter()
                        .filter(|(k, _)| **k > start && **k < end)
                        .map(|(k, v)| (*k, *v))
                        .collect::<Vec<_>>()
                );
            }
        }
    }
}

struct Counted(Arc<AtomicUsize>);

impl Clone for Counted {
    fn clone(&self) -> Self {
        self.0.fetch_add(1, Ordering::Relaxed);
        Self(self.0.clone())
    }
}

#[test]
fn pinning_copies_no_entries_and_one_update_copies_only_a_bounded_path() {
    let count = Arc::new(AtomicUsize::new(0));
    let mut map = OrderedMap::new();
    for key in 0..10_000u64 {
        map.insert(key, Counted(count.clone()));
    }
    count.store(0, Ordering::Relaxed);
    let old = map.clone();
    assert_eq!(count.load(Ordering::Relaxed), 0);
    map.insert(10_000, Counted(count.clone()));
    assert!(count.load(Ordering::Relaxed) < 64);
    assert!(old.get(&10_000).is_none());
    assert!(map.get(&10_000).is_some());
    map.clear();
    assert!(old.get(&9999).is_some());
}

#[test]
fn an_empty_map_has_no_entries() {
    let map: OrderedMap<u64, u64> = OrderedMap::default();
    assert!(all(&map).is_empty());
    assert!(map.floor(&u64::MAX).is_none());
    assert!(!map.contains_key(&0));
}
