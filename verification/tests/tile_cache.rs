use terra::priority::Priority;
use terra::tile_cache::{Admission, Fence, FenceState, Fill, TileCache};

#[test]
fn fence_becomes_ready_once() {
    let mut fence = Fence { state: FenceState::Pending { token: 7 } };
    assert!(!fence.is_done(false));
    assert_eq!(fence, Fence { state: FenceState::Pending { token: 7 } });
    assert!(fence.is_done(true));
    assert_eq!(fence, Fence { state: FenceState::Ready });
    assert!(fence.is_done(false));
    assert_eq!(fence, Fence { state: FenceState::Ready });
}

#[test]
fn new_cache_is_empty() {
    let cache = TileCache::new(3, 512);
    assert_eq!(cache.capacity(), 3);
    assert_eq!(cache.len(), 0);
    assert_eq!(cache.resolution(), 512);
    assert!(!cache.contains(1));
    assert_eq!(cache.slot(1), None);
    assert_eq!(cache.fence(0), None);
}

#[test]
fn insert_gives_fresh_slots_and_tokens() {
    let mut cache = TileCache::new(3, 16);
    assert_eq!(cache.insert(10), Admission { slot: 0, fill: Some(0) });
    assert_eq!(cache.insert(20), Admission { slot: 1, fill: Some(1) });
    assert_eq!(cache.insert(30), Admission { slot: 2, fill: Some(2) });
    assert_eq!(cache.len(), 3);
    assert_eq!(cache.slot(20), Some(1));
    assert_eq!(cache.fence(1), Some(Fence { state: FenceState::Pending { token: 1 } }));
}

#[test]
fn insert_is_idempotent() {
    let mut cache = TileCache::new(2, 16);
    let first = cache.insert(5);
    assert_eq!(first, Admission { slot: 0, fill: Some(0) });
    assert!(cache.signal(0, 0));
    let again = cache.insert(5);
    assert_eq!(again, Admission { slot: 0, fill: None });
    assert_eq!(cache.len(), 1);
    assert!(cache.contains(5));
    assert_eq!(cache.insert(6), Admission { slot: 1, fill: Some(1) });
}

#[test]
fn contains_needs_a_finished_fill() {
    let mut cache = TileCache::new(2, 16);
    let a = cache.insert(5);
    assert!(!cache.contains(5));
    assert!(cache.signal(a.slot, a.fill.unwrap()));
    assert!(cache.contains(5));
    assert!(!cache.contains(6));
    assert!(!cache.signal(a.slot, a.fill.unwrap()));
    assert!(cache.contains(5));
}

#[test]
fn one_key_too_many_evicts_the_oldest() {
    let n = 4;
    let mut cache = TileCache::new(n, 16);
    for key in 0..n as u64 {
        cache.insert(100 + key);
    }
    let last = cache.insert(999);
    assert_eq!(last, Admission { slot: 0, fill: Some(4) });
    assert_eq!(cache.len(), n);
    assert_eq!(cache.slot(100), None);
    assert_eq!(cache.slot(101), Some(1));
    assert_eq!(cache.slot(102), Some(2));
    assert_eq!(cache.slot(103), Some(3));
    assert_eq!(cache.slot(999), Some(0));
    let next = cache.insert(1000);
    assert_eq!(next.slot, 1);
    assert_eq!(cache.slot(101), None);
}

#[test]
fn asking_for_a_resident_key_does_not_save_it() {
    let mut cache = TileCache::new(2, 16);
    cache.insert(1);
    cache.insert(2);
    cache.insert(1);
    cache.insert(3);
    assert_eq!(cache.slot(1), None);
    assert_eq!(cache.slot(2), Some(1));
    assert_eq!(cache.slot(3), Some(0));
}

#[test]
fn capacity_is_never_exceeded() {
    let mut cache = TileCache::new(5, 16);
    for round in 0..50u64 {
        cache.add_missing(Priority((round * 7919 % 1000) as u32), round % 17);
        cache.add_missing(Priority((round * 104729 % 1000) as u32), round % 13 + 100);
        if round % 3 == 0 {
            cache.load_missing();
        }
        assert!(cache.len() <= cache.capacity());
    }
    cache.load_missing();
    assert_eq!(cache.len(), 5);
}

#[test]
fn stale_signal_is_ignored() {
    let mut cache = TileCache::new(1, 16);
    let first = cache.insert(1);
    let second = cache.insert(2);
    assert_eq!(second.slot, first.slot);
    assert!(!cache.signal(first.slot, first.fill.unwrap()));
    assert!(!cache.contains(2));
    assert!(!cache.signal(7, second.fill.unwrap()));
    assert!(cache.signal(second.slot, second.fill.unwrap()));
    assert!(cache.contains(2));
    assert!(!cache.contains(1));
}

#[test]
fn eviction_takes_a_pending_slot_too() {
    let mut cache = TileCache::new(1, 16);
    cache.insert(1);
    let second = cache.insert(2);
    assert_eq!(cache.fence(0), Some(Fence { state: FenceState::Pending { token: 1 } }));
    assert_eq!(second.fill, Some(1));
}

#[test]
fn demands_are_served_most_urgent_first() {
    let mut cache = TileCache::new(8, 16);
    cache.add_missing(Priority(10), 1);
    cache.add_missing(Priority(30), 2);
    cache.add_missing(Priority(20), 3);
    cache.add_missing(Priority(30), 4);
    assert_eq!(cache.len(), 0);
    let fills = cache.load_missing();
    assert_eq!(
        fills,
        vec![
            Fill { key: 2, slot: 0, token: 0 },
            Fill { key: 4, slot: 1, token: 1 },
            Fill { key: 3, slot: 2, token: 2 },
            Fill { key: 1, slot: 3, token: 3 },
        ]
    );
    assert_eq!(cache.load_missing(), vec![]);
}

#[test]
fn demands_beyond_capacity_are_dropped() {
    let mut cache = TileCache::new(2, 16);
    cache.add_missing(Priority(1), 1);
    cache.add_missing(Priority(3), 3);
    cache.add_missing(Priority(2), 2);
    let fills = cache.load_missing();
    assert_eq!(
        fills,
        vec![Fill { key: 3, slot: 0, token: 0 }, Fill { key: 2, slot: 1, token: 1 }]
    );
    assert_eq!(cache.slot(1), None);
    assert_eq!(cache.load_missing(), vec![]);
}

#[test]
fn demand_for_a_resident_or_demanded_key_is_not_recorded() {
    let mut cache = TileCache::new(4, 16);
    cache.insert(1);
    cache.add_missing(Priority(5), 1);
    cache.add_missing(Priority(5), 2);
    cache.add_missing(Priority(9), 2);
    let fills = cache.load_missing();
    assert_eq!(fills, vec![Fill { key: 2, slot: 1, token: 1 }]);
}

#[test]
fn load_evicts_the_oldest_residents() {
    let mut cache = TileCache::new(3, 16);
    cache.insert(1);
    cache.insert(2);
    cache.insert(3);
    cache.add_missing(Priority(7), 4);
    cache.add_missing(Priority(8), 5);
    let fills = cache.load_missing();
    assert_eq!(
        fills,
        vec![Fill { key: 5, slot: 0, token: 3 }, Fill { key: 4, slot: 1, token: 4 }]
    );
    assert_eq!(cache.slot(1), None);
    assert_eq!(cache.slot(2), None);
    assert_eq!(cache.slot(3), Some(2));
}

#[test]
fn cache_without_slots_serves_nothing() {
    let mut cache = TileCache::new(0, 16);
    cache.add_missing(Priority(7), 4);
    assert_eq!(cache.load_missing(), vec![]);
    assert_eq!(cache.len(), 0);
}

#[test]
fn priorities_order_as_the_numbers_do() {
    assert_eq!(Priority::cutoff().to_bits(), 1.0f32.to_bits());
    assert_eq!(Priority::none().to_bits(), 0.0f32.to_bits());
    let low = Priority::from_bits(0.25f32.to_bits()).unwrap();
    let high = Priority::from_bits(3.5f32.to_bits()).unwrap();
    assert!(high.at_least(low));
    assert!(!low.at_least(high));
    assert!(high.at_least(Priority::cutoff()));
    assert!(!low.at_least(Priority::cutoff()));
    assert!(Priority::cutoff().at_least(Priority::cutoff()));
    assert_eq!(Priority::from_bits(f32::MAX.to_bits()), Some(Priority(0x7f7f_ffff)));
    assert_eq!(Priority::from_bits(f32::INFINITY.to_bits()), None);
    assert_eq!(Priority::from_bits(f32::NAN.to_bits()), None);
    assert_eq!(Priority::from_bits((-1.0f32).to_bits()), None);
}

#[test]
fn cache_notes_the_range_of_its_priorities() {
    let mut cache = TileCache::new(4, 16);
    let priorities = vec![Priority(50), Priority(10), Priority(90), Priority(30)];
    assert_eq!(cache.priority_range(), None);
    cache.update_priorities(&priorities);
    assert_eq!(cache.priority_range(), None);
    cache.insert(3);
    cache.update_priorities(&priorities);
    assert_eq!(cache.priority_range(), Some((Priority(30), Priority(30))));
    cache.insert(0);
    cache.insert(2);
    cache.insert(77);
    cache.update_priorities(&priorities);
    assert_eq!(cache.priority_range(), Some((Priority(30), Priority(90))));
    cache.insert(1);
    cache.update_priorities(&priorities);
    assert_eq!(cache.priority_range(), Some((Priority(10), Priority(90))));
    assert_eq!(cache.len(), 4);
    cache.update_priorities(&vec![]);
    assert_eq!(cache.priority_range(), None);
}
