use nitro::CacheError;
use nitro::CacheStats;
use nitro::SieveCache;

fn keys_in_order(cache: &SieveCache<u64, u64>) -> Vec<u64> {
    let mut it = cache.iter();
    let mut keys = Vec::new();
    while let Some((key, _)) = it.next() {
        keys.push(key);
    }
    keys
}

fn entries_in_order(cache: &SieveCache<u64, u64>) -> Vec<(u64, u64)> {
    let mut it = cache.iter();
    let mut entries = Vec::new();
    while let Some(entry) = it.next() {
        entries.push(entry);
    }
    entries
}

#[test]
fn zero_capacity_is_refused() {
    let made: Result<SieveCache<u64, u64>, CacheError> = SieveCache::new(0);
    match made {
        Err(CacheError::CapacityError(msg)) => {
            assert_eq!(msg, "Cache capacity cannot be zero");
        }
        _ => panic!("a capacity of zero must be refused with a capacity error"),
    }
}

#[test]
fn capacity_one_is_accepted() {
    let cache: SieveCache<u64, u64> = SieveCache::new(1).unwrap();
    assert_eq!(cache.capacity(), 1);
    assert_eq!(cache.len(), 0);
    assert!(cache.is_empty());
}

#[test]
fn error_message_names_kind_and_report() {
    let capacity = CacheError::CapacityError(String::from("Cache capacity cannot be zero"));
    assert_eq!(capacity.message(), "Capacity error: Cache capacity cannot be zero");
    let lock = CacheError::LockError(String::from("poisoned"));
    assert_eq!(lock.message(), "Lock error: poisoned");
    let bare = CacheError::LockError(String::new());
    assert_eq!(bare.message(), "Lock error: ");
}

#[test]
fn default_stats_are_zero() {
    let stats = CacheStats::default();
    assert_eq!(stats.hits, 0);
    assert_eq!(stats.misses, 0);
}

#[test]
fn new_cache_has_zeroed_stats() {
    let cache: SieveCache<u64, u64> = SieveCache::new(4).unwrap();
    assert_eq!(cache.get_stats().hits, 0);
    assert_eq!(cache.get_stats().misses, 0);
    assert_eq!(cache.hit_rate_percent(), 0);
    assert_eq!(cache.usage_percent(), 0);
}

#[test]
fn len_never_exceeds_capacity() {
    let mut cache: SieveCache<u64, u64> = SieveCache::new(3).unwrap();
    for round in 0..50u64 {
        let key = (round * 7) % 11;
        cache.add(key, round).unwrap();
        assert!(cache.len() <= cache.capacity());
        if round % 3 == 0 {
            cache.get(&((round * 5) % 11)).unwrap();
        }
        if round % 5 == 0 {
            cache.delete(&((round * 3) % 11)).unwrap();
            assert!(cache.len() <= cache.capacity());
        }
        if round % 13 == 0 {
            cache.evict().unwrap();
            assert!(cache.len() <= cache.capacity());
        }
    }
    assert_eq!(cache.capacity(), 3);
}

#[test]
fn len_counts_retrievable_keys() {
    let mut cache: SieveCache<u64, u64> = SieveCache::new(4).unwrap();
    for key in 0..9u64 {
        cache.add(key, key * 10).unwrap();
    }
    cache.delete(&8).unwrap();
    let mut found = 0;
    for key in 0..20u64 {
        if cache.get(&key).unwrap().is_some() {
            found += 1;
        }
    }
    assert_eq!(found, cache.len());
    assert_eq!(cache.len(), 3);
}

#[test]
fn traversal_agrees_with_lookups() {
    let mut cache: SieveCache<u64, u64> = SieveCache::new(3).unwrap();
    for key in 1..=5u64 {
        cache.add(key, key + 100).unwrap();
    }
    let entries = entries_in_order(&cache);
    assert_eq!(entries.len(), cache.len());
    for (i, (key, value)) in entries.iter().enumerate() {
        for (other, _) in entries.iter().skip(i + 1) {
            assert_ne!(key, other);
        }
        assert_eq!(cache.get(key).unwrap(), Some(*value));
    }
    for key in 0..10u64 {
        let listed = entries.iter().any(|(k, _)| *k == key);
        assert_eq!(cache.get(&key).unwrap().is_some(), listed);
    }
}

#[test]
fn traversal_runs_from_newest_to_oldest() {
    let mut cache: SieveCache<u64, u64> = SieveCache::new(3).unwrap();
    cache.add(1, 10).unwrap();
    cache.add(2, 20).unwrap();
    cache.add(3, 30).unwrap();
    assert_eq!(entries_in_order(&cache), vec![(3, 30), (2, 20), (1, 10)]);
}

#[test]
fn traversal_of_empty_cache_yields_nothing() {
    let cache: SieveCache<u64, u64> = SieveCache::new(3).unwrap();
    let mut it = cache.iter();
    assert_eq!(it.next(), None);
    assert_eq!(it.next(), None);
}

#[test]
fn get_does_not_move_entries() {
    let mut cache: SieveCache<u64, u64> = SieveCache::new(3).unwrap();
    cache.add(1, 10).unwrap();
    cache.add(2, 20).unwrap();
    cache.add(3, 30).unwrap();
    let before = entries_in_order(&cache);
    assert_eq!(cache.get(&1).unwrap(), Some(10));
    assert_eq!(cache.get(&2).unwrap(), Some(20));
    assert_eq!(cache.get(&9).unwrap(), None);
    assert_eq!(entries_in_order(&cache), before);
}

#[test]
fn add_on_present_key_keeps_its_place() {
    let mut cache: SieveCache<u64, u64> = SieveCache::new(3).unwrap();
    cache.add(1, 10).unwrap();
    cache.add(2, 20).unwrap();
    assert_eq!(cache.add(1, 11).unwrap(), true);
    assert_eq!(entries_in_order(&cache), vec![(2, 20), (1, 11)]);
    assert_eq!(cache.len(), 2);
}

#[test]
fn add_on_present_key_marks_it_visited() {
    let mut cache: SieveCache<u64, u64> = SieveCache::new(2).unwrap();
    cache.add(1, 10).unwrap();
    cache.add(2, 20).unwrap();
    cache.add(1, 11).unwrap();
    cache.add(3, 30).unwrap();
    assert_eq!(keys_in_order(&cache), vec![3, 1]);
}

#[test]
fn probe_hit_keeps_stored_value() {
    let mut cache: SieveCache<u64, u64> = SieveCache::new(2).unwrap();
    cache.add(7, 1).unwrap();
    assert_eq!(cache.probe(7, 2).unwrap(), (1, true));
    assert_eq!(cache.get(&7).unwrap(), Some(1));
    assert_eq!(cache.len(), 1);
}

#[test]
fn probe_hit_does_not_mark_visited() {
    let mut cache: SieveCache<u64, u64> = SieveCache::new(2).unwrap();
    cache.add(1, 10).unwrap();
    cache.add(2, 20).unwrap();
    assert_eq!(cache.probe(1, 99).unwrap(), (10, true));
    cache.add(3, 30).unwrap();
    // Entry 1 is the oldest and still unvisited, so it is the victim.
    assert_eq!(keys_in_order(&cache), vec![3, 2]);
}

#[test]
fn probe_miss_inserts_at_head() {
    let mut cache: SieveCache<u64, u64> = SieveCache::new(2).unwrap();
    cache.add(1, 10).unwrap();
    assert_eq!(cache.probe(2, 20).unwrap(), (20, false));
    assert_eq!(entries_in_order(&cache), vec![(2, 20), (1, 10)]);
}

#[test]
fn probe_is_not_counted() {
    let mut cache: SieveCache<u64, u64> = SieveCache::new(2).unwrap();
    cache.probe(1, 10).unwrap();
    cache.probe(1, 11).unwrap();
    assert_eq!(cache.get_stats().hits, 0);
    assert_eq!(cache.get_stats().misses, 0);
}

#[test]
fn delete_absent_changes_nothing() {
    let mut cache: SieveCache<u64, u64> = SieveCache::new(3).unwrap();
    cache.add(1, 10).unwrap();
    cache.add(2, 20).unwrap();
    let before = entries_in_order(&cache);
    assert_eq!(cache.delete(&5).unwrap(), false);
    assert_eq!(entries_in_order(&cache), before);
    assert_eq!(cache.len(), 2);
    assert_eq!(cache.get_stats().hits, 0);
    assert_eq!(cache.get_stats().misses, 0);
}

#[test]
fn delete_then_add_again() {
    let mut cache: SieveCache<u64, u64> = SieveCache::new(3).unwrap();
    cache.add(1, 10).unwrap();
    cache.add(2, 20).unwrap();
    cache.add(3, 30).unwrap();
    assert_eq!(cache.delete(&2).unwrap(), true);
    assert_eq!(cache.get(&2).unwrap(), None);
    assert_eq!(entries_in_order(&cache), vec![(3, 30), (1, 10)]);
    assert_eq!(cache.add(2, 21).unwrap(), false);
    assert_eq!(entries_in_order(&cache), vec![(2, 21), (3, 30), (1, 10)]);
}

#[test]
fn delete_head_and_tail() {
    let mut cache: SieveCache<u64, u64> = SieveCache::new(3).unwrap();
    cache.add(1, 10).unwrap();
    cache.add(2, 20).unwrap();
    cache.add(3, 30).unwrap();
    assert!(cache.delete(&3).unwrap());
    assert_eq!(keys_in_order(&cache), vec![2, 1]);
    assert!(cache.delete(&1).unwrap());
    assert_eq!(keys_in_order(&cache), vec![2]);
    assert!(cache.delete(&2).unwrap());
    assert!(keys_in_order(&cache).is_empty());
    assert!(cache.is_empty());
    cache.add(4, 40).unwrap();
    assert_eq!(keys_in_order(&cache), vec![4]);
}

#[test]
fn purge_keeps_stats_and_capacity() {
    let mut cache: SieveCache<u64, u64> = SieveCache::new(2).unwrap();
    cache.add(1, 10).unwrap();
    cache.add(2, 20).unwrap();
    cache.get(&1).unwrap();
    cache.get(&1).unwrap();
    cache.get(&9).unwrap();
    cache.purge();
    assert_eq!(cache.len(), 0);
    assert!(cache.is_empty());
    assert_eq!(cache.capacity(), 2);
    assert_eq!(cache.get_stats().hits, 2);
    assert_eq!(cache.get_stats().misses, 1);
    assert!(keys_in_order(&cache).is_empty());
    assert_eq!(cache.get(&1).unwrap(), None);
    assert_eq!(cache.get(&2).unwrap(), None);
    assert_eq!(cache.get_stats().hits, 2);
    assert_eq!(cache.get_stats().misses, 3);
}

#[test]
fn purge_unsets_the_hand() {
    let mut cache: SieveCache<u64, u64> = SieveCache::new(3).unwrap();
    cache.add(1, 10).unwrap();
    cache.add(2, 20).unwrap();
    cache.add(3, 30).unwrap();
    cache.get(&1).unwrap();
    cache.add(4, 40).unwrap();
    cache.purge();
    cache.add(5, 50).unwrap();
    cache.add(6, 60).unwrap();
    cache.add(7, 70).unwrap();
    cache.add(8, 80).unwrap();
    // The sweep starts at the tail again.
    assert_eq!(keys_in_order(&cache), vec![8, 7, 6]);
}

#[test]
fn stats_count_hits_and_misses() {
    let mut cache: SieveCache<u64, u64> = SieveCache::new(2).unwrap();
    cache.add(1, 10).unwrap();
    cache.get(&1).unwrap();
    cache.get(&2).unwrap();
    cache.get(&1).unwrap();
    cache.get(&1).unwrap();
    assert_eq!(cache.get_stats().hits, 3);
    assert_eq!(cache.get_stats().misses, 1);
    assert_eq!(cache.hit_rate_percent(), 75);
}

#[test]
fn usage_percent_rounds_down() {
    let mut cache: SieveCache<u64, u64> = SieveCache::new(3).unwrap();
    cache.add(1, 10).unwrap();
    assert_eq!(cache.usage_percent(), 33);
    cache.add(2, 20).unwrap();
    assert_eq!(cache.usage_percent(), 66);
    cache.add(3, 30).unwrap();
    assert_eq!(cache.usage_percent(), 100);
}

#[test]
fn hit_rate_percent_rounds_down() {
    let mut cache: SieveCache<u64, u64> = SieveCache::new(3).unwrap();
    cache.add(1, 10).unwrap();
    cache.get(&1).unwrap();
    cache.get(&2).unwrap();
    cache.get(&3).unwrap();
    assert_eq!(cache.hit_rate_percent(), 33);
}

#[test]
fn evict_on_empty_cache_does_nothing() {
    let mut cache: SieveCache<u64, u64> = SieveCache::new(2).unwrap();
    cache.evict().unwrap();
    assert_eq!(cache.len(), 0);
    assert_eq!(cache.sweep(), 0);
    cache.add(1, 10).unwrap();
    assert_eq!(keys_in_order(&cache), vec![1]);
}

#[test]
fn evict_removes_oldest_unvisited() {
    let mut cache: SieveCache<u64, u64> = SieveCache::new(4).unwrap();
    cache.add(1, 10).unwrap();
    cache.add(2, 20).unwrap();
    cache.add(3, 30).unwrap();
    cache.evict().unwrap();
    assert_eq!(keys_in_order(&cache), vec![3, 2]);
    assert_eq!(cache.len(), 2);
}

#[test]
fn evict_in_capacity_one() {
    let mut cache: SieveCache<u64, u64> = SieveCache::new(1).unwrap();
    cache.add(1, 10).unwrap();
    cache.get(&1).unwrap();
    cache.add(2, 20).unwrap();
    assert_eq!(entries_in_order(&cache), vec![(2, 20)]);
    cache.add(3, 30).unwrap();
    assert_eq!(entries_in_order(&cache), vec![(3, 30)]);
    assert_eq!(cache.len(), 1);
}

#[test]
fn sweep_clears_every_bit_when_all_are_visited() {
    let mut cache: SieveCache<u64, u64> = SieveCache::new(3).unwrap();
    cache.add(1, 10).unwrap();
    cache.add(2, 20).unwrap();
    cache.add(3, 30).unwrap();
    cache.get(&1).unwrap();
    cache.get(&2).unwrap();
    cache.get(&3).unwrap();
    // One full round, then the hand is back on the tail.
    assert_eq!(cache.sweep(), 3);
    assert_eq!(cache.len(), 3);
    // Every bit is clear now: the next sweep stops at once.
    assert_eq!(cache.sweep(), 0);
    cache.evict().unwrap();
    assert_eq!(keys_in_order(&cache), vec![3, 2]);
}

#[test]
fn sweep_stays_within_its_bound() {
    for visited in 0..16u64 {
        let mut cache: SieveCache<u64, u64> = SieveCache::new(4).unwrap();
        for key in 0..4u64 {
            cache.add(key, key).unwrap();
        }
        for key in 0..4u64 {
            if visited & (1 << key) != 0 {
                cache.get(&key).unwrap();
            }
        }
        let cleared = cache.sweep();
        let inspections = cleared + 1;
        assert!(cleared <= cache.len());
        assert!(inspections <= 2 * cache.len());
        // Key 0 is the tail; the hand passes the visited keys below the
        // first unvisited one.
        let expected = (0..4u64).take_while(|key| visited & (1 << key) != 0).count();
        assert_eq!(cleared, expected);
    }
}

#[test]
fn sweep_passes_visited_entries() {
    let mut cache: SieveCache<u64, u64> = SieveCache::new(3).unwrap();
    cache.add(1, 10).unwrap();
    cache.add(2, 20).unwrap();
    cache.add(3, 30).unwrap();
    cache.get(&1).unwrap();
    assert_eq!(cache.sweep(), 1);
    cache.evict().unwrap();
    assert_eq!(keys_in_order(&cache), vec![3, 1]);
}

#[test]
fn hand_keeps_its_place_between_evictions() {
    let mut cache: SieveCache<u64, u64> = SieveCache::new(3).unwrap();
    cache.add(1, 10).unwrap();
    cache.add(2, 20).unwrap();
    cache.add(3, 30).unwrap();
    cache.get(&1).unwrap();
    // The hand passes 1, removes 2 and rests on 3.
    cache.add(4, 40).unwrap();
    assert_eq!(keys_in_order(&cache), vec![4, 3, 1]);
    // It goes on from 3, although 1 is older and unvisited by now.
    cache.add(5, 50).unwrap();
    assert_eq!(keys_in_order(&cache), vec![5, 4, 1]);
    // It rests on 4 now.
    cache.add(6, 60).unwrap();
    assert_eq!(keys_in_order(&cache), vec![6, 5, 1]);
}

#[test]
fn hand_restarts_at_tail_after_evicting_head() {
    let mut cache: SieveCache<u64, u64> = SieveCache::new(2).unwrap();
    cache.add(1, 10).unwrap();
    cache.add(2, 20).unwrap();
    cache.get(&1).unwrap();
    // The hand passes 1 and removes 2, the head: it is unset again.
    cache.add(3, 30).unwrap();
    assert_eq!(keys_in_order(&cache), vec![3, 1]);
    // The next sweep starts at the tail.
    cache.add(4, 40).unwrap();
    assert_eq!(keys_in_order(&cache), vec![4, 3]);
}

#[test]
fn deleting_the_entry_under_the_hand_moves_the_hand_headward() {
    let mut cache: SieveCache<u64, u64> = SieveCache::new(3).unwrap();
    cache.add(1, 10).unwrap();
    cache.add(2, 20).unwrap();
    cache.add(3, 30).unwrap();
    cache.get(&1).unwrap();
    // The hand passes 1, removes 2 and rests on 3.
    cache.add(4, 40).unwrap();
    assert_eq!(keys_in_order(&cache), vec![4, 3, 1]);
    assert!(cache.delete(&3).unwrap());
    assert_eq!(keys_in_order(&cache), vec![4, 1]);
    cache.add(5, 50).unwrap();
    assert_eq!(keys_in_order(&cache), vec![5, 4, 1]);
    // The hand rests on 4, so 4 leaves and not the older 1.
    cache.add(6, 60).unwrap();
    assert_eq!(keys_in_order(&cache), vec![6, 5, 1]);
}

#[test]
fn deleting_elsewhere_leaves_the_hand() {
    let mut cache: SieveCache<u64, u64> = SieveCache::new(4).unwrap();
    for key in 1..=4u64 {
        cache.add(key, key).unwrap();
    }
    cache.get(&1).unwrap();
    // The hand passes 1, removes 2 and rests on 3.
    cache.add(5, 5).unwrap();
    assert_eq!(keys_in_order(&cache), vec![5, 4, 3, 1]);
    assert!(cache.delete(&1).unwrap());
    assert!(cache.delete(&5).unwrap());
    assert_eq!(keys_in_order(&cache), vec![4, 3]);
    cache.evict().unwrap();
    assert_eq!(keys_in_order(&cache), vec![4]);
}

#[test]
fn slots_are_reused_after_removal() {
    let mut cache: SieveCache<u64, u64> = SieveCache::new(2).unwrap();
    for key in 0..100u64 {
        cache.add(key, key * 2).unwrap();
        assert_eq!(cache.get(&key).unwrap(), Some(key * 2));
        assert!(cache.len() <= 2);
    }
    assert_eq!(cache.len(), 2);
}

#[test]
fn string_keys_and_values() {
    let mut cache: SieveCache<String, String> = SieveCache::new(2).unwrap();
    cache.add(String::from("a"), String::from("alpha")).unwrap();
    cache.add(String::from("b"), String::from("beta")).unwrap();
    cache.get(&String::from("a")).unwrap();
    cache.add(String::from("c"), String::from("gamma")).unwrap();
    let mut it = cache.iter();
    assert_eq!(it.next(), Some((String::from("c"), String::from("gamma"))));
    assert_eq!(it.next(), Some((String::from("a"), String::from("alpha"))));
    assert_eq!(it.next(), None);
}
