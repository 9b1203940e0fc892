use enumoid::EnumMap;
use enumoid::EnumOptionMap;
use enumoid::EnumOptionMapIter;
use enumoid::EnumSize;
use enumoid::EnumVec;
use enumoid::Enumoid;

#[derive(Debug, Clone, Copy, PartialEq, Eq, Hash)]
enum Three {
    A,
    B,
    C,
}

impl Enumoid for Three {
    type Word = u8;
    const SIZE: usize = 3;
    const FIRST: Self = Three::A;
    const LAST: Self = Three::C;

    fn size_word() -> u8 {
        3
    }

    fn into_word(self) -> u8 {
        self as u8
    }

    fn from_word_unchecked(value: u8) -> Self {
        match value {
            0 => Three::A,
            1 => Three::B,
            _ => Three::C,
        }
    }
}

#[test]
fn opt_map_test_empty_state() {
    let map = EnumOptionMap::<Three, u16>::new();
    assert!(map.is_empty(), "Expected new map to be empty");
    assert!(!map.is_full(), "Expected new map to not be full");
    assert_eq!(map.count(), 0, "Expected new map to have count of 0");
    assert_eq!(map.is_vec(), EnumSize::from_usize(0));
    assert_eq!(map.get(Three::A), None);
    assert_eq!(map.get(Three::B), None);
    assert_eq!(map.get(Three::C), None);
    assert!(!map.contains(Three::A));
    assert!(!map.contains(Three::B));
    assert!(!map.contains(Three::C));
}

#[test]
fn test_set_and_get() {
    let mut map = EnumOptionMap::<Three, u16>::new();
    let old_value = map.set(Three::B, Some(200));
    assert_eq!(old_value, None);
    assert!(!map.is_empty());
    assert_eq!(map.count(), 1);
    assert_eq!(map.get(Three::B), Some(&200));
    assert_eq!(map.get(Three::A), None);
    assert_eq!(map.get(Three::C), None);
    let old_value = map.set(Three::B, Some(300));
    assert_eq!(old_value, Some(200));
    assert_eq!(map.get(Three::B), Some(&300));
    assert_eq!(map.count(), 1);
    let old_value = map.set(Three::B, None);
    assert_eq!(old_value, Some(300));
    assert_eq!(map.get(Three::B), None);
    assert!(map.is_empty());
    assert_eq!(map.count(), 0);
}

#[test]
fn test_insert_and_remove() {
    let mut map = EnumOptionMap::<Three, i32>::new();
    let old_value = map.insert(Three::A, 100);
    assert_eq!(old_value, None);
    assert_eq!(map.get(Three::A), Some(&100));
    assert_eq!(map.count(), 1, "Expected count to be 1 after insert");
    let old_value = map.insert(Three::A, 200);
    assert_eq!(old_value, Some(100));
    assert_eq!(map.get(Three::A), Some(&200));
    assert_eq!(map.count(), 1);
    let removed_value = map.remove(Three::A);
    assert_eq!(removed_value, Some(200));
    assert_eq!(map.get(Three::A), None);
    assert_eq!(map.count(), 0, "Expected count to be 0 after removal");
    assert!(map.is_empty());
    let removed_value = map.remove(Three::B);
    assert_eq!(removed_value, None);
}

#[test]
fn test_insert_remove_by_index() {
    let mut map = EnumOptionMap::<Three, i32>::new();
    let old_value = map.insert_by_index(Three::A.into(), 42);
    assert_eq!(old_value, None);
    assert_eq!(map.get_by_index(Three::A.into()), Some(&42));
    let removed_value = map.remove_by_index(Three::A.into());
    assert_eq!(removed_value, Some(42));
    assert_eq!(map.get_by_index(Three::A.into()), None);
    let removed_value = map.remove_by_index(Three::B.into());
    assert_eq!(removed_value, None);
}

#[test]
fn opt_map_test_clear() {
    let mut map = EnumOptionMap::<Three, i32>::new();
    map.insert(Three::A, 10);
    map.insert(Three::B, 20);
    map.insert(Three::C, 30);
    assert!(!map.is_empty(), "Expected map to not be empty before clear");
    assert_eq!(map.count(), 3, "Expected count to be 3 before clear");
    map.clear();
    assert!(map.is_empty(), "Expected map to be empty after clear");
    assert_eq!(map.count(), 0, "Expected count to be 0 after clear");
    assert_eq!(map.get(Three::A), None);
    assert_eq!(map.get(Three::B), None);
    assert_eq!(map.get(Three::C), None);
}

#[test]
fn opt_map_test_contains() {
    let mut map = EnumOptionMap::<Three, i32>::new();
    assert!(!map.contains(Three::A));
    assert!(!map.contains(Three::B));
    assert!(!map.contains(Three::C));
    map.insert(Three::B, 100);
    assert!(!map.contains(Three::A));
    assert!(map.contains(Three::B), "Expected map to contain Three::B");
    assert!(!map.contains(Three::C));
    assert!(!map.contains_index(Three::A.into()));
    assert!(map.contains_index(Three::B.into()));
    assert!(!map.contains_index(Three::C.into()));
}

#[test]
fn test_keys() {
    let mut map = EnumOptionMap::<Three, i32>::new();
    let keys = map.keys();
    assert!(!keys.contains(Three::A));
    assert!(!keys.contains(Three::B));
    assert!(!keys.contains(Three::C));
    map.insert(Three::A, 10);
    map.insert(Three::C, 30);
    let keys = map.keys();
    assert!(keys.contains(Three::A), "Expected keys to contain Three::A");
    assert!(!keys.contains(Three::B));
    assert!(keys.contains(Three::C), "Expected keys to contain Three::C");
}

#[test]
fn test_full_state() {
    let mut map = EnumOptionMap::<Three, i32>::new();
    assert!(!map.is_full(), "Expected map to not be full initially");
    map.insert(Three::A, 10);
    assert!(!map.is_full());
    map.insert(Three::B, 20);
    assert!(!map.is_full());
    map.insert(Three::C, 30);
    assert!(map.is_full(), "Expected map to be full with 3/3 values");
    map.remove(Three::B);
    assert!(!map.is_full());
}

#[test]
fn test_is_vec() {
    let mut map = EnumOptionMap::<Three, i32>::new();
    assert_eq!(map.is_vec(), EnumSize::from_usize(0));
    map.insert(Three::A, 10);
    assert_eq!(map.is_vec(), EnumSize::from_usize(1));
    map.insert(Three::B, 20);
    assert_eq!(map.is_vec(), EnumSize::from_usize(2));
    map.insert(Three::C, 30);
    assert_eq!(map.is_vec(), EnumSize::from_usize(3));
    map.remove(Three::B);
    assert_eq!(map.is_vec(), None);
    map.remove(Three::A);
    assert_eq!(map.is_vec(), None);
}

#[test]
fn opt_map_test_mutable_get() {
    let mut map = EnumOptionMap::<Three, i32>::new();
    assert_eq!(map.get_mut(Three::A), None);
    map.insert(Three::A, 100);
    let value_mut = map
        .get_mut(Three::A)
        .expect("Expected get_mut to return Some for existing key");
    *value_mut += 50;
    assert_eq!(map.get(Three::A), Some(&150));
    let value_mut = map
        .get_by_index_mut(Three::A.into())
        .expect("Expected get_by_index_mut to return Some for existing key");
    *value_mut *= 2;
    assert_eq!(map.get(Three::A), Some(&300));
}

#[test]
fn test_iteration_present_elements() {
    let mut map = EnumOptionMap::<Three, i32>::new();
    assert_eq!(map.iter(), vec![], "Expected empty iteration for empty map");
    map.insert(Three::A, 10);
    map.insert(Three::C, 30);
    assert_eq!(map.iter(), vec![(Three::A, &10), (Three::C, &30)]);
    for key in Three::iter() {
        if let Some(value) = map.get_mut(key) {
            *value *= 10;
        }
    }
    assert_eq!(map.iter(), vec![(Three::A, &100), (Three::C, &300)]);
}

#[test]
fn opt_map_test_iterator_single_element() {
    let mut map = EnumOptionMap::<Three, i32>::new();
    map.insert(Three::B, 42);
    assert_eq!(map.iter(), vec![(Three::B, &42)]);
}

#[test]
fn test_swap_present_with_present() {
    let mut map = EnumOptionMap::<Three, i32>::new();
    map.insert(Three::A, 10);
    map.insert(Three::C, 30);
    map.swap(Three::A, Three::C);
    assert_eq!(map.get(Three::A), Some(&30));
    assert_eq!(map.get(Three::C), Some(&10));
    assert_eq!(map.count(), 2, "Expected count to remain 2 after swap");
}

#[test]
fn test_swap_by_index_present_with_present() {
    let mut map = EnumOptionMap::<Three, i32>::new();
    map.insert(Three::A, 15);
    map.insert(Three::B, 25);
    map.swap_by_index(Three::A.into(), Three::B.into());
    assert_eq!(map.get(Three::A), Some(&25));
    assert_eq!(map.get(Three::B), Some(&15));
    assert_eq!(map.count(), 2);
}

#[test]
fn opt_map_swap_moves_value_to_absent_key() {
    let mut map = EnumOptionMap::<Three, i32>::new();
    map.insert(Three::A, 100);
    map.swap(Three::A, Three::B);
    assert_eq!(map.get(Three::A), None);
    assert_eq!(map.get(Three::B), Some(&100));
    assert_eq!(map.count(), 1);
    assert_eq!(map.keys().iter(), vec![Three::B]);
    map.swap_by_index(Three::C.into(), Three::B.into());
    assert_eq!(map.get(Three::B), None);
    assert_eq!(map.get(Three::C), Some(&100));
    map.swap(Three::A, Three::B);
    assert!(!map.contains(Three::A));
    assert!(!map.contains(Three::B));
    assert_eq!(map.count(), 1);
}

#[test]
fn opt_map_scenario_is_vec_gaps() {
    let mut map = EnumOptionMap::<Three, i32>::new();
    map.insert(Three::A, 10);
    map.insert(Three::C, 30);
    assert_eq!(map.is_vec(), None);
    map.insert(Three::B, 20);
    assert_eq!(map.is_vec(), EnumSize::from_usize(3));
    map.remove(Three::A);
    assert_eq!(map.is_vec(), None);
}

#[test]
fn opt_map_converts_to_map_when_full() {
    let mut map = EnumOptionMap::<Three, i32>::new();
    map.insert(Three::A, 1);
    map.insert(Three::B, 2);
    assert!(EnumMap::try_from(map).is_err());
    let mut full = EnumOptionMap::<Three, i32>::new();
    full.insert(Three::C, 3);
    full.insert(Three::A, 1);
    full.insert(Three::B, 2);
    let dense = EnumMap::try_from(full).unwrap();
    assert_eq!(dense.as_slice(), &[1, 2, 3]);
}

#[test]
fn opt_map_converts_to_vec_when_prefix() {
    let mut map = EnumOptionMap::<Three, i32>::new();
    map.insert(Three::A, 1);
    map.insert(Three::B, 2);
    let vec = EnumVec::try_from(map).unwrap();
    assert_eq!(vec.as_slice(), &[1, 2]);
    assert_eq!(vec.size(), EnumSize::from_last_value(Three::B));
    let mut gap = EnumOptionMap::<Three, i32>::new();
    gap.insert(Three::B, 2);
    assert!(EnumVec::try_from(gap).is_err());
    let empty = EnumOptionMap::<Three, i32>::new();
    assert!(EnumVec::try_from(empty).unwrap().is_empty());
}

#[test]
fn opt_map_replacing_drops_old_value_once() {
    let mut map = EnumOptionMap::<Three, String>::new();
    map.insert(Three::A, String::from("first"));
    let old = map.insert(Three::A, String::from("second"));
    assert_eq!(old, Some(String::from("first")));
    assert_eq!(map.get(Three::A), Some(&String::from("second")));
    assert_eq!(map.remove(Three::A), Some(String::from("second")));
    assert_eq!(map.get(Three::A), None);
}

#[test]
fn opt_map_test_iterator_exact_size_and_double_ended() {
    let mut map = EnumOptionMap::<Three, i32>::new();
    map.insert(Three::A, 10);
    map.insert(Three::C, 30);
    let mut iter = EnumOptionMapIter::new(&map);
    assert_eq!(iter.size_hint().0, 2);
    iter.next();
    assert_eq!(iter.next(), Some((Three::C, &30)));
    assert_eq!(map.iter().len(), 2, "Expected iterator count to be 2");
    let empty_map = EnumOptionMap::<Three, i32>::new();
    assert_eq!(EnumOptionMapIter::new(&empty_map).size_hint().0, 0);
}

#[test]
fn opt_map_test_iterator_partial_consumption() {
    let mut map = EnumOptionMap::<Three, i32>::new();
    map.insert(Three::A, 10);
    map.insert(Three::B, 20);
    map.insert(Three::C, 30);
    let mut iter = EnumOptionMapIter::new(&map);
    assert_eq!(iter.next(), Some((Three::A, &10)), "Expected first element");
    let mut remaining = Vec::new();
    while let Some(entry) = iter.next() {
        remaining.push(entry);
    }
    assert_eq!(remaining, vec![(Three::B, &20), (Three::C, &30)]);
}

#[test]
fn opt_map_iterator_single_element_then_exhausted() {
    let mut map = EnumOptionMap::<Three, i32>::new();
    map.insert(Three::B, 42);
    let mut iter = EnumOptionMapIter::new(&map);
    assert_eq!(iter.next(), Some((Three::B, &42)));
    assert_eq!(iter.next(), None, "Expected iterator to be exhausted");
}

#[test]
fn opt_map_from_entries_replays_inserts() {
    let map = EnumOptionMap::<Three, i32>::from_entries(vec![
        (Three::A, 1),
        (Three::C, 3),
        (Three::A, 5),
    ]);
    assert_eq!(map.get(Three::A), Some(&5));
    assert_eq!(map.get(Three::B), None);
    assert_eq!(map.get(Three::C), Some(&3));
    assert_eq!(map.count(), 2);
}

#[test]
fn decoded_dense_map_needs_every_key() {
    let short = EnumOptionMap::<Three, i32>::from_entries(vec![(Three::A, 1), (Three::B, 2)]);
    assert!(EnumMap::try_from(short).is_err());
    let whole = EnumOptionMap::<Three, i32>::from_entries(vec![
        (Three::C, 3),
        (Three::B, 2),
        (Three::A, 1),
    ]);
    assert_eq!(EnumMap::try_from(whole).unwrap().as_slice(), &[1, 2, 3]);
    let prefix = EnumOptionMap::<Three, i32>::from_entries(vec![(Three::B, 2), (Three::A, 1)]);
    assert_eq!(EnumVec::try_from(prefix).unwrap().as_slice(), &[1, 2]);
    let gap = EnumOptionMap::<Three, i32>::from_entries(vec![(Three::C, 3)]);
    assert!(EnumVec::try_from(gap).is_err());
}

#[test]
fn containers_compare_and_hash_by_contents() {
    let mut a = EnumOptionMap::<Three, i32>::new();
    let mut b = EnumOptionMap::<Three, i32>::new();
    a.insert(Three::B, 2);
    assert_ne!(a, b);
    b.insert(Three::B, 2);
    assert_eq!(a, b);
    b.insert(Three::C, 3);
    b.remove(Three::C);
    assert_eq!(a, b);
    let mut seen = std::collections::HashSet::new();
    seen.insert(a);
    assert!(seen.contains(&b));
    let m1 = EnumMap::<Three, i32>::new_with(|k| k as i32);
    let m2 = EnumMap::<Three, i32>::new_with(|k| k as i32);
    assert_eq!(m1, m2);
    let v1 = EnumVec::<Three, i32>::from_iter(vec![1, 2]);
    let mut v2 = EnumVec::<Three, i32>::from_iter(vec![1, 2, 3]);
    assert_ne!(v1, v2);
    v2.pop();
    assert_eq!(v1, v2);
}
