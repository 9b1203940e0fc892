use enumoid::EnumMap;
use enumoid::EnumSliceIter;
use enumoid::Enumoid;

#[derive(Debug, Clone, Copy, PartialEq)]
enum Three {
    A,
    B,
    C,
}

impl Enumoid for Three {
    type Word = u8;
    const SIZE: usize = 3;
    const FIRST: Self = Three::A;
    const LAST: Self = Three::C;

    fn size_word() -> u8 {
        3
    }

    fn into_word(self) -> u8 {
        self as u8
    }

    fn from_word_unchecked(value: u8) -> Self {
        match value {
            0 => Three::A,
            1 => Three::B,
            _ => Three::C,
        }
    }
}

fn filled(a: u16, b: u16, c: u16) -> EnumMap<Three, u16> {
    let mut map = EnumMap::<Three, u16>::new();
    *map.get_mut(Three::A) = a;
    *map.get_mut(Three::B) = b;
    *map.get_mut(Three::C) = c;
    map
}

#[test]
fn map_test_empty_state() {
    let map = EnumMap::<Three, u16>::new();
    assert_eq!(*map.get(Three::A), 0, "Expected default value for Three::A");
    assert_eq!(*map.get(Three::B), 0, "Expected default value for Three::B");
    assert_eq!(*map.get(Three::C), 0, "Expected default value for Three::C");
    assert_eq!(map.iter(), vec![(Three::A, &0), (Three::B, &0), (Three::C, &0)]);
}

#[test]
fn test_index_assignment() {
    let mut map = EnumMap::<Three, u16>::new();
    *map.get_mut(Three::B) = 200;
    assert_eq!(*map.get(Three::B), 200, "Expected value after index assignment");
    assert_eq!(*map.get(Three::A), 0, "Expected unchanged default value");
    assert_eq!(*map.get(Three::C), 0, "Expected unchanged default value");
}

#[test]
fn map_test_mutable_get() {
    let mut map = EnumMap::<Three, u16>::new();
    *map.get_mut(Three::C) += 1;
    assert_eq!(*map.get(Three::C), 1, "Expected value after mutable reference modification");
    assert_eq!(*map.get(Three::A), 0, "Expected unchanged default value");
    assert_eq!(*map.get(Three::B), 0, "Expected unchanged default value");
}

#[test]
fn test_iteration_all_elements() {
    let map = filled(10, 20, 30);
    assert_eq!(
        map.iter(),
        vec![(Three::A, &10), (Three::B, &20), (Three::C, &30)],
        "Expected iteration to yield all key-value pairs in order"
    );
}

#[test]
fn test_mutable_iteration() {
    let mut map = filled(10, 20, 30);
    for key in Three::iter() {
        *map.get_mut(key) *= 2;
    }
    assert_eq!(
        map.iter(),
        vec![(Three::A, &20), (Three::B, &40), (Three::C, &60)],
        "Expected values to be modified through iter_mut()"
    );
}

#[test]
fn test_set_methods() {
    let mut map = EnumMap::<Three, i32>::new();
    let old_value = map.set(Three::A, 42);
    assert_eq!(old_value, 0, "Expected set() to return old default value");
    assert_eq!(*map.get(Three::A), 42, "Expected new value after set()");
    let old_value = map.set(Three::A, 100);
    assert_eq!(old_value, 42, "Expected set() to return previous value");
    assert_eq!(*map.get(Three::A), 100);
    let old_value = map.set_by_index(Three::B.into(), 200);
    assert_eq!(old_value, 0);
    assert_eq!(*map.get(Three::B), 200);
}

#[test]
fn map_test_new_with_constructor() {
    let map = EnumMap::<Three, i32>::new_with(|variant| match variant {
        Three::A => 10,
        Three::B => 20,
        Three::C => 30,
    });
    assert_eq!(*map.get(Three::A), 10, "Expected custom value for Three::A");
    assert_eq!(*map.get(Three::B), 20, "Expected custom value for Three::B");
    assert_eq!(*map.get(Three::C), 30, "Expected custom value for Three::C");
}

#[test]
fn test_swap_methods() {
    let mut map = EnumMap::<Three, i32>::new_with(|variant| match variant {
        Three::A => 1,
        Three::B => 2,
        Three::C => 3,
    });
    map.swap(Three::A, Three::C);
    assert_eq!(*map.get(Three::A), 3, "Expected swapped value for Three::A");
    assert_eq!(*map.get(Three::C), 1, "Expected swapped value for Three::C");
    assert_eq!(*map.get(Three::B), 2);
    map.swap_by_index(Three::A.into(), Three::B.into());
    assert_eq!(*map.get(Three::A), 2);
    assert_eq!(*map.get(Three::B), 3);
}

#[test]
fn map_test_slice_access() {
    let mut map = EnumMap::<Three, i32>::new_with(|variant| match variant {
        Three::A => 10,
        Three::B => 20,
        Three::C => 30,
    });
    let slice = map.as_slice();
    assert_eq!(slice, &[10, 20, 30]);
    let slice_mut = map.as_slice_mut();
    slice_mut[1] = 99;
    assert_eq!(*map.get(Three::B), 99);
}

#[test]
fn test_get_by_index() {
    let map = EnumMap::<Three, i32>::new_with(|variant| match variant {
        Three::A => 100,
        Three::B => 200,
        Three::C => 300,
    });
    assert_eq!(*map.get_by_index(Three::A.into()), 100);
    assert_eq!(*map.get_by_index(Three::B.into()), 200);
    assert_eq!(*map.get_by_index(Three::C.into()), 300);
}

#[test]
fn test_get_by_index_mut() {
    let mut map = EnumMap::<Three, i32>::new_with(|variant| match variant {
        Three::A => 100,
        Three::B => 200,
        Three::C => 300,
    });
    *map.get_by_index_mut(Three::B.into()) += 50;
    assert_eq!(*map.get_by_index(Three::B.into()), 250);
    assert_eq!(*map.get_by_index(Three::A.into()), 100);
    assert_eq!(*map.get_by_index(Three::C.into()), 300);
}

#[test]
fn map_swap_same_key_keeps_values() {
    let mut map = filled(1, 2, 3);
    map.swap(Three::B, Three::B);
    assert_eq!(map.as_slice(), &[1, 2, 3]);
}

#[test]
fn map_clone_is_independent() {
    let map = filled(4, 5, 6);
    let mut copy = map.clone();
    copy.set(Three::A, 40);
    assert_eq!(map.as_slice(), &[4, 5, 6]);
    assert_eq!(copy.as_slice(), &[40, 5, 6]);
    let d = EnumMap::<Three, u16>::default();
    assert_eq!(d.as_slice(), &[0, 0, 0]);
}

#[test]
fn test_iterator_exact_size() {
    let map = filled(10, 20, 30);
    let iter = EnumSliceIter::<Three, u16>::new(map.as_slice());
    assert_eq!(iter.len(), 3, "Expected iterator length to be 3");
    assert_eq!(iter.size_hint(), (3, Some(3)), "Expected correct size hint");
    assert_eq!(map.iter().len(), 3, "Expected iterator count to be 3");
}

#[test]
fn test_iterator_nth() {
    let map = filled(10, 20, 30);
    let mut iter = EnumSliceIter::<Three, u16>::new(map.as_slice());
    iter.next();
    assert_eq!(iter.next(), Some((Three::B, &20)));
    assert_eq!(iter.len(), 1);
}

#[test]
fn test_iterator_double_ended() {
    let map = filled(10, 20, 30);
    let mut iter = EnumSliceIter::<Three, u16>::new(map.as_slice());
    assert_eq!(iter.next_back(), Some((Three::C, &30)));
    assert_eq!(iter.next_back(), Some((Three::B, &20)));
    assert_eq!(iter.next(), Some((Three::A, &10)));
    assert_eq!(iter.next(), None, "Expected iterator to be exhausted");
}

#[test]
fn map_new_with_calls_generator_once_per_key_in_order() {
    let calls = std::cell::Cell::new(0);
    let map = EnumMap::<Three, i32>::new_with(|_key| {
        let id = calls.get();
        calls.set(id + 1);
        id
    });
    assert_eq!(calls.get(), 3);
    assert_eq!(map.as_slice(), &[0, 1, 2]);
    let seen = std::cell::RefCell::new(Vec::new());
    let _ = EnumMap::<Three, u8>::new_with(|key| {
        seen.borrow_mut().push(key);
        0
    });
    assert_eq!(*seen.borrow(), vec![Three::A, Three::B, Three::C]);
}

#[test]
fn map_test_into_iterator() {
    let mut map = filled(10, 20, 30);
    let mut collected = Vec::new();
    let mut iter = EnumSliceIter::<Three, u16>::new(map.as_slice());
    while let Some(entry) = iter.next() {
        collected.push(entry);
    }
    assert_eq!(collected, vec![(Three::A, &10), (Three::B, &20), (Three::C, &30)]);
    let copied: Vec<_> = map.iter().into_iter().map(|(k, v)| (k, *v)).collect();
    assert_eq!(copied, vec![(Three::A, 10), (Three::B, 20), (Three::C, 30)]);
    let mut sum = 0;
    for (_, value) in map.iter() {
        sum += *value;
    }
    assert_eq!(sum, 60, "Expected for loop to sum all values");
    for key in Three::iter() {
        *map.get_mut(key) += 1;
    }
    assert_eq!(map.iter(), vec![(Three::A, &11), (Three::B, &21), (Three::C, &31)]);
}
