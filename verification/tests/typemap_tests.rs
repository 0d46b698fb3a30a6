use typemap::TypeMap;

struct Magi<T>(pub T);

struct Madoka {
    pub is_rei: bool,
}

struct Homura {
    pub attempts: usize,
}

struct Mami {
    pub guns: usize,
}

#[test]
fn test_mut() {
    let mut map = TypeMap::new();

    map.insert(String::from("Hello, "));

    map.get_mut::<String>().map(|v| v.push_str("world!")).unwrap();

    assert_eq!("Hello, world!", map.get::<String>().unwrap());
}

#[test]
fn test_remove() {
    let mut map = TypeMap::new();

    map.insert::<i8>(123);
    assert!(map.get::<i8>().is_some());

    map.remove::<i8>();
    assert!(!map.get::<i8>().is_some());
}

#[test]
fn test_clear() {
    let mut map = TypeMap::new();

    map.insert::<i8>(8);
    map.insert::<i16>(16);
    map.insert::<i32>(32);

    assert!(map.contains::<i8>());
    assert!(map.contains::<i16>());
    assert!(map.contains::<i32>());

    map.clear();

    assert!(!map.contains::<i8>());
    assert!(!map.contains::<i16>());
    assert!(!map.contains::<i32>());

    map.insert::<i8>(10);
    assert_eq!(*map.get::<i8>().unwrap(), 10);
}

#[test]
fn test_integers() {
    let mut map = TypeMap::new();

    map.insert::<i8>(8);
    assert!(map.get::<i8>().is_some());

    map.insert::<i16>(16);
    assert!(map.get::<i16>().is_some());

    map.insert::<i32>(32);
    assert!(map.get::<i32>().is_some());

    map.insert::<i64>(64);
    assert!(map.get::<i64>().is_some());

    map.insert::<i128>(128);
    assert!(map.get::<i128>().is_some());

    map.insert::<u8>(8);
    assert!(map.get::<i8>().is_some());

    map.insert::<u16>(16);
    assert!(map.get::<i16>().is_some());

    map.insert::<u32>(32);
    assert!(map.get::<i32>().is_some());

    map.insert::<u64>(64);
    assert!(map.get::<i64>().is_some());

    map.insert::<u128>(128);
    assert!(map.get::<i128>().is_some());
}

#[test]
fn test_composition() {
    let mut map = TypeMap::new();

    map.insert(Magi(Madoka { is_rei: false }));
    map.insert(Magi(Homura { attempts: 0 }));
    map.insert(Magi(Mami { guns: 999 }));

    assert_eq!(false, map.get::<Magi<Madoka>>().unwrap().0.is_rei);
    assert_eq!(0, map.get::<Magi<Homura>>().unwrap().0.attempts);
    assert_eq!(999, map.get::<Magi<Mami>>().unwrap().0.guns);
}

#[test]
fn fresh_store_is_empty() {
    let map = TypeMap::new();

    assert!(!map.contains::<u8>());
    assert!(!map.contains::<String>());
    assert!(map.get::<u8>().is_none());
    assert!(map.get::<String>().is_none());
}

#[test]
fn default_store_is_empty() {
    let map = TypeMap::default();

    assert!(!map.contains::<i32>());
    assert!(map.get::<i32>().is_none());
}

#[test]
fn last_insert_wins() {
    let mut map = TypeMap::new();

    map.insert::<u32>(1);
    map.insert::<u32>(2);

    assert_eq!(*map.get::<u32>().unwrap(), 2);
    assert_eq!(map.remove::<u32>(), Some(2));
    assert!(map.get::<u32>().is_none());
}

#[test]
fn insert_round_trip() {
    let mut map = TypeMap::new();

    map.insert::<i64>(-7);

    assert_eq!(*map.get::<i64>().unwrap(), -7);
}

#[test]
fn type_isolation() {
    let mut map = TypeMap::new();

    map.insert::<u8>(1);
    map.insert::<u16>(2);
    assert!(map.contains::<u8>());
    assert_eq!(*map.get::<u8>().unwrap(), 1);

    map.insert::<u16>(9);
    assert_eq!(*map.get::<u8>().unwrap(), 1);
    assert_eq!(*map.get::<u16>().unwrap(), 9);

    let _ = map.remove::<u16>();
    assert_eq!(*map.get::<u8>().unwrap(), 1);
    assert!(!map.contains::<u16>());
}

#[test]
fn generic_parameters_are_distinct() {
    let mut map = TypeMap::new();

    map.insert(Magi(5u8));
    assert!(!map.contains::<Magi<u16>>());

    map.insert(Magi(7u16));
    assert_eq!(5, map.get::<Magi<u8>>().unwrap().0);
    assert_eq!(7, map.get::<Magi<u16>>().unwrap().0);
}

#[test]
fn removal_returns_the_value() {
    let mut map = TypeMap::new();

    map.insert::<i8>(123);
    assert_eq!(map.get::<i8>().copied(), Some(123));
    assert_eq!(map.remove::<i8>(), Some(123));
    assert!(!map.contains::<i8>());
    assert!(map.get::<i8>().is_none());
    assert_eq!(map.remove::<i8>(), None);
}

#[test]
fn mutation_is_visible() {
    let mut map = TypeMap::new();

    map.insert::<u64>(10);
    if let Some(v) = map.get_mut::<u64>() {
        *v += 5;
    }

    assert_eq!(*map.get::<u64>().unwrap(), 15);
}

#[test]
fn get_mut_misses_on_absent_type() {
    let mut map = TypeMap::new();

    map.insert::<u8>(1);

    assert!(map.get_mut::<u32>().is_none());
    assert_eq!(*map.get::<u8>().unwrap(), 1);
}

#[test]
fn remove_on_empty_store() {
    let mut map = TypeMap::new();

    assert_eq!(map.remove::<String>(), None);
    assert!(!map.contains::<String>());
}
