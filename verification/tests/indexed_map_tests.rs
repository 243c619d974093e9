use sudokugen::indexed_map::IndexedMap;

#[test]
fn insert() {
    let mut map: IndexedMap<usize, ()> = IndexedMap::new(1);
    let old = map.insert(0, ());
    assert_eq!(old, None);
    assert_eq!(map.get(&0), Some(&()));
}

#[test]
fn remove() {
    let mut map: IndexedMap<usize, ()> = IndexedMap::new(1);
    map.insert(0, ());

    assert_eq!(map.remove(&0), Some(()));
    assert_eq!(map.get(&0), None);
}

#[test]
fn is_empty() {
    let mut map: IndexedMap<usize, ()> = IndexedMap::new(1);

    assert!(map.is_empty());
    map.insert(0, ());
    assert!(!map.is_empty());
}

#[test]
fn keys() {
    let mut map: IndexedMap<usize, i32> = IndexedMap::new(4);
    map.insert(0, 0_i32);
    map.insert(3, 1_i32);

    assert_eq!(map.keys(), vec![0, 3]);
}

#[test]
fn get() {
    let mut map: IndexedMap<usize, ()> = IndexedMap::new(1);
    map.insert(0, ());
    assert_eq!(map.get(&0), Some(&()));
}

#[test]
fn get_mut() {
    let mut map: IndexedMap<usize, i32> = IndexedMap::new(1);
    map.insert(0, 0);

    let val = map.get_mut(&0).unwrap();
    assert_eq!(val, &0);
    *val = 1;
    assert_eq!(map.get(&0), Some(&1));
}

#[test]
fn iter() {
    let mut map: IndexedMap<usize, i32> = IndexedMap::new(2);
    map.insert(0, 0_i32);
    map.insert(1, 1_i32);

    assert_eq!(map.iter(), vec![(0, 0), (1, 1)]);
}
