use zero::linear_map::LinearMap;
use zero::Error;

#[test]
fn linear_map_new() {
    let _: LinearMap<&str, i32, 5> = LinearMap::new();
}

#[test]
fn linear_map_capacity() {
    let map: LinearMap<&str, i32, 5> = LinearMap::new();

    assert_eq!(map.capacity(), 5);
}

#[test]
fn linear_map_len() {
    let mut map: LinearMap<&str, i32, 5> = LinearMap::new();

    let _ = map.insert("k1", 11);

    assert_eq!(map.len(), 1);
}

#[test]
fn linear_map_is_empty() {
    let mut map: LinearMap<&str, i32, 5> = LinearMap::new();

    assert_eq!(map.is_empty(), true);

    let _ = map.insert("k1", 11);
    assert_eq!(map.is_empty(), false);
}

#[test]
fn linear_map_clear() {
    let mut map: LinearMap<&str, i32, 5> = LinearMap::new();
    let _ = map.insert("k1", 11);

    map.clear();

    assert_eq!(map.is_empty(), true);
}

#[test]
fn insert() {
    let mut map: LinearMap<&str, i32, 5> = LinearMap::new();

    let x = map.insert("k1", 1);

    assert_eq!(x, Ok(None));
    assert_eq!(map.len(), 1);

    let x = map.insert("k1", 2);

    assert_eq!(x, Ok(Some(1)));
    assert_eq!(map.len(), 1);
}

#[test]
fn contains_key() {
    let mut map: LinearMap<&str, i32, 5> = LinearMap::new();
    let _ = map.insert("k1", 1);

    assert_eq!(map.conatains_key(&"k1"), true);
    assert_eq!(map.conatains_key(&"k2"), false);
}

#[test]
fn get() {
    let mut map: LinearMap<&str, i32, 5> = LinearMap::new();

    let x = map.insert("k1", 10);

    assert_eq!(x, Ok(None));
    assert_eq!(map.len(), 1);

    assert_eq!(map.get(&"k1"), Some(&10));
}

#[test]
fn get_mut() {
    let mut map: LinearMap<&str, i32, 5> = LinearMap::new();

    let x = map.insert("k1", 10);

    assert_eq!(x, Ok(None));
    assert_eq!(map.len(), 1);

    let val = map.get_mut(&"k1").unwrap();
    *val += 20;

    assert_eq!(val, &mut 30);
    assert_eq!(map.get_mut(&"k1"), Some(&mut 30));
}

#[test]
fn keys() {
    let mut map: LinearMap<&str, i32, 5> = LinearMap::new();
    let _ = map.insert("k1", 1);
    let _ = map.insert("k2", 2);
    let _ = map.insert("k3", 3);

    let mut iter = map.keys();

    assert_eq!(iter.next(), Some(&"k1"));
    assert_eq!(iter.next(), Some(&"k2"));
    assert_eq!(iter.next(), Some(&"k3"));
    assert_eq!(iter.next(), None)
}

#[test]
fn values() {
    let mut map: LinearMap<&str, i32, 5> = LinearMap::new();
    let _ = map.insert("k1", 1);
    let _ = map.insert("k2", 2);
    let _ = map.insert("k3", 3);

    let mut iter = map.values();

    assert_eq!(iter.next(), Some(&1));
    assert_eq!(iter.next(), Some(&2));
    assert_eq!(iter.next(), Some(&3));
    assert_eq!(iter.next(), None)
}

#[test]
fn values_mut() {
    let mut map: LinearMap<&str, i32, 5> = LinearMap::new();
    let _ = map.insert("k1", 1);
    let _ = map.insert("k2", 2);
    let _ = map.insert("k3", 3);

    let mut iter = map.values_mut();
    while let Some(ele) = iter.next() {
        *ele *= 10;
    }

    let mut iter = map.values_mut();
    assert_eq!(iter.next(), Some(&mut 10));
    assert_eq!(iter.next(), Some(&mut 20));
    assert_eq!(iter.next(), Some(&mut 30));
    assert_eq!(iter.next(), None)
}

#[test]
fn remove() {
    let mut map: LinearMap<&str, i32, 5> = LinearMap::new();
    let _ = map.insert("k1", 1);
    let _ = map.insert("k2", 2);
    let _ = map.insert("k3", 3);

    map.remove("k2");

    let mut iter = map.keys();
    assert_eq!(iter.next(), Some(&"k1"));
    assert_eq!(iter.next(), Some(&"k3"));
    assert_eq!(iter.next(), None)
}

#[test]
fn index() {
    let mut map: LinearMap<&str, i32, 5> = LinearMap::new();
    let _ = map.insert("k1", 1);
    let _ = map.insert("k2", 2);
    let _ = map.insert("k3", 3);

    assert_eq!(*map.index(&"k1"), 1);
}

#[test]
fn index_mut() {
    let mut map: LinearMap<&str, i32, 5> = LinearMap::new();
    let _ = map.insert("k1", 1);
    let _ = map.insert("k2", 2);
    let _ = map.insert("k3", 3);

    *map.index_mut(&"k1") *= 10;

    assert_eq!(*map.index(&"k1"), 10);
}

#[test]
fn insert_into_full_map_is_refused() {
    let mut map: LinearMap<u64, u64, 2> = LinearMap::new();
    assert_eq!(map.insert(1, 10), Ok(None));
    assert_eq!(map.insert(2, 20), Ok(None));
    assert_eq!(map.insert(3, 30), Err(Error::Full));
    assert_eq!(map.len(), 2);
    assert_eq!(map.get(&3), None);
    // replacing the value of a present key still works when full
    assert_eq!(map.insert(2, 21), Ok(Some(20)));
    assert_eq!(map.get(&2), Some(&21));
}

#[test]
fn get_after_insert_and_remove() {
    let mut map: LinearMap<u64, u64, 4> = LinearMap::new();
    let _ = map.insert(7, 70);
    let _ = map.insert(8, 80);
    assert_eq!(map.get(&7), Some(&70));
    assert_eq!(map.remove(7), Some(70));
    assert_eq!(map.get(&7), None);
    assert_eq!(map.get(&8), Some(&80));
    assert_eq!(map.remove(7), None);
    assert_eq!(map.len(), 1);
}

#[test]
fn remove_moves_last_entry_into_place() {
    let mut map: LinearMap<u64, u64, 4> = LinearMap::new();
    let _ = map.insert(1, 10);
    let _ = map.insert(2, 20);
    let _ = map.insert(3, 30);
    let _ = map.insert(4, 40);
    assert_eq!(map.remove(1), Some(10));
    let mut iter = map.iter();
    assert_eq!(iter.next(), Some((&4, &40)));
    assert_eq!(iter.next(), Some((&2, &20)));
    assert_eq!(iter.next(), Some((&3, &30)));
    assert_eq!(iter.next(), None);
}

#[test]
fn iter_mut_changes_values_only() {
    let mut map: LinearMap<u64, u64, 4> = LinearMap::new();
    let _ = map.insert(1, 10);
    let _ = map.insert(2, 20);
    let mut iter = map.iter_mut();
    while let Some((k, v)) = iter.next() {
        *v += *k;
    }
    assert_eq!(map.get(&1), Some(&11));
    assert_eq!(map.get(&2), Some(&22));
}

#[test]
fn values_mut_twice_keeps_keys() {
    let mut map: LinearMap<u64, u64, 5> = LinearMap::new();
    let _ = map.insert(1, 1);
    let _ = map.insert(2, 2);
    let mut iter = map.values_mut();
    while let Some(v) = iter.next() {
        *v *= 10;
    }
    let mut iter = map.values_mut();
    assert_eq!(iter.next(), Some(&mut 10));
    assert_eq!(iter.next(), Some(&mut 20));
    assert_eq!(iter.next(), None);
    let mut keys = map.keys();
    assert_eq!(keys.next(), Some(&1));
    assert_eq!(keys.next(), Some(&2));
    assert_eq!(map.insert(3, 30), Ok(None));
}
