use zero::{Error, Vec};

#[test]
fn vec_new() {
    let v: Vec<i8, 0> = Vec::new();

    assert_eq!(v.len(), 0);
}

#[test]
fn vec_capacity() {
    let v: Vec<i8, 2> = Vec::new();

    assert_eq!(v.capacity(), 2);
}

#[test]
fn vec_push() {
    let mut v: Vec<i8, 5> = Vec::new();

    let _ = v.push(1);
    let _ = v.push(2);
    let _ = v.push(3);

    assert_eq!(v.len(), 3);
}

#[test]
fn vec_pop() {
    let mut v: Vec<i8, 5> = Vec::new();
    let _ = v.push(1);
    let _ = v.push(2);
    let _ = v.push(3);

    let item = v.pop();

    assert_eq!(v.len(), 2);
    assert_eq!(item, Some(3));
}

#[test]
fn vec_push_full() {
    let mut v: Vec<i8, 2> = Vec::new();
    assert_eq!(v.push(1), Ok(()));
    assert_eq!(v.push(2), Ok(()));
    assert_eq!(v.push(3), Err(Error::Full));
    assert_eq!(v.as_slice(), &[1, 2]);
}

#[test]
fn vec_pop_empty() {
    let mut v: Vec<i8, 2> = Vec::new();
    assert_eq!(v.pop(), None);
}

#[test]
fn vec_iter() {
    let mut v: Vec<i8, 5> = Vec::new();

    let _ = v.push(1);
    let _ = v.push(2);
    let _ = v.push(3);

    let mut items = v.as_slice().iter();

    assert_eq!(items.next(), Some(&1));
    assert_eq!(items.next(), Some(&2));
    assert_eq!(items.next(), Some(&3));

    let _ = v.pop();

    let mut items = v.as_slice().iter();
    assert_eq!(items.next(), Some(&1));
    assert_eq!(items.next(), Some(&2));
    assert_eq!(items.next(), None);
}

#[test]
fn vec_deref_mut() {
    let mut v: Vec<i8, 5> = Vec::new();

    let _ = v.push(1);
    let _ = v.push(2);
    let _ = v.push(3);

    let s = v.as_mut_slice();
    s[0] = 10;
    s[1] *= 10;
    s[2] *= 10;

    assert_eq!(v.as_slice(), &[10, 20, 30]);
}

#[test]
fn vec_swap_remove_and_truncate() {
    let mut v: Vec<u8, 5> = Vec::new();
    assert_eq!(v.extend_from_slice(&[1, 2, 3, 4]), Ok(()));
    assert_eq!(v.swap_remove(0), 1);
    assert_eq!(v.as_slice(), &[4, 2, 3]);
    v.truncate(2);
    assert_eq!(v.as_slice(), &[4, 2]);
    v.truncate(7);
    assert_eq!(v.as_slice(), &[4, 2]);
    assert_eq!(v.get(1), Some(&2));
    assert_eq!(v.get(2), None);
    *v.get_mut(0).unwrap() = 9;
    assert_eq!(v.as_slice(), &[9, 2]);
    v.clear();
    assert!(v.is_empty());
}

#[test]
fn vec_extend_from_slice_all_or_nothing() {
    let mut v: Vec<u8, 3> = Vec::new();
    assert_eq!(v.extend_from_slice(&[1, 2]), Ok(()));
    assert_eq!(v.extend_from_slice(&[3, 4]), Err(Error::Full));
    assert_eq!(v.as_slice(), &[1, 2]);
    assert_eq!(v.extend_from_slice(&[3]), Ok(()));
    assert_eq!(v.as_slice(), &[1, 2, 3]);
}

#[test]
fn vec_pop_after_push() {
    let mut v: Vec<u8, 3> = Vec::new();
    let _ = v.push(4);
    assert_eq!(v.push(5), Ok(()));
    assert_eq!(v.pop(), Some(5));
    assert_eq!(v.as_slice(), &[4]);
}
