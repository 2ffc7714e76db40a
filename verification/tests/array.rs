use ijson::IArray;
use ijson::INumber;
use ijson::IString;
use ijson::IValue;

fn num(i: i64) -> IValue {
    IValue::Number(INumber::from_i64(i))
}

#[test]
fn test_push_pop_matches_reference_list() {
    let mut arr = IArray::new();
    let mut reference: Vec<i64> = Vec::new();
    let ops: [(bool, i64); 12] = [
        (true, 1),
        (true, 2),
        (false, 0),
        (true, 3),
        (true, 4),
        (true, 5),
        (false, 0),
        (false, 0),
        (true, 6),
        (false, 0),
        (false, 0),
        (false, 0),
    ];
    for (is_push, v) in ops.iter() {
        if *is_push {
            arr.push(num(*v));
            reference.push(*v);
        } else {
            let got = arr.pop();
            let expected = reference.pop();
            assert_eq!(got, expected.map(num));
        }
        assert_eq!(arr.len(), reference.len());
        for (i, v) in reference.iter().enumerate() {
            assert_eq!(*arr.get(i), num(*v));
        }
    }
    assert!(arr.is_empty());
}

#[test]
fn test_insert_remove_restores_sequence() {
    let starts: [&[i64]; 3] = [&[], &[7], &[1, 2, 3]];
    for start in starts.iter() {
        for index in 0..=start.len() {
            let mut arr = IArray::new();
            for v in start.iter() {
                arr.push(num(*v));
            }
            let snapshot = arr.clone();
            arr.insert(index, num(99));
            assert_eq!(*arr.get(index), num(99));
            assert_eq!(arr.len(), start.len() + 1);
            let removed = arr.remove(index);
            assert_eq!(removed, num(99));
            assert_eq!(arr, snapshot);
        }
    }
}

#[test]
fn test_static_representation() {
    let arr = IArray::new();
    assert_eq!(arr.capacity(), 0);
    assert_eq!(arr.len(), 0);
    assert_eq!(IArray::with_capacity(0).capacity(), 0);

    let mut arr = IArray::with_capacity(4);
    assert_eq!(arr.capacity(), 4);
    arr.push(num(1));
    arr.clear();
    assert_eq!(arr.len(), 0);
    assert_eq!(arr.capacity(), 4);
    arr.shrink_to_fit();
    assert_eq!(arr.capacity(), 0);

    let mut arr = IArray::with_capacity(3);
    arr.push(num(1));
    arr.pop();
    assert!(arr.is_empty());
}

#[test]
fn test_reserve_never_shrinks_and_suffices() {
    let mut arr = IArray::new();
    arr.push(num(1));
    arr.push(num(2));
    let before = arr.capacity();
    arr.reserve(10);
    assert!(arr.capacity() >= before);
    assert!(arr.capacity() >= arr.len() + 10);
    let grown = arr.capacity();
    arr.reserve(1);
    assert_eq!(arr.capacity(), grown);
}

#[test]
fn test_reserve_doubling_policy() {
    let mut arr = IArray::with_capacity(4);
    for i in 0..4 {
        arr.push(num(i));
    }
    arr.reserve(1);
    assert_eq!(arr.capacity(), 8);
    let mut arr = IArray::with_capacity(2);
    arr.reserve(9);
    assert_eq!(arr.capacity(), 9);
}

#[test]
fn test_swap_remove_three_elements() {
    let mut arr = IArray::new();
    arr.push(num(10));
    arr.push(num(20));
    arr.push(num(30));
    let removed = arr.swap_remove(0);
    assert_eq!(removed, num(10));
    assert_eq!(arr.len(), 2);
    assert_eq!(*arr.get(0), num(30));
    assert_eq!(*arr.get(1), num(20));
}

#[test]
fn test_clone_is_independent() {
    let mut arr = IArray::new();
    arr.push(num(1));
    arr.push(IValue::String(IString::from("text".to_string())));
    let copy = arr.clone();
    assert_eq!(arr, copy);
    assert_eq!(copy.capacity(), copy.len());

    let mut copy2 = copy.clone();
    copy2.push(num(3));
    assert_eq!(arr.len(), 2);
    assert_ne!(arr, copy2);
    assert_eq!(arr, copy);

    let mut arr2 = arr.clone();
    arr2.pop();
    assert_eq!(copy.len(), 2);
}

#[test]
fn test_truncate() {
    let mut arr = IArray::new();
    for i in 0..5 {
        arr.push(num(i));
    }
    let cap = arr.capacity();
    arr.truncate(7);
    assert_eq!(arr.len(), 5);
    arr.truncate(2);
    assert_eq!(arr.len(), 2);
    assert_eq!(*arr.get(0), num(0));
    assert_eq!(*arr.get(1), num(1));
    assert_eq!(arr.capacity(), cap);
    arr.truncate(0);
    assert!(arr.is_empty());
}

#[test]
fn test_pop_on_empty() {
    let mut arr = IArray::new();
    assert!(arr.pop().is_none());
    let mut arr = IArray::with_capacity(2);
    assert!(arr.pop().is_none());
}

#[test]
fn test_as_slice() {
    let mut arr = IArray::new();
    arr.push(num(1));
    arr.push(num(2));
    let s = arr.as_slice();
    assert_eq!(s.len(), 2);
    assert_eq!(s[0], num(1));
    assert_eq!(s[1], num(2));
}

#[test]
fn test_into_iter_full_consumption() {
    let mut arr = IArray::new();
    arr.push(num(1));
    arr.push(num(2));
    arr.push(num(3));
    let mut it = arr.into_iter();
    assert_eq!(it.next(), Some(num(1)));
    assert_eq!(it.next(), Some(num(2)));
    assert_eq!(it.next(), Some(num(3)));
    assert!(it.next().is_none());
    assert!(it.next().is_none());
}

#[test]
fn test_into_iter_partial_consumption() {
    let mut arr = IArray::new();
    for i in 0..5 {
        arr.push(num(i));
    }
    let mut it = arr.into_iter();
    assert_eq!(it.next(), Some(num(0)));
    assert_eq!(it.next(), Some(num(1)));
    drop(it);

    let empty = IArray::new();
    let mut it = empty.into_iter();
    assert!(it.next().is_none());
}

#[test]
fn test_extend_from_vec() {
    let mut arr = IArray::new();
    arr.push(num(1));
    arr.extend_from_vec(vec![num(2), num(3)]);
    assert_eq!(arr.len(), 3);
    assert_eq!(*arr.get(0), num(1));
    assert_eq!(*arr.get(1), num(2));
    assert_eq!(*arr.get(2), num(3));
    arr.extend_from_vec(Vec::new());
    assert_eq!(arr.len(), 3);
}

#[test]
fn test_set_element() {
    let mut arr = IArray::new();
    arr.push(num(1));
    arr.push(num(2));
    arr.push(num(3));
    let cap = arr.capacity();
    arr.set(1, num(20));
    assert_eq!(arr.len(), 3);
    assert_eq!(*arr.get(0), num(1));
    assert_eq!(*arr.get(1), num(20));
    assert_eq!(*arr.get(2), num(3));
    assert_eq!(arr.capacity(), cap);
}

#[test]
fn test_from_vec() {
    let arr = IArray::from_vec(vec![num(1), num(2)]);
    assert_eq!(arr.len(), 2);
    assert_eq!(arr.capacity(), 2);
    assert_eq!(*arr.get(0), num(1));
}
