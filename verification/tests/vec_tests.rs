use vec_impl::MyVec;

fn myvec_of(elems: &[i32]) -> MyVec<i32> {
    let mut v = MyVec::new(None);
    for e in elems {
        v.push_back(*e);
    }
    v
}

#[test]
fn test_vec_simple() {
    let _my_vec: MyVec<i32> = MyVec::new(None);
    // Move
    let _other_vec = _my_vec;
    for _elem in _other_vec.as_slice().iter() {
        assert_eq!(_elem, &0);
    }
}

#[test]
fn test_vec_macro() {
    let my_vec: MyVec<i32> = myvec_of(&[]);
    assert_eq!(my_vec.is_empty(), true);
    let my_vec: MyVec<i32> = myvec_of(&[38i32]);
    assert_eq!(my_vec.last().unwrap(), &38i32);
    let my_vec: MyVec<i32> = myvec_of(&[35i32, 38i32]);
    assert_eq!(my_vec.first().unwrap(), &35i32);
    assert_eq!(my_vec.last().unwrap(), &38i32);
}

#[test]
fn test_vec_recursive_macro() {
    let mut my_vec: MyVec<i32> = MyVec::new(None);
    assert_eq!(my_vec.is_empty(), true);
    my_vec = MyVec::new(None);
    my_vec.push_back(38i32);
    assert_eq!(my_vec.last().unwrap(), &38i32);
    my_vec = MyVec::new(None);
    my_vec.push_back(35i32);
    my_vec.push_back(38i32);
    assert_eq!(my_vec.first().unwrap(), &35i32);
    assert_eq!(my_vec.last().unwrap(), &38i32);
}

#[test]
fn test_vec_int() {
    let mut my_vec: MyVec<i32> = MyVec::new(Some(2));
    let mut ints: Vec<i32> = Vec::new();
    for elem in [1, 2, 3, 4, 5] {
        my_vec.push_back(elem);
        ints.push(elem);
    }

    assert_eq!(my_vec.is_empty(), false);
    assert_eq!(my_vec.len(), ints.len());
    assert_eq!(my_vec.first(), Some(&1));
    assert_eq!(my_vec.last(), Some(&5));
    {
        let mut splits = my_vec.as_slice().split(|n| n % 2 == 0);
        assert_eq!(splits.next().unwrap(), &[1]);
        assert_eq!(splits.next().unwrap(), &[3]);
        assert_eq!(splits.next().unwrap(), &[5]);
    }

    assert_eq!(my_vec.as_slice()[my_vec.len() - 1], 5);
    for i in 0..30 {
        assert_eq!(my_vec.get(i), ints.get(i));
    }
    let vec_len = my_vec.len() / 2;
    my_vec.set(vec_len, 35);
    let vec_len = ints.len() / 2;
    ints[vec_len] = my_vec.as_slice()[my_vec.len() / 2];
    for i in 0..30 {
        assert_eq!(my_vec.get(i), ints.get(i));
    }
    for i in 0..my_vec.len() {
        let elem = *my_vec.get(i).unwrap();
        my_vec.set(i, elem + 1);
    }
    for elem in my_vec.as_slice().iter().enumerate() {
        assert_eq!(*elem.1, ints.get(elem.0).unwrap() + 1);
    }
}

#[test]
fn test_vec_str() {
    let strings = vec!["So", "far", "so", "good"];
    let mut my_vec: MyVec<&str> = MyVec::new(None);

    for elem in strings.iter() {
        my_vec.push_back(elem);
    }

    for elem in my_vec.as_slice().iter().enumerate() {
        assert_eq!(*elem.1, *strings.get(elem.0).unwrap());
    }

    for elem in my_vec.as_slice().iter().enumerate() {
        assert_eq!(elem.1, strings.get(elem.0).unwrap());
    }

    let mut it = my_vec.into_iter();
    let mut index = 0;
    while let Some(elem) = it.next() {
        assert_eq!(elem, *strings.get(index).unwrap());
        index += 1;
    }
    assert_eq!(index, strings.len());
}

// A value that owns an allocation of its own.
#[derive(Debug)]
struct AT<T> {
    alloc: Vec<T>,
}

impl<T> AT<T> {
    fn new(count: usize) -> Self {
        AT { alloc: Vec::with_capacity(std::cmp::max(count, 4)) }
    }
}

#[test]
fn test_vec_at_val() {
    let mut my_vec: MyVec<AT<i32>> = MyVec::new(None);
    for i in 0..30 {
        my_vec.push_back(AT::new(10 + i));
    }

    let mut other_vec: MyVec<AT<i32>> = MyVec::new(None);
    other_vec.extend(my_vec);
    assert_eq!(other_vec.len(), 30);
    assert!(other_vec.get(29).unwrap().alloc.capacity() >= 39);
}

#[derive(Debug)]
struct RT<'a> {
    val: i32,
    name: &'a str,
}

impl<'a> RT<'a> {
    fn new(val: i32) -> Self {
        RT { val, name: "Star" }
    }
}

impl<'a> Drop for RT<'a> {
    fn drop(&mut self) {
        assert_eq!(self.name, "Star");
    }
}

#[test]
fn test_vec_rt_val() {
    let ints = vec![15, 150, 200, 250, 0, -15, -150, -200, -250];
    let mut my_vec = MyVec::new(Some(2));
    for elem in ints.iter() {
        my_vec.push_back(RT::new(*elem));
    }

    assert_eq!(my_vec.capacity(), 16);
    assert_eq!(my_vec.len(), 9);

    for elem in ints.iter().rev() {
        assert_eq!(*elem, my_vec.pop().unwrap().val);
    }
    assert_eq!(my_vec.len(), 0);
    assert_eq!(my_vec.pop().is_none(), true);
    assert_eq!(my_vec.back().is_none(), true);
    assert_eq!(my_vec.capacity(), 4);
}

#[test]
fn test_vec_rt_ref() {
    let mut rts: MyVec<RT> = MyVec::new(Some(2));
    let mut rt_refs: MyVec<&RT> = MyVec::new(Some(2));

    let ints = vec![15, 150, 200, 250, 0, -15, -150, -200, -250];
    for elem in ints.iter() {
        rts.push_back(RT::new(*elem));
    }

    for i in 0..ints.len() {
        rt_refs.push_back(rts.get(i).unwrap());
    }

    assert_eq!(rt_refs.capacity(), 16);

    for i in (0..ints.len()).rev() {
        assert_eq!(rt_refs.get(i).unwrap().val, rt_refs.pop().unwrap().val);
    }
}

#[test]
fn test_vec_vec_ints() {
    let first_vec = myvec_of(&[1, 2, 3, 4, 5, 6, 7, 8, 9]);
    let mut vec_vec: MyVec<MyVec<i32>> = MyVec::new(None);

    for i in 0..10 {
        let mut iter_vec = first_vec.clone();
        for j in 0..iter_vec.len() {
            let elem = *iter_vec.get(j).unwrap();
            iter_vec.set(j, elem + i);
        }

        vec_vec.push_back(iter_vec);
    }

    assert_eq!(vec_vec.is_empty(), false);
    assert_eq!(vec_vec.len(), 10);

    for elem in vec_vec.first().unwrap().as_slice().iter().enumerate() {
        assert_eq!(first_vec.get(elem.0).unwrap(), elem.1);
    }

    let clone_vec_vec = vec_vec.clone();
    assert_eq!(clone_vec_vec.is_empty(), false);
    assert_eq!(clone_vec_vec.len(), 10);
}

// The capacity policy: the first allocation takes the reserve, later
// growth doubles.
#[test]
fn capacity_grows_from_reserve_then_doubles() {
    let mut v: MyVec<u8> = MyVec::new(Some(2));
    assert_eq!(v.capacity(), 0);
    v.push_back(1);
    assert_eq!(v.capacity(), 4);
    for i in 0..4 {
        v.push_back(i);
    }
    assert_eq!(v.capacity(), 8);
    let mut w: MyVec<u8> = MyVec::new(None);
    w.push_back(0);
    assert_eq!(w.capacity(), 32);
    let mut big: MyVec<u8> = MyVec::new(Some(100));
    big.push_back(0);
    assert_eq!(big.capacity(), 100);
}

// The capacity is halved once at most a quarter full, as long as it is at
// least twice the reserve.
#[test]
fn capacity_trims_after_pops() {
    let mut v: MyVec<u32> = MyVec::new(Some(4));
    for i in 0..17 {
        v.push_back(i);
    }
    assert_eq!(v.capacity(), 32);
    while v.len() > 8 {
        v.pop();
    }
    assert_eq!(v.capacity(), 16);
    while v.len() > 2 {
        v.pop();
    }
    assert_eq!(v.capacity(), 4);
    while v.len() > 0 {
        v.pop();
    }
    assert_eq!(v.capacity(), 4);
    assert!(v.pop().is_none());
    assert_eq!(v.capacity(), 4);
}

#[test]
fn pop_undoes_push_back() {
    let mut v = myvec_of(&[3, 1, 4]);
    v.push_back(9);
    assert_eq!(v.pop(), Some(9));
    assert_eq!(v.as_slice(), &[3, 1, 4]);
}

#[test]
fn swap_set_and_get() {
    let mut v = myvec_of(&[10, 20, 30]);
    v.swap(0, 2);
    assert_eq!(v.as_slice(), &[30, 20, 10]);
    v.swap(1, 1);
    assert_eq!(v.as_slice(), &[30, 20, 10]);
    v.set(1, 7);
    assert_eq!(v.get(1), Some(&7));
    assert_eq!(v.get(3), None);
    assert_eq!(v.back(), Some(&10));
}

#[test]
fn extend_appends_in_order() {
    let mut a = myvec_of(&[1, 2]);
    let b = myvec_of(&[3, 4, 5]);
    a.extend(b);
    assert_eq!(a.as_slice(), &[1, 2, 3, 4, 5]);
    assert_eq!(a.capacity(), 32);
}

#[test]
fn clone_reserves_for_its_length() {
    let v = myvec_of(&[1, 2, 3, 4, 5, 6]);
    let c = v.clone();
    assert_eq!(c.as_slice(), v.as_slice());
    assert_eq!(c.capacity(), 6);
    let e: MyVec<i32> = MyVec::new(None);
    assert_eq!(e.clone().capacity(), 0);
}

#[test]
fn into_iter_gives_elements_in_order() {
    let v = myvec_of(&[5, 6, 7]);
    let mut it = v.into_iter();
    assert_eq!(it.next(), Some(5));
    assert_eq!(it.next(), Some(6));
    assert_eq!(it.next(), Some(7));
    assert_eq!(it.next(), None);
}
