use ash_gap_buffer::gap_vec::GapVec;

// Pin the element type so inference cannot pick the wrong one.
type Buffer = GapVec<u16>;

#[test]
fn lib_from_vec() {
    let v = vec![0, 1, 2, 3, 4];
    let cap = v.capacity();

    let buf = Buffer::from_vec(v);

    assert_eq!(buf.capacity(), cap);
    assert_eq!(buf.len(), 5);
    assert_eq!(buf.front().len(), 5);
    assert_eq!(buf.back().len(), 0);

    assert_eq!(buf.front(), &[0, 1, 2, 3, 4]);
    assert_eq!(buf.back(), &[] as &[u16]);
}

#[test]
fn zero_capacity() {
    let buf = Buffer::with_capacity(0);
    assert_eq!(buf.capacity(), 0);
}

#[test]
fn resize() {
    let mut buf = Buffer::with_capacity(8);
    buf.push_slice(&[0, 1, 2, 3]);
    buf.push_slice_back(&[4, 5, 6, 7]);

    assert_eq!(buf.capacity(), 8);
    assert_eq!(buf.front(), &[0, 1, 2, 3]);
    assert_eq!(buf.back(), &[4, 5, 6, 7]);

    buf.push_back(100);

    assert_eq!(buf.capacity(), 16);
    assert_eq!(buf.front(), &[0, 1, 2, 3]);
    assert_eq!(buf.back(), &[100, 4, 5, 6, 7]);
}

#[test]
fn lib_push_pop() {
    let mut buf = Buffer::new();

    for i in 0..10 {
        buf.push(i);
    }

    assert_eq!(buf.capacity(), 16);
    assert_eq!(buf.len(), 10);
    assert_eq!(buf.front().len(), 10);
    assert_eq!(buf.back().len(), 0);

    assert_eq!(buf.front(), &[0, 1, 2, 3, 4, 5, 6, 7, 8, 9]);

    for i in (0..10).rev() {
        assert_eq!(buf.pop(), Some(i));
    }

    assert_eq!(buf.pop(), None);
}

#[test]
fn lib_push_pop_back() {
    let mut buf = Buffer::new();

    for i in 0..10 {
        buf.push_back(i);
    }

    assert_eq!(buf.capacity(), 16);
    assert_eq!(buf.len(), 10);
    assert_eq!(buf.front().len(), 0);
    assert_eq!(buf.back().len(), 10);

    assert_eq!(buf.back(), &[9, 8, 7, 6, 5, 4, 3, 2, 1, 0]);

    for i in (0..10).rev() {
        assert_eq!(buf.pop_back(), Some(i));
    }

    assert_eq!(buf.pop_back(), None);
}

#[test]
fn lib_push_slice() {
    let mut buf = Buffer::new();
    buf.push_slice(&[0, 1, 2, 3, 4, 5]);
    buf.push_slice(&[6, 7, 8, 9, 10]);

    assert_eq!(buf.capacity(), 16);
    assert_eq!(buf.len(), 11);
    assert_eq!(buf.front().len(), 11);
    assert_eq!(buf.back().len(), 0);

    assert_eq!(buf.front(), &[0, 1, 2, 3, 4, 5, 6, 7, 8, 9, 10]);
    assert_eq!(buf.back(), &[] as &[u16]);
}

#[test]
fn push_slice_back() {
    let mut buf = Buffer::new();
    buf.push_slice_back(&[6, 7, 8, 9, 10]);
    buf.push_slice_back(&[0, 1, 2, 3, 4, 5]);

    assert_eq!(buf.capacity(), 16);
    assert_eq!(buf.len(), 11);
    assert_eq!(buf.front().len(), 0);
    assert_eq!(buf.back().len(), 11);

    assert_eq!(buf.front(), &[] as &[u16]);
    assert_eq!(buf.back(), &[0, 1, 2, 3, 4, 5, 6, 7, 8, 9, 10]);
}

#[test]
fn lib_set_gap() {
    let mut buf = Buffer::new();
    for i in 0..10 {
        buf.push(i);
    }

    assert_eq!(buf.front(), &[0, 1, 2, 3, 4, 5, 6, 7, 8, 9]);
    assert_eq!(buf.back(), &[] as &[u16]);

    buf.set_gap(0);
    assert_eq!(buf.capacity(), 16);
    assert_eq!(buf.len(), 10);
    assert_eq!(buf.front().len(), 0);
    assert_eq!(buf.back().len(), 10);

    assert_eq!(buf.front(), &[] as &[u16]);
    assert_eq!(buf.back(), &[0, 1, 2, 3, 4, 5, 6, 7, 8, 9]);
}

#[test]
fn lib_get() {
    let mut buf = Buffer::new();

    buf.push_slice(&[0, 1, 2, 3, 4]);
    buf.set_gap(1);

    assert_eq!(buf.front(), &[0]);
    assert_eq!(buf.back(), &[1, 2, 3, 4]);

    for (i, mut element) in [0, 1, 2, 3, 4].iter().copied().enumerate() {
        assert_eq!(buf.get(i), Some(&element));
        assert_eq!(buf.get_mut(i), Some(&mut element));
    }

    assert_eq!(buf.get(5), None);
}

#[test]
fn from_slice_keeps_order() {
    let buf = Buffer::from_slice(&[7, 8, 9]);
    assert_eq!(buf.front(), &[7, 8, 9]);
    assert_eq!(buf.back(), &[] as &[u16]);
    assert!(!buf.is_empty());
}

#[test]
fn moves_unclonable_elements() {
    let mut buf: GapVec<String> = GapVec::new();
    buf.push(String::from("a"));
    buf.push_back(String::from("b"));
    buf.set_gap(0);

    assert_eq!(buf.pop_back(), Some(String::from("a")));
    assert_eq!(buf.pop_back(), Some(String::from("b")));
    assert_eq!(buf.pop_back(), None);
}
