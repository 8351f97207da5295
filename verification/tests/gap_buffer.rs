use ash_gap_buffer::buffer::{calc_new_capacity, GapBuffer};

#[test]
fn buffer_calc_capacity() {
    assert_eq!(calc_new_capacity(0, 0), None);
    assert_eq!(calc_new_capacity(0, 1), Some(64));
    assert_eq!(calc_new_capacity(64, 2), None);
    assert_eq!(calc_new_capacity(64, 64), None);
    assert_eq!(calc_new_capacity(64, 65), Some(128));
    assert_eq!(calc_new_capacity(0, 123), Some(123));
    assert_eq!(calc_new_capacity(1600, 1601), Some(1700));
}

#[test]
fn buffer_from_vec() {
    let mut buf = GapBuffer::from_vec(b"hello world".to_vec());
    assert_eq!(buf.front(), b"hello world");
    assert_eq!(buf.back(), b"");

    buf.push_slice_back(b"-wide-web");
    assert_eq!(buf.front(), b"hello world");
    assert_eq!(buf.back(), b"-wide-web");
}

#[test]
fn into_vec() {
    let mut buf = GapBuffer::new();
    buf.push_slice(b"hello");
    buf.push_slice_back(b" world");
    assert!(buf.len() < buf.capacity());

    let v = buf.into_vec();
    assert_eq!(v.as_slice(), b"hello world");
}

#[test]
fn buffer_grow() {
    let mut buf = GapBuffer::new();

    buf.reserve(1);
    assert_eq!(buf.capacity(), 64);
}

#[test]
fn grow_again() {
    let mut buf = GapBuffer::with_capacity(10);

    buf.push(1);
    buf.push_back(2);
    assert_eq!(buf.capacity(), 10);

    buf.reserve(10);
    assert_eq!(buf.capacity(), 74);

    assert_eq!(buf.front(), &[1]);
    assert_eq!(buf.back(), &[2]);
}

#[test]
fn buffer_push_pop() {
    let mut buf = GapBuffer::new();

    buf.push(10);
    assert_eq!(buf.capacity(), 64);
    assert_eq!(buf.len(), 1);

    buf.push(20);
    assert_eq!(buf.capacity(), 64);
    assert_eq!(buf.len(), 2);

    assert_eq!(buf.pop(), Some(20));
    assert_eq!(buf.pop(), Some(10));
    assert_eq!(buf.pop(), None);
}

#[test]
fn buffer_push_pop_back() {
    let mut buf = GapBuffer::new();

    buf.push_back(10);
    assert_eq!(buf.capacity(), 64);
    assert_eq!(buf.len(), 1);

    buf.push_back(20);
    assert_eq!(buf.capacity(), 64);
    assert_eq!(buf.len(), 2);

    assert_eq!(buf.pop_back(), Some(20));
    assert_eq!(buf.pop_back(), Some(10));
    assert_eq!(buf.pop_back(), None);
}

#[test]
fn push_empty_slices() {
    let mut buf = GapBuffer::new();

    buf.push_slice(b"");
    assert_eq!(buf.front(), b"");

    buf.push_slice_back(b"");
    assert_eq!(buf.back(), b"");

    buf.push(1);
    buf.push_back(2);

    assert_eq!(buf.front(), &[1]);
    assert_eq!(buf.back(), &[2]);
}

#[test]
fn buffer_push_and_get_slices() {
    let mut buf = GapBuffer::new();

    buf.push_slice(b"hello");
    assert_eq!(buf.capacity(), 64);
    assert_eq!(buf.front_len(), 5);

    buf.push_slice_back(b" world");
    assert_eq!(buf.capacity(), 64);
    assert_eq!(buf.back_len(), 6);

    assert_eq!(buf.front(), b"hello");
    assert_eq!(buf.back(), b" world");
}

#[test]
fn buffer_set_gap() {
    let mut buf = GapBuffer::new();
    for i in 0..10 {
        buf.push(i);
    }

    assert_eq!(buf.front(), &[0, 1, 2, 3, 4, 5, 6, 7, 8, 9]);
    assert_eq!(buf.back(), &[]);

    buf.set_gap(0);
    assert_eq!(buf.front_len(), 0);
    assert_eq!(buf.back_len(), 10);
    assert_eq!(buf.front(), &[]);
    assert_eq!(buf.back(), &[0, 1, 2, 3, 4, 5, 6, 7, 8, 9]);

    buf.set_gap(5);
    assert_eq!(buf.front_len(), 5);
    assert_eq!(buf.back_len(), 5);
    assert_eq!(buf.front(), &[0, 1, 2, 3, 4]);
    assert_eq!(buf.back(), &[5, 6, 7, 8, 9]);

    buf.set_gap(10);
    assert_eq!(buf.front_len(), 10);
    assert_eq!(buf.back_len(), 0);
    assert_eq!(buf.front(), &[0, 1, 2, 3, 4, 5, 6, 7, 8, 9]);
    assert_eq!(buf.back(), &[]);
}

#[test]
fn buffer_set_gap_empty() {
    let mut buf = GapBuffer::new();
    buf.set_gap(0);
}

#[test]
fn buffer_pop_slice() {
    let mut buf = GapBuffer::new();
    buf.push_slice(b"hello");

    let mut dest = [0; 2];
    assert_eq!(buf.pop_slice(&mut dest), 2);

    assert_eq!(buf.front(), b"hel");
    assert_eq!(&dest, b"lo");
}

#[test]
fn buffer_pop_slice_back() {
    let mut buf = GapBuffer::new();
    buf.push_slice_back(b"hello");

    let mut dest = [0; 2];
    assert_eq!(buf.pop_slice_back(&mut dest), 2);

    assert_eq!(buf.back(), b"llo");
    assert_eq!(&dest, b"he");
}

#[test]
fn buffer_pop_too_much_slice() {
    let mut buf = GapBuffer::new();
    buf.push_slice(b"hello");

    let mut dest = [0; 7];
    assert_eq!(buf.pop_slice(&mut dest), 5);

    assert_eq!(&dest, b"hello\0\0");
    assert_eq!(buf.front(), b"");

    buf.push_slice_back(b"hello");

    let mut dest = [0; 7];
    assert_eq!(buf.pop_slice_back(&mut dest), 5);

    assert_eq!(&dest, b"hello\0\0");
    assert_eq!(buf.back(), b"");
}

#[test]
fn buffer_get() {
    let mut buf = GapBuffer::new();
    buf.push_slice(b"hello");
    buf.push_slice_back(b" world");

    for (i, &b) in b"hello world".iter().enumerate() {
        let mut byte = b;
        assert_eq!(buf.get(i), Some(&byte));
        assert_eq!(buf.get_mut(i), Some(&mut byte));
    }

    assert_eq!(buf.get(11), None);
}

#[test]
fn iterators() {
    let mut buf = GapBuffer::new();
    buf.push_slice(b"hello");
    buf.push_slice_back(b" world");

    let bytes = buf.iter();
    for (got, expected) in bytes.iter().zip(b"hello world".iter()) {
        assert_eq!(got, expected);
    }

    assert_eq!(bytes.len(), 11);
}

#[test]
fn shrink_to() {
    let mut buf = GapBuffer::new();
    buf.push_slice(b"hello");
    buf.push_slice_back(b" world");

    assert_eq!(buf.capacity(), 64);

    buf.shrink_to_fit();
    assert_eq!(buf.capacity(), 11);

    assert_eq!(buf.front(), b"hello");
    assert_eq!(buf.back(), b" world");
}

#[test]
fn truncate_regions() {
    let mut buf = GapBuffer::new();
    buf.push_slice(b"hello");
    buf.push_slice_back(b"world");

    buf.truncate_front(3);
    assert_eq!(buf.front(), b"hel");

    buf.truncate_back(3);
    assert_eq!(buf.back(), b"rld");

    buf.truncate_front(10);
    assert_eq!(buf.front(), b"hel");

    buf.clear();
    assert!(buf.is_empty());
    assert_eq!(buf.front(), b"");
    assert_eq!(buf.back(), b"");
}

#[test]
fn write_through_get_mut() {
    let mut buf = GapBuffer::new();
    buf.push_slice(b"hello");
    buf.set_gap(1);

    if let Some(b) = buf.get_mut(0) {
        *b = b'y';
    }
    assert_eq!(buf.front(), b"y");

    if let Some(b) = buf.get_mut(4) {
        *b = b'w';
    }
    assert_eq!(buf.back(), b"ellw");
}
