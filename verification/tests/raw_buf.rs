use ash_gap_buffer::raw::{RawBuf, MIN_RESERVE};

#[test]
fn raw_reallocate() {
    let mut buf = RawBuf::new();

    // do nothing
    buf.set_capacity(0);
    assert_eq!(buf.capacity(), 0);

    // allocate
    buf.set_capacity(5);
    assert_eq!(buf.capacity(), 5);

    // do nothing
    buf.set_capacity(5);
    assert_eq!(buf.capacity(), 5);

    // reallocate
    buf.set_capacity(10);
    assert_eq!(buf.capacity(), 10);

    // deallocate
    buf.set_capacity(0);
    assert_eq!(buf.capacity(), 0);
}

#[test]
fn raw_drop_deallocate() {
    RawBuf::with_capacity(10);
}

#[test]
fn raw_grow() {
    let mut buf = RawBuf::new();

    assert_eq!(buf.grow_cap(0), None);
    assert_eq!(buf.grow_cap(1), Some(MIN_RESERVE));
    assert_eq!(buf.grow_cap(MIN_RESERVE + 1), Some(MIN_RESERVE + 1));

    buf.set_capacity(5);
    assert_eq!(buf.grow_cap(6), Some(10));
}

#[test]
fn raw_resize_to_fit() {
    let mut buf = RawBuf::new();

    buf.resize_to_fit(1);
    assert_eq!(buf.capacity(), MIN_RESERVE);

    buf.resize_to_fit(4);
    assert_eq!(buf.capacity(), MIN_RESERVE);

    buf.resize_to_fit(9);
    assert_eq!(buf.capacity(), 16);
}

#[test]
fn raw_from_vec_keeps_bytes() {
    let buf = RawBuf::from_vec(vec![1u8, 2, 3]);
    assert_eq!(buf.capacity(), 3);
    assert_eq!(buf.into_vec(), vec![1u8, 2, 3]);
}
