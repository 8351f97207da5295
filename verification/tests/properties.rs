use ash_gap_buffer::buffer::GapBuffer;
use ash_gap_buffer::gap_vec::GapVec;
use ash_gap_buffer::string::{GapError, GapString};

#[test]
fn push_order() {
    let mut buf = GapBuffer::new();
    buf.push(1);
    buf.push(2);
    buf.push(3);
    buf.push_back(4);
    buf.push_back(5);

    // Front-pushed bytes in push order; back-pushed in reverse of push order.
    assert_eq!(buf.front(), &[1, 2, 3]);
    assert_eq!(buf.back(), &[5, 4]);
}

#[test]
fn round_trip_bytes() {
    let v = b"some plain bytes".to_vec();
    let mut buf = GapBuffer::from_vec(v.clone());
    buf.set_gap(4);
    assert_eq!(buf.into_vec(), v);
}

#[test]
fn round_trip_text() {
    let v = "héllo £ world".as_bytes().to_vec();
    let s = GapString::try_from_vec(v.clone()).unwrap();
    assert_eq!(s.bytes(), v);
    assert_eq!(s.into_string(), "héllo £ world");
}

#[test]
fn invalid_utf8_rejected() {
    // A continuation byte with no leading byte is not UTF-8.
    assert!(GapString::try_from_vec(vec![0x80]).is_err());
    // A truncated two-byte encoding is not UTF-8 either.
    assert!(GapString::try_from_vec(vec![0xC2]).is_err());
}

#[test]
fn set_gap_twice_unchanged() {
    let mut buf = GapBuffer::from_vec(b"abcdef".to_vec());
    buf.set_gap(2);
    let front1 = buf.front().to_vec();
    let back1 = buf.back().to_vec();
    let cap1 = buf.capacity();

    buf.set_gap(2);
    assert_eq!(buf.front(), front1.as_slice());
    assert_eq!(buf.back(), back1.as_slice());
    assert_eq!(buf.capacity(), cap1);
}

#[test]
fn capacity_bounds() {
    let mut buf = GapBuffer::new();
    for i in 0..200 {
        buf.push(i as u8);
        buf.push_back(i as u8);
        assert!(buf.len() <= buf.capacity());
    }
    buf.shrink_to_fit();
    assert_eq!(buf.capacity(), buf.len());
}

#[test]
fn ten_pushes_then_gap_to_front() {
    let mut buf: GapVec<u8> = GapVec::new();
    for i in 0..10 {
        buf.push(i);
    }

    assert_eq!(buf.capacity(), 16);
    assert_eq!(buf.front(), &[0, 1, 2, 3, 4, 5, 6, 7, 8, 9]);
    assert_eq!(buf.back(), &[] as &[u8]);

    buf.set_gap(0);
    assert_eq!(buf.capacity(), 16);
    assert_eq!(buf.front(), &[] as &[u8]);
    assert_eq!(buf.back(), &[0, 1, 2, 3, 4, 5, 6, 7, 8, 9]);
}

#[test]
fn growth_on_full_buffer() {
    let mut buf = GapBuffer::with_capacity(10);
    buf.push_slice(b"0123456789");
    assert_eq!(buf.capacity(), 10);
    assert_eq!(buf.len(), 10);

    buf.push(b'x');
    assert!(buf.capacity() >= 11);
    assert_eq!(buf.capacity(), 74);
    assert_eq!(buf.front(), b"0123456789x");
}

#[test]
fn boundary_violation_rejected() {
    let mut s = GapString::from_str("that will be £5 please");

    assert_eq!(s.try_set_gap(15), Ok(()));
    assert_eq!(s.front(), "that will be £");
    assert_eq!(s.back(), "5 please");

    // Byte 14 falls inside the two-byte encoding of '£' (which starts at
    // byte 13): refused, and the split is left exactly as it was.
    assert_eq!(s.try_set_gap(14), Err(GapError::NotCharBoundary));
    assert_eq!(s.front(), "that will be £");
    assert_eq!(s.back(), "5 please");

    assert_eq!(s.try_set_gap(99), Err(GapError::OutOfBounds));
    assert_eq!(s.front(), "that will be £");
    assert_eq!(s.back(), "5 please");
}

#[test]
fn astral_char_round_trip() {
    let mut s = GapString::new();
    s.push('𝄞');
    s.push('a');
    s.push_back('€');

    assert_eq!(s.len(), 8);
    assert_eq!(s.front(), "𝄞a");
    assert_eq!(s.back(), "€");

    assert_eq!(s.pop(), Some('a'));
    assert_eq!(s.pop(), Some('𝄞'));
    assert_eq!(s.pop_back(), Some('€'));
    assert_eq!(s.pop(), None);
    assert_eq!(s.pop_back(), None);
}

#[test]
fn regions_always_text() {
    let mut s = GapString::new();
    s.push('£');
    s.push_back('é');
    s.push_str("ab");
    s.set_gap(2);
    s.pop();
    s.pop_back();

    // front() and back() only exist because each region is valid UTF-8;
    // exercising them after mixed edits checks the invariant held throughout.
    let front = s.front().to_string();
    let back = s.back().to_string();
    assert_eq!(front.len() + back.len(), s.len());
}

#[test]
fn pop_slice_saturates() {
    let mut buf = GapBuffer::from_vec(b"ab".to_vec());
    let mut dest = [0u8; 5];
    assert_eq!(buf.pop_slice(&mut dest), 2);
    assert_eq!(&dest[..2], b"ab");
    assert_eq!(buf.pop_slice(&mut dest), 0);
}
