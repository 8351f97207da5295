use ash_gap_buffer::string::GapString;

#[test]
fn str_push_pop() {
    let mut s = GapString::new();

    s.push('a');
    s.push('£');
    s.push('b');

    assert_eq!(s.pop(), Some('b'));
    assert_eq!(s.pop(), Some('£'));
    assert_eq!(s.pop(), Some('a'));
    assert_eq!(s.pop(), None);
}

#[test]
fn str_push_pop_back() {
    let mut s = GapString::new();

    s.push_back('a');
    s.push_back('£');
    s.push_back('b');

    assert_eq!(s.pop_back(), Some('b'));
    assert_eq!(s.pop_back(), Some('£'));
    assert_eq!(s.pop_back(), Some('a'));
    assert_eq!(s.pop_back(), None);
}

#[test]
fn chars() {
    let mut s = GapString::new();
    s.push_str("hello");
    s.push_str_back(" £world");

    for (ch, ch_exp) in s.chars().iter().zip("hello £world".chars()) {
        assert_eq!(*ch, ch_exp);
    }

    assert_eq!(s.chars().last(), Some(&'d'));
}

#[test]
fn char_indices() {
    let mut s = GapString::new();
    s.push_str("hello");
    s.push_str_back(" £world");

    for ((idx, ch), (idx_exp, ch_exp)) in s.char_indices().iter().zip("hello £world".char_indices())
    {
        assert_eq!(*idx, idx_exp);
        assert_eq!(*ch, ch_exp);
    }

    assert_eq!(s.char_indices().last(), Some(&(12, 'd')));
}

#[test]
fn str_set_gap() {
    let mut s = GapString::from_str("that will be £5 please");

    s.set_gap(15);
    assert_eq!(s.front(), "that will be £");
    assert_eq!(s.back(), "5 please");

    s.set_gap(23);
    assert_eq!(s.front(), "that will be £5 please");
    assert_eq!(s.back(), "");
}

#[test]
fn str_set_gap_empty() {
    let mut s = GapString::new();
    s.set_gap(0);
}

#[test]
fn str_truncate_front() {
    let mut s = GapString::from_str("that will be £5 please");

    s.truncate_front(23);
    assert_eq!(s.front(), "that will be £5 please");

    s.truncate_front(15);
    assert_eq!(s.front(), "that will be £");
}

#[test]
fn truncate_back() {
    let mut s = GapString::from_str("that will be £5 please");
    s.set_gap(0);

    s.truncate_back(23);
    assert_eq!(s.back(), "that will be £5 please");

    s.truncate_back(8);
    assert_eq!(s.back(), "5 please");
}

#[test]
fn string_push_pop() {
    let mut s = GapString::new();

    s.push('£');
    s.push_str("ab");
    s.push('c');

    assert_eq!(s.len(), 5);

    assert_eq!(s.pop(), Some('c'));
    assert_eq!(s.pop(), Some('b'));
    assert_eq!(s.pop(), Some('a'));
    assert_eq!(s.pop(), Some('£'));

    assert_eq!(s.len(), 0);
    assert_eq!(s.pop(), None);
}

#[test]
fn string_push_pop_back() {
    let mut s = GapString::new();

    s.push_back('£');
    s.push_str_back("ba");
    s.push_back('c');

    assert_eq!(s.capacity(), 8);
    assert_eq!(s.len(), 5);

    assert_eq!(s.pop_back(), Some('c'));
    assert_eq!(s.pop_back(), Some('b'));
    assert_eq!(s.pop_back(), Some('a'));
    assert_eq!(s.pop_back(), Some('£'));

    assert_eq!(s.len(), 0);
    assert_eq!(s.pop_back(), None);
}

#[test]
fn push_str() {
    let mut s = GapString::new();
    s.push_str("hello");
    s.push_str(" £world");

    assert_eq!(s.capacity(), 16);
    assert_eq!(s.len(), 13);

    assert_eq!(s.front(), "hello £world");
    assert_eq!(s.back(), "");
}

#[test]
fn push_str_back() {
    let mut s = GapString::new();
    s.push_str_back(" £world");
    s.push_str_back("hello");

    assert_eq!(s.capacity(), 16);
    assert_eq!(s.len(), 13);

    assert_eq!(s.front(), "");
    assert_eq!(s.back(), "hello £world");
}

#[test]
fn string_set_gap() {
    let mut s = GapString::new();
    s.push_str("hello world");
    s.set_gap(0);

    assert_eq!(s.front(), "");
    assert_eq!(s.back(), "hello world");

    s.set_gap(5);

    assert_eq!(s.front(), "hello");
    assert_eq!(s.back(), " world");
}

#[test]
fn is_char_boundary() {
    let mut s = GapString::new();
    s.push_str("£5");

    assert!(s.is_char_boundary(0));
    assert!(!s.is_char_boundary(1));
    assert!(s.is_char_boundary(2));
    assert!(s.is_char_boundary(3));
    assert!(!s.is_char_boundary(4));
}

#[test]
fn bytes_and_into_string() {
    let mut s = GapString::from_str("a£c");
    s.set_gap(1);

    assert_eq!(s.bytes(), "a£c".as_bytes().to_vec());
    assert_eq!(s.into_string(), String::from("a£c"));
}

#[test]
fn from_string_keeps_text() {
    let s = GapString::from_string(String::from("héllo"));
    assert_eq!(s.front(), "héllo");
    assert_eq!(s.back(), "");
    assert_eq!(s.len(), 6);
}

#[test]
fn string_clear_and_shrink() {
    let mut s = GapString::from_str("hello world");
    s.set_gap(5);
    s.shrink_to_fit();
    assert_eq!(s.capacity(), 11);
    assert_eq!(s.front(), "hello");
    assert_eq!(s.back(), " world");

    s.clear();
    assert!(s.is_empty());
    assert_eq!(s.capacity(), 11);
}

#[test]
fn string_reserve() {
    let mut s = GapString::new();
    s.reserve(3);
    assert_eq!(s.capacity(), 8);
    s.reserve(20);
    assert_eq!(s.capacity(), 20);
    assert_eq!(s.len(), 0);
}
