use fastcmpstr::{StartsWithStr, Str, StrError, PREFIX_LENGTH};
use rand::distributions::Alphanumeric;
use rand::{thread_rng, Rng};

const LONG_STR: &str = "this is a longer string that will primarly be in the suffix";
const LONG_STR2: &str = "let me tell you a story when unsafe went very wrong...";

#[test]
fn test_from_empty() {
    let s = Str::from("");

    assert_eq!(s.len(), 0);
    assert!(s.is_empty());
    assert_eq!(s.extra_capacity(), 0);
    assert_eq!(s.prefix(), [0; PREFIX_LENGTH]);
    assert_eq!(s.heap_size(), 0);
}

#[test]
fn test_from_no_suffix() {
    let s = Str::from("abc");

    assert_eq!(s.len(), 3);
    assert!(!s.is_empty());
    assert_eq!(s.extra_capacity(), 0);
    let mut expected_prefix: [u8; PREFIX_LENGTH] = [0; PREFIX_LENGTH];
    expected_prefix[..3].clone_from_slice("abc".as_bytes());
    assert_eq!(s.prefix(), expected_prefix);
    assert_eq!(s.heap_size(), 0);
}

#[test]
fn test_from_with_suffix() {
    let s = Str::from(LONG_STR);

    assert_eq!(s.len(), LONG_STR.len());
    assert_eq!(s.extra_capacity(), 0);
    assert_eq!(s.prefix(), LONG_STR.as_bytes()[..PREFIX_LENGTH]);
    assert_ne!(s.heap_size(), 0);

    let suffix_bytes = s.heap_bytes();
    assert_eq!(suffix_bytes.len(), s.len() - PREFIX_LENGTH);
    let suffix_str = core::str::from_utf8(&suffix_bytes).unwrap();
    assert_eq!(suffix_str, &LONG_STR[PREFIX_LENGTH..]);
}

#[test]
fn test_indexing() {
    assert_eq!(Str::from("test").index(2), "test".as_bytes()[2]);

    for i in 0..LONG_STR.len() {
        assert_eq!(Str::from(LONG_STR).index(i), LONG_STR.as_bytes()[i]);
    }
}

#[test]
fn test_eq_no_suffix() {
    let a = Str::from("abc");
    let b = Str::from("dbc");

    assert_eq!(a, a);
    assert_eq!(b, b);
    assert_ne!(a, b);
}

#[test]
fn test_eq_with_suffix() {
    let a = Str::from(LONG_STR);
    let b = Str::from(LONG_STR2);

    assert_eq!(a, a);
    assert_eq!(b, b);
    assert_ne!(a, b);
}

fn rand_str(rand_len: usize) -> String {
    thread_rng()
        .sample_iter(&Alphanumeric)
        .take(rand_len)
        .map(char::from)
        .collect()
}

#[test]
fn test_eq_rand() {
    for i in 0..100 {
        for _ in 0..100 {
            let s = rand_str(i);
            let a = Str::from(&s);
            let a2 = Str::from(&format!("{}^", s));
            let b = Str::from(&s);
            let b2 = Str::from(&format!("{}_", s));

            assert_eq!(a, b);
            assert_ne!(a2, b2);
        }
    }
}

#[test]
fn test_to_string() {
    assert_eq!(Str::from("a").to_string(), "a".to_string());
    assert_eq!(Str::from("ab").to_string(), "ab".to_string());
    assert_eq!(Str::from("abc").to_string(), "abc".to_string());
    assert_eq!(Str::from(LONG_STR).to_string(), LONG_STR.to_string());
}

#[test]
fn test_starts_with_other() {
    let a = Str::from(LONG_STR);
    let b = Str::from(LONG_STR2);
    let a_short = Str::from(&LONG_STR[..PREFIX_LENGTH]);
    let b_short = Str::from(&LONG_STR2[..PREFIX_LENGTH]);
    let a_shorter = Str::from(&LONG_STR[..PREFIX_LENGTH - 2]);

    assert!(a.starts_with(&a));
    assert!(b.starts_with(&b));
    assert!(!a.starts_with(&b));
    assert!(!b.starts_with(&a));

    assert!(a.starts_with(&a_short));
    assert!(b.starts_with(&b_short));
    assert!(a_short.starts_with(&a_short));
    assert!(b_short.starts_with(&b_short));
    assert!(!a.starts_with(&b_short));
    assert!(!b.starts_with(&a_short));

    assert!(a.starts_with(&a_shorter));
    assert!(a_short.starts_with(&a_shorter));
    assert!(a_shorter.starts_with(&a_shorter))
}

#[test]
fn from_round_trips_lengths_and_text() {
    for text in ["", "a", "abcdefghij", "abcdefghijk", "héllo wörld, ünïcode", LONG_STR] {
        let s = Str::from(text);
        assert_eq!(s.len(), text.len());
        assert_eq!(s.to_string(), text);
        assert_eq!(s.to_bytes(), text.as_bytes().to_vec());
    }
}

#[test]
fn long_value_keeps_tail_on_heap() {
    let s = Str::from(LONG_STR);
    assert_eq!(s.heap_size(), LONG_STR.len() - 10);
    assert_eq!(s.heap_bytes(), LONG_STR.as_bytes()[10..].to_vec());
    assert_eq!(s.capacity(), LONG_STR.len());
    assert_eq!(Str::from("abc").heap_bytes(), Vec::<u8>::new());
}

#[test]
fn equal_prefix_different_tail_is_unequal() {
    let a = Str::from("0123456789-first tail");
    let b = Str::from("0123456789-other tail");
    assert_eq!(a.prefix(), b.prefix());
    assert_ne!(a, b);
    assert_eq!(a, Str::from("0123456789-first tail"));
}

#[test]
fn equal_length_and_tail_different_prefix_is_unequal() {
    assert_ne!(Str::from("x123456789-same tail"), Str::from("y123456789-same tail"));
    assert_ne!(Str::from(""), Str::from("a"));
    assert_eq!(Str::from(""), Str::from(""));
}

#[test]
fn starts_with_text_and_bytes() {
    let a = Str::from(LONG_STR);
    assert!(StartsWithStr::starts_with(&a, ""));
    assert!(StartsWithStr::starts_with(&a, "this is"));
    assert!(StartsWithStr::starts_with(&a, "this is a longer string"));
    assert!(StartsWithStr::starts_with(&a, LONG_STR));
    assert!(!StartsWithStr::starts_with(&a, "this is a longer strinG"));
    assert!(!StartsWithStr::starts_with(&a, "that"));
    let longer = format!("{}!", LONG_STR);
    assert!(!StartsWithStr::starts_with(&a, &longer));
    assert!(a.starts_with_bytes(b"this is a"));
    assert!(!a.starts_with_bytes(b"this is b"));
}

#[test]
fn empty_subject_and_empty_candidate() {
    let empty = Str::from("");
    assert!(empty.is_empty());
    assert!(empty.starts_with(&empty));
    assert!(!empty.starts_with(&Str::from("a")));
    assert!(!StartsWithStr::starts_with(&empty, "a"));
    assert!(Str::from("abc").starts_with(&empty));
    assert!(Str::from(LONG_STR).starts_with(&empty));
}

#[test]
fn same_length_non_prefix_is_rejected() {
    assert!(!Str::from("abcdefghijklmnop").starts_with(&Str::from("abcdefghijklmnoq")));
    assert!(!Str::from("abd").starts_with(&Str::from("abc")));
}

#[test]
fn get_reports_out_of_bounds() {
    let s = Str::from("test");
    assert_eq!(s.get(0), Ok(b't'));
    assert_eq!(s.get(3), Ok(b't'));
    assert_eq!(s.get(4), Err(StrError::OutOfBounds));
    let long = Str::from(LONG_STR);
    assert_eq!(long.get(12), Ok(LONG_STR.as_bytes()[12]));
    assert_eq!(long.get(LONG_STR.len()), Err(StrError::OutOfBounds));
    assert_eq!(Str::from("").get(0), Err(StrError::OutOfBounds));
}

#[test]
fn reserve_within_inline_room_changes_nothing() {
    let mut s = Str::from("abc");
    assert_eq!(s.capacity(), 10);
    assert_eq!(s.reserve(7), Ok(()));
    assert_eq!(s.capacity(), 10);
    assert_eq!(s.heap_size(), 0);
    assert_eq!(s, Str::from("abc"));
}

#[test]
fn reserve_grows_short_value() {
    let mut s = Str::from("abc");
    assert_eq!(s.reserve(20), Ok(()));
    assert_eq!(s.capacity(), 23);
    assert_eq!(s.capacity() - s.len(), 20);
    assert_eq!(s.extra_capacity(), 13);
    assert_eq!(s.heap_size(), 13);
    assert_eq!(s, Str::from("abc"));
    assert_eq!(s.to_string(), "abc");
}

#[test]
fn reserve_grows_long_value() {
    let mut s = Str::from(LONG_STR);
    assert_eq!(s.reserve(100), Ok(()));
    assert_eq!(s.capacity(), LONG_STR.len() + 100);
    assert_eq!(s.extra_capacity(), 100);
    assert_eq!(s.heap_size(), LONG_STR.len() - 10 + 100);
    assert_eq!(s, Str::from(LONG_STR));
    assert_eq!(s.heap_bytes(), LONG_STR.as_bytes()[10..].to_vec());
    assert_eq!(s.reserve(50), Ok(()));
    assert_eq!(s.capacity(), LONG_STR.len() + 100);
}

#[test]
fn reserve_past_extra_capacity_width_fails() {
    let mut s = Str::from("abc");
    assert_eq!(s.reserve(65535 + 7 + 1), Err(StrError::CapacityOverflow));
    assert_eq!(s.capacity(), 10);
    assert_eq!(s.heap_size(), 0);
    assert_eq!(s.reserve(65535 + 7), Ok(()));
    assert_eq!(s.extra_capacity(), 65535);
    assert_eq!(s.capacity(), 3 + 7 + 65535);
}

#[test]
fn try_from_bytes_accepts_ordinary_input() {
    let s = Str::try_from_bytes(b"raw \xff bytes").unwrap();
    assert_eq!(s.len(), 11);
    assert_eq!(s.index(4), 0xff);
    assert_eq!(s, Str::from_bytes(b"raw \xff bytes"));
}

#[test]
fn debug_string_reports_sizes() {
    assert_eq!(
        Str::from("abc").debug_string(),
        "\"abc\" (len=3, cap=10, stack_size=10, heap_size=0)"
    );
    assert_eq!(
        Str::from("0123456789abc").debug_string(),
        "\"0123456789abc\" (len=13, cap=13, stack_size=10, heap_size=3)"
    );
}
