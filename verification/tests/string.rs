use zero::string::String;
use zero::{Error, Vec};

#[test]
fn string_new() {
    let s: String<3> = String::new();

    assert!(s.is_empty());
    assert_eq!(s.len(), 0);
}

#[test]
fn string_len() {
    let s: String<6> = String::from("abc");

    assert_eq!(s.len(), 3);
}

#[test]
fn string_capacity() {
    let s: String<6> = String::from("abc");

    assert_eq!(s.capacity(), 6);
}

#[test]
fn from() {
    let s: String<3> = String::from("abc");

    assert!(!s.is_empty());
    assert_eq!(s.len(), 3);
}

#[test]
fn from_utf8() {
    let mut v: Vec<u8, 3> = Vec::new();
    v.push('a' as u8).unwrap();
    v.push('b' as u8).unwrap();

    let s = String::from_utf8(v).unwrap();
    assert_eq!(s.as_str(), "ab");
}

#[test]
fn from_utf8_unchecked() {
    let mut v: Vec<u8, 3> = Vec::new();
    v.push(0).unwrap();
    v.push(159).unwrap();

    let v = String::from_utf8_unchecked(v);

    assert!(!v.is_empty());
    assert_eq!(v.len(), 2);
}

#[test]
fn into_bytes() {
    let s: String<3> = String::from("abc");

    let actual: Vec<u8, 3> = s.into_bytes();

    assert_eq!(actual.len(), 3);
    assert_eq!(actual.as_slice(), &['a' as u8, 'b' as u8, 'c' as u8]);
}

#[test]
fn as_bytes() {
    let s: String<3> = String::from("abc");

    let actual: &[u8] = s.as_bytes();

    assert_eq!(&actual[..], &['a' as u8, 'b' as u8, 'c' as u8]);
}

#[test]
fn as_bytes_mut() {
    let mut s: String<3> = String::from("abc");

    let actual: &mut [u8] = s.as_bytes_mut();
    actual[0] = 'z' as u8;

    assert_eq!(&actual[..], &['z' as u8, 'b' as u8, 'c' as u8]);
}

#[test]
fn push() {
    let mut s: String<4> = String::from("a");

    let alpha = '\u{03B1}'; // bytes length of 2
    assert!(s.push(alpha).is_ok());
    assert!(s.push('b').is_ok());

    assert_eq!(s.as_str().as_bytes(), "aαb".as_bytes());

    assert!(s.push('c').is_err());
}

#[test]
fn push_str() {
    let expected: String<3> = String::from("abc");

    let mut s: String<3> = String::new();

    assert!(s.push_str("abc").is_ok());
    assert!(!s.is_empty());
    assert_eq!(s.len(), 3);
    assert_eq!(s, expected.as_str());
}

#[test]
fn truncate() {
    let mut s: String<4> = String::from("abcd");

    s.truncate(2);

    assert_eq!(s.len(), 2);
    assert_eq!(s.as_str(), "ab");
}

#[test]
fn pop() {
    let mut s: String<4> = String::from("a");

    assert!(s.push('b').is_ok());
    let alpha = '\u{03B1}'; // bytes length of 2
    assert!(s.push(alpha).is_ok());

    assert!(s.pop().is_some());
    assert_eq!(s.as_str().as_bytes(), "ab".as_bytes());
}

#[test]
fn string_is_empty() {
    let mut s: String<4> = String::new();

    assert_eq!(s.len(), 0);
    assert_eq!(s.as_str(), "");
    assert!(s.is_empty());

    let _ = s.push('a');
    assert!(!s.is_empty());

    assert!(s.pop().is_some());
    assert!(s.is_empty());
    assert_eq!(s.len(), 0);
    assert_eq!(s.as_str(), "");
}

#[test]
fn string_clear() {
    let mut s: String<4> = String::from("abcd");

    s.clear();

    assert!(s.is_empty());
    assert_eq!(s.len(), 0);
    assert_eq!(s.as_str(), "");
}

#[test]
fn as_str() {
    let s: String<3> = String::from("abc");

    assert_eq!(s.as_str(), "abc");
}

#[test]
fn as_mut_str() {
    let mut s: String<3> = String::from("abc");

    let s = s.as_mut_str();
    s.make_ascii_uppercase();

    assert_eq!(s, "ABC");
}

#[test]
fn deref() {
    let s: String<4> = String::from("abcd");
    let str: &str = s.as_str();

    assert_eq!(&str, &"abcd");
}

#[test]
fn deref_mut() {
    let mut s: String<4> = String::from("abcd");

    s.as_mut_str().make_ascii_uppercase();

    assert_eq!(&s, &"ABCD");
}

#[test]
fn from_utf8_rejects_invalid_bytes() {
    let mut v: Vec<u8, 3> = Vec::new();
    v.push(0).unwrap();
    v.push(159).unwrap();

    assert!(String::from_utf8(v).is_err());
}

#[test]
fn push_encodes_every_width() {
    let mut s: String<10> = String::new();
    assert_eq!(s.push('a'), Ok(()));
    assert_eq!(s.push('\u{03B1}'), Ok(()));
    assert_eq!(s.push('\u{20AC}'), Ok(()));
    assert_eq!(s.push('\u{1F600}'), Ok(()));
    assert_eq!(s.as_bytes(), "aα€😀".as_bytes());
    assert_eq!(s.len(), 10);
    assert_eq!(s.push('b'), Err(Error::Full));
    assert_eq!(s.len(), 10);
}

#[test]
fn pop_returns_low_byte_of_last_char() {
    let mut s: String<10> = String::from("a\u{20AC}\u{1F600}");
    // U+1F600 ends in the byte 0x00 of its code point
    assert_eq!(s.pop(), Some(0x00));
    assert_eq!(s.as_str(), "a\u{20AC}");
    // U+20AC: its low byte is 0xAC
    assert_eq!(s.pop(), Some(0xAC));
    assert_eq!(s.pop(), Some(b'a'));
    assert_eq!(s.pop(), None);
}

#[test]
fn pop_after_push_gives_the_char_back() {
    let mut s: String<8> = String::from("xy");
    assert_eq!(s.push('\u{03B1}'), Ok(()));
    assert_eq!(s.pop(), Some(0xB1));
    assert_eq!(s.as_str(), "xy");
}

#[test]
fn push_str_that_does_not_fit_changes_nothing() {
    let mut s: String<4> = String::from("ab");
    assert_eq!(s.push_str("cde"), Err(Error::Full));
    assert_eq!(s.as_str(), "ab");
    assert_eq!(s.push_str("cd"), Ok(()));
    assert_eq!(s.as_str(), "abcd");
}

#[test]
fn push_multibyte_that_does_not_fit_changes_nothing() {
    let mut s: String<3> = String::from("ab");
    assert_eq!(s.push('\u{03B1}'), Err(Error::Full));
    assert_eq!(s.as_str(), "ab");
}

#[test]
fn truncate_past_the_end_changes_nothing() {
    let mut s: String<4> = String::from("ab");
    s.truncate(3);
    assert_eq!(s.as_str(), "ab");
}

#[test]
fn equality_with_str() {
    let s: String<4> = String::from("ab");
    assert!(s == "ab");
    assert!(s != "abc");
    assert!(s != "ac");
}
