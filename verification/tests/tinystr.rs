use unic_langid::{TinyStr4, TinyStr8, TinyStrError};

fn naive_upper(s: &str) -> String {
    s.chars()
        .map(|c| if c.is_ascii_lowercase() { c.to_ascii_uppercase() } else { c })
        .collect()
}

fn naive_lower(s: &str) -> String {
    s.chars()
        .map(|c| if c.is_ascii_uppercase() { c.to_ascii_lowercase() } else { c })
        .collect()
}

#[test]
fn pack_and_read_back() {
    let t = TinyStr8::from_text("abcdefgh").unwrap();
    assert_eq!(t.as_str(), "abcdefgh");
    assert_eq!(t.len(), 8);
    let t = TinyStr8::from_text("a").unwrap();
    assert_eq!(t.as_str(), "a");
    assert_eq!(t.len(), 1);
    let t = TinyStr4::from_text("Latn").unwrap();
    assert_eq!(t.as_str(), "Latn");
    assert_eq!(t.len(), 4);
}

#[test]
fn pack_errors() {
    assert_eq!(TinyStr8::from_text(""), Err(TinyStrError::InvalidSize));
    assert_eq!(TinyStr8::from_text("ninebytes"), Err(TinyStrError::InvalidSize));
    assert_eq!(TinyStr4::from_text("five5"), Err(TinyStrError::InvalidSize));
    assert_eq!(TinyStr8::from_text("caf\u{e9}"), Err(TinyStrError::NonAscii));
    assert_eq!(TinyStr8::from_bytes(&[0x61, 0x00, 0x62]), Err(TinyStrError::InvalidNull));
    assert_eq!(TinyStr8::from_bytes(&[0xff, 0x00]), Err(TinyStrError::NonAscii));
}

#[test]
fn case_conversion_agrees_with_reference() {
    // every printable ASCII byte at every position of every valid length
    let printable: Vec<u8> = (0x21u8..0x7f).collect();
    for len in 1..=8usize {
        for (i, &b) in printable.iter().enumerate() {
            // a window of `len` printable bytes starting at i, wrapping
            let bytes: Vec<u8> = (0..len).map(|k| printable[(i + k) % printable.len()]).collect();
            let s = String::from_utf8(bytes.clone()).unwrap();
            let t = TinyStr8::from_bytes(&bytes).unwrap();
            assert_eq!(t.to_ascii_uppercase().as_str(), naive_upper(&s), "upper of {:?}", s);
            assert_eq!(t.to_ascii_lowercase().as_str(), naive_lower(&s), "lower of {:?}", s);
            let _ = (b, i);
        }
    }
    for len in 1..=4usize {
        for i in 0..printable.len() {
            let bytes: Vec<u8> = (0..len).map(|k| printable[(i + k) % printable.len()]).collect();
            let s = String::from_utf8(bytes.clone()).unwrap();
            let t = TinyStr4::from_bytes(&bytes).unwrap();
            assert_eq!(t.to_ascii_uppercase().as_str(), naive_upper(&s));
            assert_eq!(t.to_ascii_lowercase().as_str(), naive_lower(&s));
        }
    }
}

#[test]
fn titlecase() {
    assert_eq!(TinyStr4::from_text("latn").unwrap().to_ascii_titlecase().as_str(), "Latn");
    assert_eq!(TinyStr4::from_text("LATN").unwrap().to_ascii_titlecase().as_str(), "Latn");
    assert_eq!(TinyStr4::from_text("lAtN").unwrap().to_ascii_titlecase().as_str(), "Latn");
    assert_eq!(TinyStr4::from_text("1a2B").unwrap().to_ascii_titlecase().as_str(), "1a2b");
}

#[test]
fn classification() {
    assert!(TinyStr8::from_text("abcXYZ").unwrap().is_all_ascii_alphanumeric());
    assert!(TinyStr8::from_text("123456").unwrap().is_all_ascii_alphanumeric());
    assert!(TinyStr8::from_text("a1b2C3").unwrap().is_all_ascii_alphanumeric());
    assert!(!TinyStr8::from_text("ab-cd").unwrap().is_all_ascii_alphanumeric());
    assert!(!TinyStr8::from_text("a_b").unwrap().is_all_ascii_alphanumeric());
    assert!(TinyStr4::from_text("aZbY").unwrap().is_all_ascii_alphanumeric());
    assert!(!TinyStr4::from_text("a1!").unwrap().is_all_ascii_alphanumeric());
}

#[test]
fn byte_order() {
    let a = TinyStr8::from_text("aa").unwrap();
    let b = TinyStr8::from_text("ab").unwrap();
    let c = TinyStr8::from_text("aab").unwrap();
    assert!(a.lt(&b));
    assert!(!b.lt(&a));
    assert!(a.lt(&c)); // a proper prefix sorts first
    assert!(c.lt(&b));
    assert!(!a.lt(&a));
}

#[test]
fn raw_word_round_trip() {
    let t = TinyStr8::from_text("fonipa").unwrap();
    let w = t.raw_word();
    let back = TinyStr8::new_unchecked(w);
    assert_eq!(back, t);
    assert_eq!(back.as_str(), "fonipa");
    let t = TinyStr4::from_text("US").unwrap();
    let back = TinyStr4::new_unchecked(t.raw_word());
    assert_eq!(back.as_str(), "US");
}
