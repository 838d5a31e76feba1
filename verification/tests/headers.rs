//! Tests of the header map on its own.

use enron_mail::headers::Headers;

fn bytes(s: &str) -> Vec<u8> {
    s.as_bytes().to_vec()
}

#[test]
fn insert_under_the_same_name_overwrites() {
    let mut h = Headers::new();
    h.insert(bytes("Cc"), bytes("first"));
    h.insert(bytes("Cc"), bytes("second"));
    assert_eq!(h.len(), 1);
    assert_eq!(h.get(&bytes("Cc")).unwrap(), &bytes("second"));
}

#[test]
fn remove_takes_the_value_out() {
    let mut h = Headers::new();
    h.insert(bytes("From"), bytes("a@b"));
    h.insert(bytes("To"), bytes("c@d"));
    assert_eq!(h.remove(&bytes("From")), Some(bytes("a@b")));
    assert_eq!(h.remove(&bytes("From")), None);
    assert_eq!(h.len(), 1);
    assert!(h.get(&bytes("From")).is_none());
    assert_eq!(h.get(&bytes("To")).unwrap(), &bytes("c@d"));
}

#[test]
fn names_are_case_sensitive() {
    let mut h = Headers::new();
    h.insert(bytes("Date"), bytes("d"));
    assert!(h.get(&bytes("date")).is_none());
    assert_eq!(h.len(), 1);
}
