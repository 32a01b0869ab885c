//! The content-addressed store.

use samsara::cas::{shelf, Cas, MemCas};
use samsara::hash::Digest;

fn roundtrip<C: Cas>(mut cas: C) {
    let d1 = cas.put(b"alpha").unwrap();
    let d2 = cas.put(b"beta").unwrap();
    let d1_again = cas.put(b"alpha").unwrap();

    assert_eq!(d1, d1_again, "identical bytes deduplicate");
    assert_ne!(d1, d2);
    assert_eq!(cas.get(&d1).unwrap().unwrap(), b"alpha");
    assert_eq!(cas.get(&d2).unwrap().unwrap(), b"beta");
    assert!(cas.has(&d1));
    assert!(cas.get(&Digest::of(b"never stored")).unwrap().is_none());
}

#[test]
fn mem_cas_roundtrips() {
    roundtrip(MemCas::new());
}

#[test]
fn mem_cas_deduplicates_storage() {
    let mut cas = MemCas::new();
    let big = vec![7u8; 4096];
    for _ in 0..10 {
        cas.put(&big).unwrap();
    }
    assert_eq!(cas.len(), 1);
    assert_eq!(cas.bytes(), 4096, "ten identical payloads cost one");
}

#[test]
fn digest_is_stable_and_distinguishing() {
    assert_eq!(Digest::of(b"hello"), Digest::of(b"hello"));
    assert_ne!(Digest::of(b"hello"), Digest::of(b"hellp"));
    assert_eq!(Digest::of(b"hello").short().len(), 12);
}

#[test]
fn a_digest_is_the_hex_of_blake3() {
    let d = Digest::of(b"");
    assert_eq!(
        d.as_str(),
        "af1349b9f5f9a1a6a0404dea36dcc9499bcb25c9adc112b7cc9a93cae41f3262"
    );
    assert_eq!(d.short(), "af1349b9f5f9");
    assert_eq!(Digest::from_hex(d.as_str()), d);
    assert!(d.same(&Digest::from_hex(d.as_str())));
    assert!(!d.same(&Digest::from_hex("af13")));
}

#[test]
fn an_empty_store_holds_nothing() {
    let mut cas = MemCas::default();
    assert!(cas.is_empty());
    assert_eq!(cas.bytes(), 0);
    assert!(!cas.has(&Digest::of(b"x")));
    let d = cas.put(b"x").unwrap();
    assert!(!cas.is_empty());
    let held = cas.iter();
    assert_eq!(held.len(), 1);
    assert_eq!(held[0].0, &d);
    assert_eq!(held[0].1, &b"x".to_vec());
}

#[test]
fn a_digest_is_shelved_under_its_first_two_digits() {
    let (directory, file) = shelf(&Digest::of(b""));
    assert_eq!(directory, "af");
    assert_eq!(
        file,
        "1349b9f5f9a1a6a0404dea36dcc9499bcb25c9adc112b7cc9a93cae41f3262"
    );
}
